//! What the command line asks for.
use vstd::prelude::*;
use vstd::string::*;

use crate::text::same_text;
use crate::tokenizer::texts_of;

verus! {

/// The number of tokens that are generated where the command line gives none.
pub const DEFAULT_STEPS: usize = 256;

/// The seed where the command line gives one that is no number.
pub const DEFAULT_SEED: u64 = 42;

/// Why a command line cannot be followed.
#[derive(Clone, Copy, PartialEq, Eq, Debug, Structural)]
pub enum ArgsError {
    /// The paths of the model and of the tokenizer are missing.
    Usage,
    /// The last option has no value.
    MissingValue,
}

/// What the command line asks for. The numbers that are not whole are left as they are written.
pub struct Options {
    /// The path of the model.
    pub model: String,
    /// The path of the tokenizer.
    pub tokenizer: String,
    /// The text that the generated text begins with.
    pub prompt: String,
    /// The number of tokens to generate.
    pub steps: usize,
    /// The temperature, where there is one.
    pub temperature: Option<String>,
    /// The share of the probability to draw from, where there is one.
    pub topp: Option<String>,
    /// The seed, where there is one.
    pub seed: Option<u64>,
}

/// An option.
#[derive(Clone, Copy, PartialEq, Eq, Debug, Structural)]
pub enum Flag {
    /// `-i`
    Prompt,
    /// `-n`
    Steps,
    /// `-t`
    Temperature,
    /// `-p`
    TopP,
    /// `-s`
    Seed,
}

/// The option that an argument names.
pub open spec fn flag(s: Seq<char>) -> Option<Flag> {
    if s == seq!['-', 'i'] {
        Some(Flag::Prompt)
    } else if s == seq!['-', 'n'] {
        Some(Flag::Steps)
    } else if s == seq!['-', 't'] {
        Some(Flag::Temperature)
    } else if s == seq!['-', 'p'] {
        Some(Flag::TopP)
    } else if s == seq!['-', 's'] {
        Some(Flag::Seed)
    } else {
        None
    }
}

/// The value that each option is given.
pub struct Values {
    pub prompt: Option<Seq<char>>,
    pub steps: Option<Seq<char>>,
    pub temperature: Option<Seq<char>>,
    pub topp: Option<Seq<char>>,
    pub seed: Option<Seq<char>>,
}

impl Values {
    /// No option has a value.
    pub open spec fn none() -> Values {
        Values { prompt: None, steps: None, temperature: None, topp: None, seed: None }
    }

    /// An option has another value.
    pub open spec fn with(self, flag: Flag, value: Seq<char>) -> Values {
        match flag {
            Flag::Prompt => Values { prompt: Some(value), ..self },
            Flag::Steps => Values { steps: Some(value), ..self },
            Flag::Temperature => Values { temperature: Some(value), ..self },
            Flag::TopP => Values { topp: Some(value), ..self },
            Flag::Seed => Values { seed: Some(value), ..self },
        }
    }
}

/// The values that the options have after `args`: each argument that names an option gives it the
/// value that comes next, and every other argument is passed over. There are none where an option
/// comes last.
pub open spec fn scanned(args: Seq<Seq<char>>, values: Values) -> Option<Values>
    decreases args.len(),
{
    if args.len() == 0 {
        Some(values)
    } else {
        match flag(args[0]) {
            Some(flag) => if args.len() == 1 {
                None
            } else {
                scanned(args.skip(2), values.with(flag, args[1]))
            },
            None => scanned(args.skip(1), values),
        }
    }
}

/// The number that digits write.
pub open spec fn digits_value(s: Seq<char>) -> nat
    decreases s.len(),
{
    if s.len() == 0 {
        0
    } else {
        10 * digits_value(s.drop_last()) + (s.last() as nat - '0' as nat) as nat
    }
}

/// Every character is a decimal digit.
pub open spec fn all_digits(s: Seq<char>) -> bool {
    forall|i: int| 0 <= i < s.len() ==> '0' <= #[trigger] s[i] <= '9'
}

/// The whole number up to `max` that a text writes: one digit or more, perhaps after a plus sign.
pub open spec fn whole_number(s: Seq<char>, max: nat) -> Option<nat> {
    let digits = if s.len() > 0 && s[0] == '+' {
        s.drop_first()
    } else {
        s
    };
    if digits.len() > 0 && all_digits(digits) && digits_value(digits) <= max {
        Some(digits_value(digits))
    } else {
        None
    }
}

proof fn lemma_digits_grow(s: Seq<char>, k: int)
    requires
        all_digits(s),
        0 <= k <= s.len(),
    ensures
        digits_value(s.take(k)) <= digits_value(s),
    decreases s.len() - k,
{
    if k == s.len() {
        assert(s.take(k) =~= s);
    } else {
        lemma_digits_grow(s, k + 1);
        assert(s.take(k + 1).drop_last() =~= s.take(k));
    }
}

/// Reads the whole number that a text writes.
pub fn parse_whole(s: &str, max: u64) -> (r: Option<u64>)
    ensures
        match r {
            Some(n) => whole_number(s@, max as nat) == Some(n as nat),
            None => whole_number(s@, max as nat) is None,
        },
{
    if !s.is_ascii() {
        proof {
            if whole_number(s@, max as nat) is Some {
                lemma_whole_number_is_ascii(s@, max as nat);
                assert(is_ascii(s));
            }
        }
        return None;
    }
    let b = s.as_bytes();
    assert(b@ =~= Seq::new(s@.len(), |i: int| s@[i] as u8));
    let from: usize = if b.len() > 0 && b[0] as char == '+' {
        1
    } else {
        0
    };
    let ghost digits = s@.skip(from as int);
    proof {
        assert(s@.skip(0) =~= s@);
        assert(s@.skip(1) =~= s@.drop_first());
    }
    if from == b.len() {
        return None;
    }
    let mut n: u64 = 0;
    let mut i: usize = from;
    assert(digits.take(0) =~= seq![]);
    while i < b.len()
        invariant
            from <= i <= b@.len(),
            b@.len() == s@.len(),
            b@ == Seq::new(s@.len(), |i: int| s@[i] as u8),
            is_ascii(s),
            digits == s@.skip(from as int),
            digits.len() > 0,
            whole_number(s@, max as nat) == if all_digits(digits) && digits_value(digits) <= max {
                Some(digits_value(digits))
            } else {
                None
            },
            forall|k: int| 0 <= k < i - from ==> '0' <= #[trigger] digits[k] <= '9',
            n == digits_value(digits.take(i - from)),
            n <= max,
        decreases b@.len() - i,
    {
        let c = b[i] as char;
        assert(c == digits[i - from]);
        if c < '0' || '9' < c {
            return None;
        }
        let d: u64 = (c as u32 - '0' as u32) as u64;
        proof {
            let next = digits.take(i - from + 1);
            assert(next.drop_last() =~= digits.take(i - from));
            assert(digits_value(next) == 10 * n + d);
            if all_digits(digits) {
                lemma_digits_grow(digits, i - from + 1);
            }
        }
        match n.checked_mul(10) {
            Some(m) => match m.checked_add(d) {
                Some(m) => {
                    if m > max {
                        return None;
                    }
                    n = m;
                },
                None => {
                    return None;
                },
            },
            None => {
                return None;
            },
        }
        i += 1;
    }
    assert(digits.take(i - from) =~= digits);
    Some(n)
}

proof fn lemma_whole_number_is_ascii(s: Seq<char>, max: nat)
    requires
        whole_number(s, max) is Some,
    ensures
        forall|i: int| 0 <= i < s.len() ==> 0 <= #[trigger] s[i] as int && (s[i] as int) < 0x80,
{
    assert forall|i: int| 0 <= i < s.len() implies 0 <= #[trigger] s[i] as int && (s[i] as int)
        < 0x80 by {
        if s[0] == '+' {
            if i > 0 {
                assert(s.drop_first()[i - 1] == s[i]);
            }
        }
    }
}

/// The option that an argument names.
fn parse_flag(s: &str) -> (r: Option<Flag>)
    ensures
        r == flag(s@),
{
    proof {
        reveal_strlit("-i");
        reveal_strlit("-n");
        reveal_strlit("-t");
        reveal_strlit("-p");
        reveal_strlit("-s");
        assert("-i"@ =~= seq!['-', 'i']);
        assert("-n"@ =~= seq!['-', 'n']);
        assert("-t"@ =~= seq!['-', 't']);
        assert("-p"@ =~= seq!['-', 'p']);
        assert("-s"@ =~= seq!['-', 's']);
    }
    if same_text(s, "-i") {
        Some(Flag::Prompt)
    } else if same_text(s, "-n") {
        Some(Flag::Steps)
    } else if same_text(s, "-t") {
        Some(Flag::Temperature)
    } else if same_text(s, "-p") {
        Some(Flag::TopP)
    } else if same_text(s, "-s") {
        Some(Flag::Seed)
    } else {
        None
    }
}

/// The text of a value that may be missing.
pub open spec fn text_of(s: Option<String>) -> Option<Seq<char>> {
    match s {
        Some(s) => Some(s@),
        None => None,
    }
}

/// A whole number, or the one that stands for a text that is none.
pub open spec fn number_or(s: Seq<char>, max: nat, other: nat) -> nat {
    match whole_number(s, max) {
        Some(n) => n,
        None => other,
    }
}

/// The options that the values stand for.
pub open spec fn chosen(args: Seq<Seq<char>>, values: Values, o: Options) -> bool {
    &&& o.model@ == args[1]
    &&& o.tokenizer@ == args[2]
    &&& o.prompt@ == match values.prompt {
        Some(s) => s,
        None => seq![],
    }
    &&& o.steps == match values.steps {
        Some(s) => number_or(s, usize::MAX as nat, DEFAULT_STEPS as nat),
        None => DEFAULT_STEPS as nat,
    }
    &&& text_of(o.temperature) == values.temperature
    &&& text_of(o.topp) == values.topp
    &&& match values.seed {
        Some(s) => o.seed matches Some(seed) && seed == number_or(
            s,
            u64::MAX as nat,
            DEFAULT_SEED as nat,
        ),
        None => o.seed is None,
    }
}

/// Reads a command line: the program's name, the paths of the model and of the tokenizer, and
/// options. Of an option that is given more than once the last value counts.
pub fn parse_args(args: &[String]) -> (res: Result<Options, ArgsError>)
    ensures
        match res {
            Ok(o) => {
                &&& args@.len() >= 3
                &&& scanned(texts_of(args@).skip(3), Values::none()) matches Some(values)
                &&& chosen(texts_of(args@), values, o)
            },
            Err(ArgsError::Usage) => args@.len() < 3,
            Err(ArgsError::MissingValue) => {
                &&& args@.len() >= 3
                &&& scanned(texts_of(args@).skip(3), Values::none()) is None
            },
        },
{
    if args.len() < 3 {
        return Err(ArgsError::Usage);
    }
    let mut o = Options {
        model: args[1].clone(),
        tokenizer: args[2].clone(),
        prompt: String::new(),
        steps: DEFAULT_STEPS,
        temperature: None,
        topp: None,
        seed: None,
    };
    let ghost texts = texts_of(args@);
    let ghost whole = scanned(texts.skip(3), Values::none());
    let ghost mut values = Values::none();
    let n: usize = args.len();
    let mut i: usize = 3;
    assert(chosen(texts, values, o));
    while i < n
        invariant
            n == args@.len(),
            3 <= i <= n,
            texts == texts_of(args@),
            whole == scanned(texts.skip(3), Values::none()),
            whole == scanned(texts.skip(i as int), values),
            chosen(texts, values, o),
        decreases n - i,
    {
        let ghost rest = texts.skip(i as int);
        assert(rest[0] == args@[i as int]@);
        match parse_flag(args[i].as_str()) {
            None => {
                assert(rest.skip(1) =~= texts.skip(i + 1));
                i += 1;
            },
            Some(flag) => {
                if i + 1 == n {
                    return Err(ArgsError::MissingValue);
                }
                assert(rest[1] == args@[i + 1]@);
                assert(rest.skip(2) =~= texts.skip(i + 2));
                o = o.set(flag, &args[i + 1]);
                proof {
                    values = values.with(flag, args@[i + 1]@);
                }
                i += 2;
            },
        }
    }
    assert(texts.skip(i as int) =~= seq![]);
    Ok(o)
}

impl Options {
    fn set(self, flag: Flag, value: &String) -> (r: Options)
        ensures
            forall|args: Seq<Seq<char>>, values: Values| #[trigger]
                chosen(args, values, self) ==> chosen(args, values.with(flag, value@), r),
    {
        let mut o = self;
        match flag {
            Flag::Prompt => {
                o.prompt = value.clone();
            },
            Flag::Steps => {
                o.steps = match parse_whole(value.as_str(), usize::MAX as u64) {
                    Some(n) => n as usize,
                    None => DEFAULT_STEPS,
                };
            },
            Flag::Temperature => {
                o.temperature = Some(value.clone());
            },
            Flag::TopP => {
                o.topp = Some(value.clone());
            },
            Flag::Seed => {
                o.seed = match parse_whole(value.as_str(), u64::MAX) {
                    Some(n) => Some(n),
                    None => Some(DEFAULT_SEED),
                };
            },
        }
        o
    }
}

/// The last value of an option counts, whatever comes before it.
pub proof fn law_last_value_counts(
    args: Seq<Seq<char>>,
    values: Values,
    name: Seq<char>,
    value: Seq<char>,
)
    requires
        flag(name) is Some,
        scanned(args, values) is Some,
    ensures
        scanned(args + seq![name, value], values) == Some(
            scanned(args, values)->0.with(flag(name)->0, value),
        ),
    decreases args.len(),
{
    let more = args + seq![name, value];
    if args.len() == 0 {
        assert(more =~= seq![name, value]);
        assert(more.skip(2) =~= seq![]);
        assert(scanned(more.skip(2), values.with(flag(name)->0, value)) == Some(
            values.with(flag(name)->0, value),
        ));
    } else {
        assert(more[0] == args[0]);
        match flag(args[0]) {
            Some(f) => {
                assert(more[1] == args[1]);
                assert(more.skip(2) =~= args.skip(2) + seq![name, value]);
                law_last_value_counts(args.skip(2), values.with(f, args[1]), name, value);
            },
            None => {
                assert(more.skip(1) =~= args.skip(1) + seq![name, value]);
                law_last_value_counts(args.skip(1), values, name, value);
            },
        }
    }
}

/// Each of the five options gives its own value to what it names: `-i` the prompt, `-n` the number
/// of tokens, `-t` the temperature, `-p` the share of the probability and `-s` the seed. Any other
/// argument gives nothing, and an option at the end cannot be followed.
pub proof fn law_options_name_their_values(
    name: Seq<char>,
    value: Seq<char>,
    rest: Seq<Seq<char>>,
    values: Values,
)
    ensures
        scanned(Seq::<Seq<char>>::empty(), values) == Some(values),
        ({
            let more = seq![name, value] + rest;
            let given = |v: Values| scanned(more, values) == scanned(rest, v);
            &&& name == seq!['-', 'i'] ==> given(Values { prompt: Some(value), ..values })
            &&& name == seq!['-', 'n'] ==> given(Values { steps: Some(value), ..values })
            &&& name == seq!['-', 't'] ==> given(Values { temperature: Some(value), ..values })
            &&& name == seq!['-', 'p'] ==> given(Values { topp: Some(value), ..values })
            &&& name == seq!['-', 's'] ==> given(Values { seed: Some(value), ..values })
        }),
        ({
            let known = name == seq!['-', 'i'] || name == seq!['-', 'n'] || name == seq!['-', 't']
                || name == seq!['-', 'p'] || name == seq!['-', 's'];
            &&& known ==> scanned(seq![name], values) is None
            &&& !known ==> scanned(seq![name] + rest, values) == scanned(rest, values)
        }),
{
    let more = seq![name, value] + rest;
    assert(more.skip(2) =~= rest);
    assert(more[0] == name && more[1] == value);
    assert((seq![name] + rest).skip(1) =~= rest);
    assert(seq!['-', 'i'][1] == 'i' && seq!['-', 'n'][1] == 'n' && seq!['-', 't'][1] == 't');
    assert(seq!['-', 'p'][1] == 'p' && seq!['-', 's'][1] == 's');
}

/// A command line without options asks for 256 tokens of an empty prompt and leaves the rest open.
/// So does one whose number of tokens is no number, and a seed that is none is 42.
pub proof fn law_defaults(args: Seq<Seq<char>>, values: Values, o: Options)
    requires
        chosen(args, values, o),
    ensures
        o.model@ == args[1],
        o.tokenizer@ == args[2],
        values.prompt is None ==> o.prompt@.len() == 0,
        values.prompt matches Some(s) ==> o.prompt@ == s,
        values.steps is None ==> o.steps == 256,
        values.steps matches Some(s) ==> (match whole_number(s, usize::MAX as nat) {
            Some(n) => o.steps == n,
            None => o.steps == 256,
        }),
        values.temperature is None <==> o.temperature is None,
        values.temperature matches Some(s) ==> o.temperature->0@ == s,
        values.topp is None <==> o.topp is None,
        values.topp matches Some(s) ==> o.topp->0@ == s,
        values.seed is None <==> o.seed is None,
        values.seed matches Some(s) ==> (match whole_number(s, u64::MAX as nat) {
            Some(n) => o.seed->0 == n,
            None => o.seed->0 == 42,
        }),
{
}

/// A digit at the end of a number multiplies it by ten and adds itself. One digit is its own
/// number, a plus sign before digits changes nothing, and what holds any other character is no
/// number.
pub proof fn law_numbers_are_decimal(s: Seq<char>, d: int, c: char, max: nat)
    requires
        0 <= d <= 9,
        c == seq!['0', '1', '2', '3', '4', '5', '6', '7', '8', '9'][d],
    ensures
        d <= max ==> whole_number(seq![c], max) == Some(d as nat),
        whole_number(s, max) matches Some(n) ==> whole_number(s.push(c), max) == if 10 * n + d
            <= max {
            Some((10 * n + d) as nat)
        } else {
            None
        },
        s.len() > 0 && s[0] != '+' ==> whole_number(seq!['+'] + s, max) == whole_number(s, max),
        whole_number(Seq::<char>::empty(), max) is None,
        whole_number(seq!['+'], max) is None,
        (exists|i: int| 1 <= i < s.len() && !('0' <= #[trigger] s[i] <= '9')) ==> whole_number(
            s,
            max,
        ) is None,
        s.len() > 0 && s[0] != '+' && !('0' <= s[0] <= '9') ==> whole_number(s, max) is None,
{
    reveal_with_fuel(digits_value, 2);
    let one = seq![c];
    assert(one.drop_last() =~= Seq::<char>::empty());
    assert(one[0] == c);
    assert('0' <= c <= '9' && c as int == '0' as int + d);
    let more = s.push(c);
    if whole_number(s, max) is Some {
        let digits = if s[0] == '+' {
            s.drop_first()
        } else {
            s
        };
        let longer = if more[0] == '+' {
            more.drop_first()
        } else {
            more
        };
        assert(longer =~= digits.push(c));
        assert(longer.drop_last() =~= digits);
        assert(all_digits(longer)) by {
            assert forall|i: int| 0 <= i < longer.len() implies '0' <= #[trigger] longer[i]
                <= '9' by {
                if i < digits.len() {
                    assert(longer[i] == digits[i]);
                }
            }
        }
    }
    assert((seq!['+'] + s).drop_first() =~= s);
    assert(seq!['+'].drop_first() =~= Seq::<char>::empty());
    if exists|i: int| 1 <= i < s.len() && !('0' <= #[trigger] s[i] <= '9') {
        let i = choose|i: int| 1 <= i < s.len() && !('0' <= #[trigger] s[i] <= '9');
        if s[0] == '+' {
            assert(s.drop_first()[i - 1] == s[i]);
        }
    }
}

} // verus!
