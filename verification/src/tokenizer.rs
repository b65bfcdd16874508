//! Text to tokens by byte-pair encoding, and tokens to text.
use vstd::prelude::*;
use vstd::string::*;
use vstd::utf8::{encode_scalar, encode_utf8};

use crate::bytes::{le_u32, text_of_bytes};
use crate::bytes::{read_f32, read_string, read_u32, ByteReader, LoadError};
use crate::float::{Float32, NEG_INFINITY_BITS};
use crate::sort::lemma_rearranged;
use crate::sort::{merge_sort, IndexOrder};
use crate::text::{
    lemma_encoding_is_injective, lemma_lex_connected, lemma_lex_irreflexive, lemma_lex_transitive,
    text_lt,
};
use crate::text::{side, split_first, Side};

verus! {

/// `String::push` appends the character it is given, and changes nothing else.
pub assume_specification[ String::push ](s: &mut String, ch: char)
    ensures
        final(s)@ == old(s)@.push(ch),
;

/// The token that marks the beginning of a text.
pub const BOS: u32 = 1;

/// The token that marks the end of a text.
pub const EOS: u32 = 2;

/// The tokens of single bytes begin after those of the unknown text and the two marks.
pub const BYTE_OFFSET: u32 = 3;

/// The value of a hexadecimal digit.
pub open spec fn hex_value(c: char) -> Option<int> {
    if '0' <= c <= '9' {
        Some(c as int - '0' as int)
    } else if 'a' <= c <= 'f' {
        Some(c as int - 'a' as int + 10)
    } else if 'A' <= c <= 'F' {
        Some(c as int - 'A' as int + 10)
    } else {
        None
    }
}

/// The number that two hexadecimal digits write.
pub open spec fn hex_byte(c: char, d: char) -> Option<int> {
    match (hex_value(c), hex_value(d)) {
        (Some(a), Some(b)) => Some(16 * a + b),
        _ => None,
    }
}

/// The byte that a piece of the form `<0xXX>` names.
pub open spec fn byte_token(s: Seq<char>) -> Option<int> {
    if s.len() == 6 && s[0] == '<' && s[1] == '0' && s[2] == 'x' && s[5] == '>' {
        hex_byte(s[3], s[4])
    } else {
        None
    }
}

fn hex_digit(c: char) -> (r: Option<u8>)
    ensures
        match r {
            Some(v) => hex_value(c) == Some(v as int) && v < 16,
            None => hex_value(c) is None,
        },
{
    if '0' <= c && c <= '9' {
        Some((c as u32 - '0' as u32) as u8)
    } else if 'a' <= c && c <= 'f' {
        Some((c as u32 - 'a' as u32 + 10) as u8)
    } else if 'A' <= c && c <= 'F' {
        Some((c as u32 - 'A' as u32 + 10) as u8)
    } else {
        None
    }
}

/// The byte that a piece of the form `<0xXX>` names.
pub fn parse_byte_token(s: &str) -> (r: Option<u8>)
    ensures
        match r {
            Some(b) => byte_token(s@) == Some(b as int),
            None => byte_token(s@) is None,
        },
{
    if !s.is_ascii() {
        return None;
    }
    let b = s.as_bytes();
    assert(b@ =~= Seq::new(s@.len(), |i: int| s@[i] as u8));
    if b.len() != 6 {
        return None;
    }
    assert(forall|i: int| 0 <= i < 6 ==> #[trigger] b@[i] as char == s@[i]);
    let framed: bool = b[0] as char == '<' && b[1] as char == '0' && b[2] as char == 'x'
        && b[5] as char == '>';
    if !framed {
        return None;
    }
    match (hex_digit(b[3] as char), hex_digit(b[4] as char)) {
        (Some(x), Some(y)) => Some(16 * x + y),
        _ => None,
    }
}

/// A character that shows or is white space: the visible part of ASCII, the space, the tab, the
/// line feed, the form feed and the carriage return.
pub open spec fn printable(c: char) -> bool {
    ||| 0x21 <= c as int <= 0x7E
    ||| c as int == 0x20
    ||| c as int == 0x09
    ||| c as int == 0x0A
    ||| c as int == 0x0C
    ||| c as int == 0x0D
}

/// A piece that can be shown: not empty, and not a single byte that is no printable character.
pub open spec fn safe_piece(s: Seq<char>) -> bool {
    &&& s.len() > 0
    &&& s.len() == 1 && (s[0] as int) < 0x80 ==> printable(s[0])
}

proof fn lemma_char_is_natural(c: char)
    ensures
        0 <= c as int,
{
}

/// Whether a piece can be shown.
pub fn is_safe_piece(piece: &str) -> (r: bool)
    ensures
        r == safe_piece(piece@),
{
    if piece.is_empty() {
        return false;
    }
    if !piece.is_ascii() {
        proof {
            if piece@.len() == 1 && (piece@[0] as int) < 0x80 {
                lemma_char_is_natural(piece@[0]);
                assert(is_ascii(piece));
            }
        }
        return true;
    }
    let b = piece.as_bytes();
    assert(b@ =~= Seq::new(piece@.len(), |i: int| piece@[i] as u8));
    if b.len() != 1 {
        return true;
    }
    let c: u8 = b[0];
    (0x21 <= c && c <= 0x7E) || c == 0x20 || c == 0x09 || c == 0x0A || c == 0x0C || c == 0x0D
}

/// The upper-case hexadecimal digit of a number below 16.
pub open spec fn upper_digit(n: int) -> char {
    if n < 10 {
        ('0' as int + n) as char
    } else {
        ('A' as int + n - 10) as char
    }
}

/// What a byte token is shown as: the character where the byte is ASCII, else the byte's name.
pub open spec fn byte_piece(b: int) -> Seq<char> {
    if b < 0x80 {
        seq![b as char]
    } else {
        seq!['<', '0', 'x', upper_digit(b / 16), upper_digit(b % 16), '>']
    }
}

fn digit_char(n: u8) -> (r: char)
    requires
        n < 16,
    ensures
        r == upper_digit(n as int),
{
    if n < 10 {
        (0x30 + n) as u8 as char
    } else {
        (0x41 + n - 10) as u8 as char
    }
}

fn make_byte_piece(b: u8) -> (r: String)
    ensures
        r@ == byte_piece(b as int),
{
    let mut r = String::new();
    if b < 0x80 {
        r.push(b as char);
    } else {
        r.push('<');
        r.push('0');
        r.push('x');
        r.push(digit_char(b / 16));
        r.push(digit_char(b % 16));
        r.push('>');
    }
    assert(r@ =~= byte_piece(b as int));
    r
}

fn make_byte_pieces() -> (r: Vec<String>)
    ensures
        r@.len() == 256,
        forall|b: int| 0 <= b < 256 ==> (#[trigger] r@[b])@ == byte_piece(b),
{
    let mut r: Vec<String> = Vec::new();
    let mut b: usize = 0;
    while b < 256
        invariant
            b <= 256,
            r@.len() == b,
            forall|k: int| 0 <= k < b ==> (#[trigger] r@[k])@ == byte_piece(k),
        decreases 256 - b,
    {
        r.push(make_byte_piece(b as u8));
        b += 1;
    }
    r
}

/// A byte's name, read back, is the byte.
pub proof fn law_byte_names_read_back(b: int)
    requires
        0x80 <= b < 0x100,
    ensures
        byte_token(byte_piece(b)) == Some(b),
{
}

/// The id of a text: the place of its last occurrence in the vocabulary.
pub open spec fn lookup(texts: Seq<Seq<char>>, s: Seq<char>) -> Option<u32>
    decreases texts.len(),
{
    if texts.len() == 0 {
        None
    } else if texts.last() == s {
        Some((texts.len() - 1) as u32)
    } else {
        lookup(texts.drop_last(), s)
    }
}

/// Text `i` stands before text `j` in the sorted vocabulary; of equal texts the first.
pub open spec fn text_before(texts: Seq<Seq<char>>, i: int, j: int) -> bool {
    ||| text_lt(texts[i], texts[j])
    ||| texts[i] == texts[j] && i < j
}

/// `order` holds the places of all texts, sorted.
pub open spec fn sorted_places(texts: Seq<Seq<char>>, order: Seq<usize>) -> bool {
    &&& order.len() == texts.len()
    &&& forall|k: int| 0 <= k < order.len() ==> #[trigger] order[k] < texts.len()
    &&& forall|i: usize| i < texts.len() ==> #[trigger] order.contains(i)
    &&& forall|j: int, k: int|
        0 <= j < k < order.len() ==> text_before(
            texts,
            #[trigger] order[j] as int,
            #[trigger] order[k] as int,
        )
}

/// A text of the vocabulary with its id.
pub struct TokenIndex {
    str_val: String,
    id: u32,
}

/// The vocabulary, with the score of each of its texts.
pub struct Tokenizer {
    vocab: Vec<String>,
    vocab_scores: Vec<Float32>,
    sorted_vocab: Vec<TokenIndex>,
    vocab_size: usize,
    max_token_length: usize,
    byte_pieces: Vec<String>,
}

/// The texts of strings.
pub open spec fn texts_of(strings: Seq<String>) -> Seq<Seq<char>> {
    strings.map_values(|s: String| s@)
}

impl Tokenizer {
    /// The vocabulary, in the order of the ids.
    pub closed spec fn texts(&self) -> Seq<Seq<char>> {
        texts_of(self.vocab@)
    }

    /// The scores, in the order of the ids.
    pub closed spec fn scores(&self) -> Seq<Float32> {
        self.vocab_scores@
    }

    /// The length that the vocabulary file gives for its longest text.
    pub closed spec fn longest(&self) -> usize {
        self.max_token_length
    }

    /// The texts with their ids, in the order in which they are searched.
    pub closed spec fn index(&self) -> Seq<(Seq<char>, u32)> {
        self.sorted_vocab@.map_values(|t: TokenIndex| (t.str_val@, t.id))
    }

    /// What the byte tokens are shown as, in the order of the bytes.
    pub closed spec fn pieces(&self) -> Seq<Seq<char>> {
        texts_of(self.byte_pieces@)
    }

    spec fn indexed_by(&self, order: Seq<usize>) -> bool {
        &&& sorted_places(self.texts(), order)
        &&& self.sorted_vocab@.len() == order.len()
        &&& forall|k: int|
            0 <= k < order.len() ==> {
                &&& (#[trigger] self.sorted_vocab@[k]).str_val@ == self.texts()[order[k] as int]
                &&& self.sorted_vocab@[k].id == order[k] as u32
            }
    }

    /// Every text has a score, and the sorted vocabulary holds every text with its id.
    pub closed spec fn wf(&self) -> bool {
        &&& self.vocab@.len() == self.vocab_size
        &&& self.vocab_scores@.len() == self.vocab_size
        &&& self.byte_pieces@.len() == 256
        &&& forall|b: int| 0 <= b < 256 ==> (#[trigger] self.byte_pieces@[b])@ == byte_piece(b)
        &&& exists|order: Seq<usize>| self.indexed_by(order)
    }
}

/// The vocabulary is searched in the order of the texts' bytes, the first of equals first, and the
/// index holds every id once, with its text, where the ids of all texts fit. Every text has a
/// score, and every byte a piece.
pub proof fn law_index_is_sorted(t: Tokenizer)
    requires
        t.wf(),
        t.texts().len() <= u32::MAX + 1,
    ensures
        t.scores().len() == t.texts().len(),
        t.index().len() == t.texts().len(),
        forall|k: int|
            0 <= k < t.index().len() ==> {
                &&& (#[trigger] t.index()[k]).1 < t.texts().len()
                &&& t.index()[k].0 == t.texts()[t.index()[k].1 as int]
            },
        forall|j: int, k: int|
            0 <= j < k < t.index().len() ==> {
                let a = #[trigger] t.index()[j];
                let b = #[trigger] t.index()[k];
                &&& a.1 != b.1
                &&& text_lt(a.0, b.0) || a.0 == b.0 && a.1 < b.1
            },
        forall|id: u32|
            id < t.texts().len() ==> t.index().contains((#[trigger] t.texts()[id as int], id)),
        t.pieces().len() == 256,
        forall|b: int| 0 <= b < 256 ==> #[trigger] t.pieces()[b] == byte_piece(b),
{
    let order = choose|order: Seq<usize>| t.indexed_by(order);
    let texts = t.texts();
    assert forall|k: int| 0 <= k < t.index().len() implies {
        &&& (#[trigger] t.index()[k]).1 == order[k]
        &&& t.index()[k].0 == texts[order[k] as int]
    } by {
        assert(t.sorted_vocab@[k].id == order[k] as u32);
    }
    assert forall|j: int, k: int| 0 <= j < k < t.index().len() implies {
        let a = #[trigger] t.index()[j];
        let b = #[trigger] t.index()[k];
        &&& a.1 != b.1
        &&& text_lt(a.0, b.0) || a.0 == b.0 && a.1 < b.1
    } by {
        assert(text_before(texts, order[j] as int, order[k] as int));
        lemma_lex_irreflexive(encode_utf8(texts[order[j] as int]));
    }
    assert forall|id: u32| id < texts.len() implies t.index().contains(
        (#[trigger] texts[id as int], id),
    ) by {
        assert(order.contains(id as usize));
        let k = choose|k: int| 0 <= k < order.len() && order[k] == id as usize;
        assert(t.index()[k] == (texts[id as int], id));
    }
}

struct ByText<'a> {
    vocab: &'a Vec<String>,
}

impl<'a> IndexOrder for ByText<'a> {
    closed spec fn bound(&self) -> int {
        self.vocab@.len() as int
    }

    closed spec fn lt(&self, i: int, j: int) -> bool {
        text_before(texts_of(self.vocab@), i, j)
    }

    proof fn irreflexive(&self, i: int) {
        lemma_lex_irreflexive(encode_utf8(texts_of(self.vocab@)[i]));
    }

    proof fn connected(&self, i: int, j: int) {
        let s = texts_of(self.vocab@)[i];
        let t = texts_of(self.vocab@)[j];
        if encode_utf8(s) == encode_utf8(t) {
            lemma_encoding_is_injective(s, t);
        } else {
            lemma_lex_connected(encode_utf8(s), encode_utf8(t));
        }
    }

    proof fn transitive(&self, i: int, j: int, k: int) {
        let s = texts_of(self.vocab@)[i];
        let t = texts_of(self.vocab@)[j];
        let u = texts_of(self.vocab@)[k];
        if text_lt(s, t) && text_lt(t, u) {
            lemma_lex_transitive(encode_utf8(s), encode_utf8(t), encode_utf8(u));
        }
    }

    fn before(&self, i: usize, j: usize) -> bool {
        proof {
            let s = texts_of(self.vocab@)[i as int];
            let t = texts_of(self.vocab@)[j as int];
            lemma_lex_irreflexive(encode_utf8(s));
            if text_lt(s, t) && text_lt(t, s) {
                lemma_lex_transitive(encode_utf8(s), encode_utf8(t), encode_utf8(s));
            }
        }
        match side(self.vocab[i].as_str(), self.vocab[j].as_str()) {
            Side::Before => true,
            Side::Equal => i < j,
            Side::After => false,
        }
    }
}

fn index_vocab(vocab: &Vec<String>) -> (r: (Vec<TokenIndex>, Ghost<Seq<usize>>))
    ensures
        sorted_places(texts_of(vocab@), r.1@),
        r.0@.len() == r.1@.len(),
        forall|k: int|
            0 <= k < r.1@.len() ==> {
                &&& (#[trigger] r.0@[k]).str_val@ == texts_of(vocab@)[r.1@[k] as int]
                &&& r.0@[k].id == r.1@[k] as u32
            },
{
    let n: usize = vocab.len();
    let mut places: Vec<usize> = Vec::new();
    let mut i: usize = 0;
    while i < n
        invariant
            i <= n,
            places@.len() == i,
            forall|k: int| 0 <= k < i ==> #[trigger] places@[k] == k,
        decreases n - i,
    {
        places.push(i);
        i += 1;
    }
    let by_text = ByText { vocab };
    let order = merge_sort(&by_text, places.as_slice());
    let ghost texts = texts_of(vocab@);
    proof {
        lemma_rearranged(by_text, places@, order@);
        assert forall|k: int| 0 <= k < order@.len() implies #[trigger] order@[k] < texts.len() by {
            assert(order@.contains(order@[k]));
            assert(places@.contains(order@[k]));
        }
        assert forall|i: usize| i < texts.len() implies #[trigger] order@.contains(i) by {
            assert(places@[i as int] == i);
            assert(places@.contains(i));
        }
        assert forall|j: int, k: int| 0 <= j < k < order@.len() implies text_before(
            texts,
            #[trigger] order@[j] as int,
            #[trigger] order@[k] as int,
        ) by {
            assert(by_text.lt(order@[j] as int, order@[k] as int));
        }
    }
    let mut sorted: Vec<TokenIndex> = Vec::new();
    let mut k: usize = 0;
    while k < order.len()
        invariant
            k <= order@.len(),
            sorted@.len() == k,
            sorted_places(texts_of(vocab@), order@),
            forall|m: int|
                0 <= m < k ==> {
                    &&& (#[trigger] sorted@[m]).str_val@ == texts_of(vocab@)[order@[m] as int]
                    &&& sorted@[m].id == order@[m] as u32
                },
        decreases order@.len() - k,
    {
        let place: usize = order[k];
        sorted.push(TokenIndex { str_val: vocab[place].clone(), id: place as u32 });
        k += 1;
    }
    (sorted, Ghost(order@))
}

/// A text of the vocabulary with its score.
pub struct Entry {
    pub score: Float32,
    pub text: Seq<char>,
}

/// The first `n` entries that `b` holds, each a score, the length of a text and the text's bytes;
/// none where `b` ends before they do.
pub open spec fn entries(b: Seq<u8>, n: nat) -> Option<Seq<Entry>>
    decreases n,
{
    if n == 0 {
        Some(seq![])
    } else if b.len() < 8 {
        None
    } else {
        let len = le_u32(b.skip(4));
        if b.len() < 8 + len {
            None
        } else {
            let first = Entry {
                score: Float32 { bits: le_u32(b) as u32 },
                text: text_of_bytes(b.subrange(8, 8 + len)),
            };
            match entries(b.skip(8 + len), (n - 1) as nat) {
                Some(rest) => Some(seq![first] + rest),
                None => None,
            }
        }
    }
}

impl Tokenizer {
    /// Reads a vocabulary of `vocab_size` texts: the length of the longest, then the entries.
    pub fn from_bytes(bytes: &[u8], vocab_size: usize) -> (res: Result<Tokenizer, LoadError>)
        ensures
            match res {
                Ok(t) => {
                    &&& t.wf()
                    &&& 4 <= bytes@.len()
                    &&& t.longest() == le_u32(bytes@)
                    &&& entries(bytes@.skip(4), vocab_size as nat) matches Some(es)
                    &&& t.texts() == es.map_values(|e: Entry| e.text)
                    &&& t.scores() == es.map_values(|e: Entry| e.score)
                },
                Err(LoadError::UnexpectedEof) => {
                    ||| bytes@.len() < 4
                    ||| entries(bytes@.skip(4), vocab_size as nat) is None
                },
            },
    {
        let mut reader = ByteReader::new(bytes);
        let max_token_length: usize = read_u32(&mut reader)? as usize;
        let mut vocab: Vec<String> = Vec::new();
        let mut vocab_scores: Vec<Float32> = Vec::new();
        let ghost whole = entries(bytes@.skip(4), vocab_size as nat);
        let ghost mut done: Seq<Entry> = seq![];
        let mut i: usize = 0;
        proof {
            if whole is Some {
                assert(done + whole->0 =~= whole->0);
            }
        }
        while i < vocab_size
            invariant
                4 <= bytes@.len(),
                i <= vocab_size,
                reader.wf(),
                done.len() == i,
                vocab@.len() == i,
                forall|k: int| 0 <= k < i ==> (#[trigger] vocab@[k])@ == done[k].text,
                vocab_scores@ =~= done.map_values(|e: Entry| e.score),
                whole == entries(bytes@.skip(4), vocab_size as nat),
                whole == match entries(reader.rest(), (vocab_size - i) as nat) {
                    Some(es) => Some(done + es),
                    None => None,
                },
            decreases vocab_size - i,
        {
            let ghost b = reader.rest();
            let score = read_f32(&mut reader)?;
            let len: usize = read_u32(&mut reader)? as usize;
            assert(reader.rest() =~= b.skip(8));
            assert(len == le_u32(b.skip(4)));
            let text = read_string(&mut reader, len)?;
            proof {
                let first = Entry { score, text: text@ };
                assert(b.skip(8).take(len as int) =~= b.subrange(8, 8 + len));
                assert(reader.rest() =~= b.skip(8 + len));
                let tail = entries(reader.rest(), (vocab_size - i - 1) as nat);
                if tail is Some {
                    assert(done + (seq![first] + tail->0) =~= done.push(first) + tail->0);
                }
                done = done.push(first);
            }
            vocab_scores.push(score);
            vocab.push(text);
            i += 1;
        }
        assert(entries(reader.rest(), 0) == Some(Seq::<Entry>::empty()));
        assert(done + Seq::<Entry>::empty() =~= done);
        assert(texts_of(vocab@) =~= done.map_values(|e: Entry| e.text));
        let byte_pieces = make_byte_pieces();
        let (sorted_vocab, Ghost(order)) = index_vocab(&vocab);
        let t = Tokenizer {
            vocab,
            vocab_scores,
            sorted_vocab,
            vocab_size,
            max_token_length,
            byte_pieces,
        };
        assert(t.indexed_by(order));
        Ok(t)
    }
}

proof fn lemma_lookup_some(texts: Seq<Seq<char>>, s: Seq<char>, i: int)
    requires
        0 <= i < texts.len(),
        texts[i] == s,
        forall|j: int| i < j < texts.len() ==> #[trigger] texts[j] != s,
    ensures
        lookup(texts, s) == Some(i as u32),
    decreases texts.len(),
{
    if i < texts.len() - 1 {
        assert(texts.last() == texts[texts.len() - 1]);
        lemma_lookup_some(texts.drop_last(), s, i);
    }
}

proof fn lemma_lookup_none(texts: Seq<Seq<char>>, s: Seq<char>)
    requires
        forall|j: int| 0 <= j < texts.len() ==> #[trigger] texts[j] != s,
    ensures
        lookup(texts, s) is None,
    decreases texts.len(),
{
    if texts.len() > 0 {
        assert(texts.last() == texts[texts.len() - 1]);
        lemma_lookup_none(texts.drop_last(), s);
    }
}

/// An id that is found is the id of a text of the vocabulary.
pub proof fn lemma_lookup_in_range(texts: Seq<Seq<char>>, s: Seq<char>)
    requires
        texts.len() <= usize::MAX,
    ensures
        lookup(texts, s) matches Some(id) ==> id < texts.len(),
    decreases texts.len(),
{
    if texts.len() > 0 {
        let n = (texts.len() - 1) as usize;
        assert((n as u32) as usize <= n) by (bit_vector);
        lemma_lookup_in_range(texts.drop_last(), s);
    }
}

impl Tokenizer {
    /// The id of a text of the vocabulary: that of its last occurrence.
    pub fn str_lookup(&self, s: &str) -> (r: Option<u32>)
        requires
            self.wf(),
        ensures
            r == lookup(self.texts(), s@),
    {
        let ghost order = choose|order: Seq<usize>| self.indexed_by(order);
        let ghost texts = self.texts();
        let n: usize = self.sorted_vocab.len();
        if n == 0 {
            proof {
                assert forall|j: int| 0 <= j < texts.len() implies #[trigger] texts[j] != s@ by {
                    assert(order.contains(j as usize));
                }
                lemma_lookup_none(texts, s@);
            }
            return None;
        }
        let mut base: usize = 0;
        let mut size: usize = n;
        while size > 1
            invariant
                self.indexed_by(order),
                texts == self.texts(),
                n == order.len(),
                1 <= size,
                base + size <= n,
                forall|k: int| base + size <= k < n ==> text_lt(
                    s@,
                    #[trigger] texts[order[k] as int],
                ),
                base == 0 || s@ == texts[order[base as int] as int] || text_lt(
                    texts[order[base as int] as int],
                    s@,
                ),
            decreases size,
        {
            let half: usize = size / 2;
            let mid: usize = base + half;
            match side(self.sorted_vocab[mid].str_val.as_str(), s) {
                Side::After => {
                    proof {
                        assert forall|k: int| base + (size - half) <= k < n implies text_lt(
                            s@,
                            #[trigger] texts[order[k] as int],
                        ) by {
                            if k < base + size && k > mid {
                                let m = texts[order[mid as int] as int];
                                let t = texts[order[k] as int];
                                assert(text_before(
                                    texts,
                                    order[mid as int] as int,
                                    order[k] as int,
                                ));
                                if text_lt(m, t) {
                                    lemma_lex_transitive(
                                        encode_utf8(s@),
                                        encode_utf8(m),
                                        encode_utf8(t),
                                    );
                                }
                            }
                        }
                    }
                },
                _ => {
                    base = mid;
                },
            }
            size = size - half;
        }
        let ghost at = texts[order[base as int] as int];
        proof {
            lemma_lex_irreflexive(encode_utf8(s@));
        }
        match side(self.sorted_vocab[base].str_val.as_str(), s) {
            Side::Equal => {
                let id: u32 = self.sorted_vocab[base].id;
                proof {
                    let i = order[base as int] as int;
                    assert forall|j: int| i < j < texts.len() implies #[trigger] texts[j] != s@ by {
                        assert(order.contains(j as usize));
                        let k = choose|k: int| 0 <= k < order.len() && order[k] == j as usize;
                        if k < base {
                            assert(text_before(texts, order[k] as int, i));
                        }
                    }
                    lemma_lookup_some(texts, s@, i);
                }
                Some(id)
            },
            _ => {
                proof {
                    assert forall|j: int| 0 <= j < texts.len() implies #[trigger] texts[j]
                        != s@ by {
                        assert(order.contains(j as usize));
                        let k = choose|k: int| 0 <= k < order.len() && order[k] == j as usize;
                        assert(texts[order[k] as int] == texts[j]);
                        if k < base {
                            assert(text_before(
                                texts,
                                order[k] as int,
                                order[base as int] as int,
                            ));
                            if text_lt(texts[j], at) {
                                lemma_lex_transitive(
                                    encode_utf8(texts[j]),
                                    encode_utf8(at),
                                    encode_utf8(s@),
                                );
                            }
                        }
                    }
                    lemma_lookup_none(texts, s@);
                }
                None
            },
        }
    }
}

/// The tokens of a character: its own, or those of the bytes of its encoding.
pub open spec fn char_tokens(texts: Seq<Seq<char>>, c: char) -> Seq<u32> {
    match lookup(texts, seq![c]) {
        Some(id) => seq![id],
        None => encode_scalar(c as u32).map_values(|b: u8| (b + BYTE_OFFSET) as u32),
    }
}

/// The tokens of a text's characters, one after the other.
pub open spec fn spelled(texts: Seq<Seq<char>>, text: Seq<char>) -> Seq<u32>
    decreases text.len(),
{
    if text.len() == 0 {
        seq![]
    } else {
        char_tokens(texts, text[0]) + spelled(texts, text.drop_first())
    }
}

/// The tokens before any are merged: the mark of the beginning where it is asked for, a space
/// before a text that is not empty, where the vocabulary has one, and the text's characters.
pub open spec fn start_tokens(texts: Seq<Seq<char>>, text: Seq<char>, bos: bool) -> Seq<u32> {
    let mark = if bos {
        seq![BOS]
    } else {
        seq![]
    };
    let space = match lookup(texts, seq![' ']) {
        Some(id) => if text.len() > 0 {
            seq![id]
        } else {
            seq![]
        },
        None => seq![],
    };
    mark + space + spelled(texts, text)
}

/// The token that the tokens at `i` and `i + 1` merge into.
pub open spec fn merged_id(texts: Seq<Seq<char>>, tokens: Seq<u32>, i: int) -> Option<u32> {
    lookup(texts, texts[tokens[i] as int] + texts[tokens[i + 1] as int])
}

/// The score of the token that the tokens at `i` and `i + 1` merge into.
pub open spec fn merged_score(
    texts: Seq<Seq<char>>,
    scores: Seq<Float32>,
    tokens: Seq<u32>,
    i: int,
) -> Float32 {
    scores[merged_id(texts, tokens, i)->0 as int]
}

/// The tokens at `i` and `i + 1` can merge: the vocabulary has their text, with a score above
/// negative infinity.
pub open spec fn mergeable(
    texts: Seq<Seq<char>>,
    scores: Seq<Float32>,
    tokens: Seq<u32>,
    i: int,
) -> bool {
    &&& 0 <= i < tokens.len() - 1
    &&& merged_id(texts, tokens, i) is Some
    &&& (Float32 { bits: NEG_INFINITY_BITS }).lt(merged_score(texts, scores, tokens, i))
}

/// Of the pairs that can merge, the one at `i` has the highest score, and is the first that has.
pub open spec fn best_merge(
    texts: Seq<Seq<char>>,
    scores: Seq<Float32>,
    tokens: Seq<u32>,
    i: int,
) -> bool {
    &&& mergeable(texts, scores, tokens, i)
    &&& forall|j: int| #[trigger]
        mergeable(texts, scores, tokens, j) ==> {
            let a = merged_score(texts, scores, tokens, i);
            let b = merged_score(texts, scores, tokens, j);
            if j < i {
                b.lt(a)
            } else {
                b.le(a)
            }
        }
}

/// The tokens after the pair at `i` has merged.
pub open spec fn merge_at(texts: Seq<Seq<char>>, tokens: Seq<u32>, i: int) -> Seq<u32> {
    tokens.update(i, merged_id(texts, tokens, i)->0).remove(i + 1)
}

/// The tokens after the best pair has merged again and again, until no pair can.
pub open spec fn merge_all(
    texts: Seq<Seq<char>>,
    scores: Seq<Float32>,
    tokens: Seq<u32>,
) -> Seq<u32>
    decreases tokens.len(),
{
    if exists|i: int| best_merge(texts, scores, tokens, i) {
        let i = choose|i: int| best_merge(texts, scores, tokens, i);
        merge_all(texts, scores, merge_at(texts, tokens, i))
    } else {
        tokens
    }
}

/// The tokens of a text.
pub open spec fn encoded(
    texts: Seq<Seq<char>>,
    scores: Seq<Float32>,
    text: Seq<char>,
    bos: bool,
    eos: bool,
) -> Seq<u32> {
    let body = merge_all(texts, scores, start_tokens(texts, text, bos));
    if eos {
        body.push(EOS)
    } else {
        body
    }
}

/// The vocabulary has the texts that merging looks at: those of all tokens, where there is a pair.
pub open spec fn encodable(texts: Seq<Seq<char>>, text: Seq<char>, bos: bool) -> bool {
    let tokens = start_tokens(texts, text, bos);
    tokens.len() >= 2 ==> in_range(texts, tokens)
}

/// Every token has a text.
pub open spec fn in_range(texts: Seq<Seq<char>>, tokens: Seq<u32>) -> bool {
    forall|i: int| 0 <= i < tokens.len() ==> #[trigger] tokens[i] < texts.len()
}

/// There is only one best pair.
proof fn lemma_best_merge_is_unique(
    texts: Seq<Seq<char>>,
    scores: Seq<Float32>,
    tokens: Seq<u32>,
    i: int,
    j: int,
)
    requires
        best_merge(texts, scores, tokens, i),
        best_merge(texts, scores, tokens, j),
    ensures
        i == j,
{
    assert(mergeable(texts, scores, tokens, i));
    assert(mergeable(texts, scores, tokens, j));
}

impl Tokenizer {
    /// The tokens of a text before any are merged.
    fn start(&self, text: &str, bos: bool) -> (r: Vec<u32>)
        requires
            self.wf(),
        ensures
            r@ == start_tokens(self.texts(), text@, bos),
    {
        let ghost texts = self.texts();
        let mut tokens: Vec<u32> = Vec::new();
        if bos {
            tokens.push(BOS);
        }
        if !text.is_empty() {
            proof {
                reveal_strlit(" ");
                assert(" "@ =~= seq![' ']);
            }
            if let Some(id) = self.str_lookup(" ") {
                tokens.push(id);
            }
        }
        let ghost whole = start_tokens(texts, text@, bos);
        let mut rest: &str = text;
        assert(tokens@ + spelled(texts, rest@) =~= whole);
        while !rest.is_empty()
            invariant
                self.wf(),
                texts == self.texts(),
                tokens@ + spelled(texts, rest@) == whole,
            decreases rest@.len(),
        {
            let (first, others) = split_first(rest);
            let ghost before = tokens@;
            let ghost c = rest@[0];
            match self.str_lookup(first) {
                Some(id) => {
                    tokens.push(id);
                    assert(tokens@ =~= before + char_tokens(texts, c));
                },
                None => {
                    let bytes = first.as_bytes();
                    let mut i: usize = 0;
                    proof {
                        assert(seq![c].drop_first() =~= Seq::<char>::empty());
                        assert(encode_utf8(seq![c]) =~= encode_scalar(c as u32) + encode_utf8(
                            Seq::<char>::empty(),
                        ));
                        assert(bytes@ =~= encode_scalar(c as u32));
                    }
                    while i < bytes.len()
                        invariant
                            i <= bytes@.len(),
                            tokens@ =~= before + bytes@.take(i as int).map_values(
                                |b: u8| (b + BYTE_OFFSET) as u32,
                            ),
                        decreases bytes@.len() - i,
                    {
                        tokens.push(bytes[i] as u32 + BYTE_OFFSET);
                        i += 1;
                    }
                    assert(bytes@.take(i as int) =~= bytes@);
                    assert(tokens@ =~= before + char_tokens(texts, c));
                },
            }
            assert(tokens@ + spelled(texts, others@) =~= before + spelled(texts, rest@));
            rest = others;
        }
        assert(tokens@ =~= whole);
        tokens
    }

    /// Whether the vocabulary is large enough for the text's tokens to be merged.
    pub fn can_encode(&self, text: &str, bos: bool) -> (r: bool)
        requires
            self.wf(),
        ensures
            r == encodable(self.texts(), text@, bos),
    {
        let tokens = self.start(text, bos);
        if tokens.len() < 2 {
            return true;
        }
        let mut i: usize = 0;
        while i < tokens.len()
            invariant
                self.wf(),
                i <= tokens@.len(),
                2 <= tokens@.len(),
                tokens@ == start_tokens(self.texts(), text@, bos),
                forall|k: int| 0 <= k < i ==> #[trigger] tokens@[k] < self.texts().len(),
            decreases tokens@.len() - i,
        {
            if tokens[i] as usize >= self.vocab.len() {
                assert(tokens@[i as int] >= self.texts().len());
                return false;
            }
            i += 1;
        }
        true
    }

    /// The pair of tokens to merge next, and the token it becomes.
    fn find_merge(&self, tokens: &Vec<u32>) -> (r: Option<(usize, u32)>)
        requires
            self.wf(),
            tokens@.len() >= 2 ==> in_range(self.texts(), tokens@),
        ensures
            match r {
                Some((i, id)) => {
                    &&& best_merge(self.texts(), self.scores(), tokens@, i as int)
                    &&& merged_id(self.texts(), tokens@, i as int) == Some(id)
                },
                None => forall|i: int| !mergeable(self.texts(), self.scores(), tokens@, i),
            },
    {
        let ghost texts = self.texts();
        let ghost scores = self.scores();
        let mut best_score = Float32 { bits: NEG_INFINITY_BITS };
        let mut best: Option<(usize, u32)> = None;
        let n: usize = tokens.len();
        let mut i: usize = 0;
        while i + 1 < n
            invariant
                n == tokens@.len(),
                self.wf(),
                texts == self.texts(),
                scores == self.scores(),
                tokens@.len() >= 2 ==> in_range(texts, tokens@),
                i < tokens@.len() || i == 0,
                match best {
                    Some((b, id)) => {
                        &&& b < i
                        &&& mergeable(texts, scores, tokens@, b as int)
                        &&& merged_id(texts, tokens@, b as int) == Some(id)
                        &&& best_score == merged_score(texts, scores, tokens@, b as int)
                        &&& forall|j: int| #[trigger]
                            mergeable(texts, scores, tokens@, j) && j < i ==> {
                                let s = merged_score(texts, scores, tokens@, j);
                                if j < b {
                                    s.lt(best_score)
                                } else {
                                    s.le(best_score)
                                }
                            }
                    },
                    None => {
                        &&& best_score.bits == NEG_INFINITY_BITS
                        &&& forall|j: int| j < i ==> !#[trigger] mergeable(
                            texts,
                            scores,
                            tokens@,
                            j,
                        )
                    },
                },
            decreases tokens@.len() - i,
        {
            let mut merged = self.vocab[tokens[i] as usize].clone();
            merged.append(self.vocab[tokens[i + 1] as usize].as_str());
            assert(merged@ == texts[tokens@[i as int] as int] + texts[tokens@[i + 1] as int]);
            if let Some(id) = self.str_lookup(merged.as_str()) {
                proof {
                    lemma_lookup_in_range(texts, merged@);
                }
                let score = self.vocab_scores[id as usize];
                assert(score == merged_score(texts, scores, tokens@, i as int));
                if best_score.less(score) {
                    assert(mergeable(texts, scores, tokens@, i as int));
                    best_score = score;
                    best = Some((i, id));
                }
            }
            i += 1;
        }
        best
    }

    /// The tokens of a text, between the marks that are asked for.
    ///
    /// The text's characters, after a space, become tokens one by one; then the pair of
    /// neighbours with the highest score merges, until no pair can.
    pub fn encode(&self, text: &str, bos: bool, eos: bool) -> (r: Vec<u32>)
        requires
            self.wf(),
            encodable(self.texts(), text@, bos),
        ensures
            r@ == encoded(self.texts(), self.scores(), text@, bos, eos),
    {
        let ghost texts = self.texts();
        let ghost scores = self.scores();
        let mut tokens = self.start(text, bos);
        let ghost body = merge_all(texts, scores, tokens@);
        loop
            invariant
                self.wf(),
                texts == self.texts(),
                scores == self.scores(),
                tokens@.len() >= 2 ==> in_range(texts, tokens@),
                merge_all(texts, scores, tokens@) == body,
            ensures
                tokens@ == body,
            decreases tokens@.len(),
        {
            match self.find_merge(&tokens) {
                None => {
                    break;
                },
                Some((i, id)) => {
                    let ghost before = tokens@;
                    proof {
                        let k = choose|k: int| best_merge(texts, scores, before, k);
                        lemma_best_merge_is_unique(texts, scores, before, i as int, k);
                        lemma_lookup_in_range(
                            texts,
                            texts[before[i as int] as int] + texts[before[i + 1] as int],
                        );
                    }
                    assert(i + 1 < tokens.len());
                    tokens[i] = id;
                    tokens.remove(i + 1);
                    assert(tokens@ =~= merge_at(texts, before, i as int));
                },
            }
        }
        if eos {
            tokens.push(EOS);
        }
        tokens
    }
}

/// The piece of a token: its text, without the space in front where it begins a text.
pub open spec fn piece(texts: Seq<Seq<char>>, prev: u32, token: u32) -> Seq<char> {
    let text = texts[token as int];
    if prev == BOS && text.len() > 0 && text[0] == ' ' {
        text.drop_first()
    } else {
        text
    }
}

/// What a token is shown as: its piece, or the byte that the piece names.
pub open spec fn decoded(texts: Seq<Seq<char>>, prev: u32, token: u32) -> Seq<char> {
    match byte_token(piece(texts, prev, token)) {
        Some(b) => byte_piece(b),
        None => piece(texts, prev, token),
    }
}

/// The text of a piece where it can be shown, and nothing where it cannot.
pub open spec fn shown(s: Seq<char>) -> Seq<char> {
    if safe_piece(s) {
        s
    } else {
        seq![]
    }
}

/// The text of tokens: what is shown of each, the first one taken to begin a text.
pub open spec fn decoded_text(texts: Seq<Seq<char>>, tokens: Seq<u32>) -> Seq<char>
    decreases tokens.len(),
{
    if tokens.len() == 0 {
        seq![]
    } else {
        let last = tokens.len() - 1;
        let prev = if last == 0 {
            BOS
        } else {
            tokens[last - 1]
        };
        decoded_text(texts, tokens.drop_last()) + shown(decoded(texts, prev, tokens[last]))
    }
}

impl Tokenizer {
    /// What a token is shown as after the token `prev_token`.
    pub fn decode(&self, prev_token: u32, token: u32) -> (r: &str)
        requires
            self.wf(),
            token < self.texts().len(),
        ensures
            r@ == decoded(self.texts(), prev_token, token),
    {
        let mut piece: &str = self.vocab[token as usize].as_str();
        assert(piece@ == self.texts()[token as int]);
        if prev_token == BOS && !piece.is_empty() && piece.get_char(0) == ' ' {
            piece = split_first(piece).1;
        }
        if let Some(byte) = parse_byte_token(piece) {
            return self.byte_pieces[byte as usize].as_str();
        }
        piece
    }

    /// The text of tokens.
    pub fn decode_string(&self, tokens: &[u32]) -> (r: String)
        requires
            self.wf(),
            in_range(self.texts(), tokens@),
        ensures
            r@ == decoded_text(self.texts(), tokens@),
    {
        let mut out = String::new();
        let mut i: usize = 0;
        assert(tokens@.take(0) =~= seq![]);
        while i < tokens.len()
            invariant
                self.wf(),
                in_range(self.texts(), tokens@),
                i <= tokens@.len(),
                out@ == decoded_text(self.texts(), tokens@.take(i as int)),
            decreases tokens@.len() - i,
        {
            let prev: u32 = if i == 0 {
                BOS
            } else {
                tokens[i - 1]
            };
            let piece = self.decode(prev, tokens[i]);
            if is_safe_piece(piece) {
                out.append(piece);
            }
            assert(tokens@.take(i + 1).drop_last() =~= tokens@.take(i as int));
            i += 1;
        }
        assert(tokens@.take(i as int) =~= tokens@);
        out
    }

    /// The number of texts in the vocabulary.
    pub fn vocab_size(&self) -> (r: usize)
        requires
            self.wf(),
        ensures
            r == self.texts().len(),
    {
        self.vocab_size
    }

    /// The text of a token.
    pub fn token_to_str(&self, id: u32) -> (r: &str)
        requires
            self.wf(),
            id < self.texts().len(),
        ensures
            r@ == self.texts()[id as int],
    {
        self.vocab[id as usize].as_str()
    }

    /// The token that marks the beginning of a text.
    pub fn bos_token(&self) -> (r: u32)
        ensures
            r == BOS,
    {
        BOS
    }

    /// The token that marks the end of a text.
    pub fn eos_token(&self) -> (r: u32)
        ensures
            r == EOS,
    {
        EOS
    }
}

} // verus!
