//! What a draw comes to, in real numbers.
use vstd::prelude::*;

use crate::float::{Float32, ONE_BITS, ZERO_BITS};
use crate::generate::sampled;
use crate::math::softmax_steps;
use crate::meaning::{
    law_bits_compare_as_numbers, law_softmax, law_zero_and_one, lemma_operands, number, real_sum,
    true_functions, truthful, Functions,
};
use crate::sampler::{
    added_at, chances, coin_expr, cutoff_expr, draw_steps, drawn, drawn_at, is_argmax,
    law_drawn_token_exists, likelier, likeliest, no_nan, nucleus, nucleus_drawn, ranked, reached,
    reaches, running, scrambled, xorshift, Sampler,
};
use crate::scalar::{con, evaluates, gives, minus, over, times, val, BinaryOp, Constant, Term};

verus! {

/// Single-precision bits, read as the numbers that they stand for.
pub open spec fn reading() -> spec_fn(Float32) -> real {
    |x: Float32| number(x)
}

/// Every answer of the unit is a number.
pub open spec fn numeric<F: Fn(Term<Float32>) -> Float32>(f: F) -> bool {
    forall|t: Term<Float32>, r: Float32| #[trigger] gives(f, t, r) ==> !r.nan()
}

/// The sum of the first `n` numbers.
pub open spec fn first_sum(ps: Seq<Float32>, n: int) -> real {
    real_sum(Seq::new(n as nat, |j: int| number(ps[j])))
}

proof fn lemma_first_sum(ps: Seq<Float32>, n: int)
    requires
        0 <= n,
    ensures
        first_sum(ps, 0) == 0 as real,
        first_sum(ps, n + 1) == first_sum(ps, n) + number(ps[n]),
{
    let more = Seq::new((n + 1) as nat, |j: int| number(ps[j]));
    assert(more.drop_last() =~= Seq::new(n as nat, |j: int| number(ps[j])));
    assert(more.last() == number(ps[n]));
}

proof fn lemma_first_sum_same(ps: Seq<Float32>, qs: Seq<Float32>, n: int)
    requires
        0 <= n,
        forall|j: int| 0 <= j < n ==> #[trigger] ps[j] == qs[j],
    ensures
        first_sum(ps, n) == first_sum(qs, n),
{
    assert(Seq::new(n as nat, |j: int| number(ps[j])) =~= Seq::new(
        n as nat,
        |j: int| number(qs[j]),
    ));
}

proof fn lemma_running_sum<F: Fn(Term<Float32>) -> Float32>(
    f: F,
    g: Functions,
    ps: Seq<Float32>,
    sums: Seq<Float32>,
    i: int,
)
    requires
        truthful(f, reading(), g),
        numeric(f),
        running(f, ps, sums),
        0 <= i < ps.len(),
    ensures
        number(sums[i]) == first_sum(ps, i + 1),
        !sums[i].nan(),
    decreases i,
{
    assert(added_at(f, ps, sums, i));
    lemma_first_sum(ps, i);
    if i == 0 {
        let (a, b) = lemma_operands(
            f,
            BinaryOp::Add,
            con(Constant::Zero),
            val(ps[i]),
            sums[i],
        );
        assert(reading()(a) == number(a) && reading()(b) == number(b));
        assert(reading()(sums[i]) == number(sums[i]));
    } else {
        lemma_running_sum(f, g, ps, sums, i - 1);
        let (a, b) = lemma_operands(f, BinaryOp::Add, val(sums[i - 1]), val(ps[i]), sums[i]);
        assert(reading()(a) == number(a) && reading()(b) == number(b));
        assert(reading()(sums[i]) == number(sums[i]));
    }
}

/// A coin falls at the first place where the probabilities so far add up to more than it, and at
/// the last place where they never do.
pub proof fn law_first_place_past_coin<F: Fn(Term<Float32>) -> Float32>(
    f: F,
    g: Functions,
    ps: Seq<Float32>,
    coin: Float32,
    r: int,
    sum: Float32,
)
    requires
        truthful(f, reading(), g),
        numeric(f),
        !coin.nan(),
        reached(f, ps, coin, r, sum),
    ensures
        0 <= r < ps.len(),
        number(sum) == first_sum(ps, r + 1),
        forall|n: int| 0 < n <= r ==> #[trigger] first_sum(ps, n) <= number(coin),
        number(coin) < first_sum(ps, r + 1) || r == ps.len() - 1,
{
    let qs = ps.take(r + 1);
    let sums = choose|sums: Seq<Float32>|
        {
            &&& #[trigger] running(f, qs, sums)
            &&& sums[r] == sum
            &&& forall|i: int| 0 <= i < r ==> !coin.lt(#[trigger] sums[i])
            &&& coin.lt(sum) || r == ps.len() - 1
        };
    lemma_running_sum(f, g, qs, sums, r);
    lemma_first_sum_same(ps, qs, r + 1);
    law_bits_compare_as_numbers(coin, sum);
    assert forall|n: int| 0 < n <= r implies #[trigger] first_sum(ps, n) <= number(coin) by {
        lemma_running_sum(f, g, qs, sums, n - 1);
        lemma_first_sum_same(ps, qs, n);
        assert(!coin.lt(sums[n - 1]));
        law_bits_compare_as_numbers(coin, sums[n - 1]);
    }
}

/// Where the share of the probability is at most zero or at least one, a token is drawn from all of
/// them, in the order of the vocabulary.
pub proof fn law_whole_distribution_is_drawn_from<F: Fn(Term<Float32>) -> Float32>(
    f: F,
    g: Functions,
    probs: Seq<Float32>,
    topp: Float32,
    coin: Float32,
    r: usize,
)
    requires
        truthful(f, reading(), g),
        numeric(f),
        !coin.nan(),
        !topp.nan(),
        number(topp) <= 0 as real || number(topp) >= 1 as real,
        drawn(f, probs, topp, coin, r),
    ensures
        r < probs.len(),
        forall|n: int| 0 < n <= r ==> #[trigger] first_sum(probs, n) <= number(coin),
        number(coin) < first_sum(probs, r + 1) || r == probs.len() - 1,
{
    law_zero_and_one();
    law_bits_compare_as_numbers(topp, Float32 { bits: ZERO_BITS });
    law_bits_compare_as_numbers(Float32 { bits: ONE_BITS }, topp);
    let sum = choose|sum: Float32| #[trigger] reached(f, probs, coin, r as int, sum);
    law_first_place_past_coin(f, g, probs, coin, r as int, sum);
}

/// The numbers at the places of `order`, added up as far as `n`.
pub open spec fn sum_at(probs: Seq<Float32>, order: Seq<usize>, n: int) -> real {
    real_sum(Seq::new(n as nat, |j: int| number(probs[order[j] as int])))
}

proof fn lemma_sum_at(probs: Seq<Float32>, order: Seq<usize>, n: int)
    requires
        0 <= n <= order.len(),
    ensures
        sum_at(probs, order, n) == first_sum(chances(probs, order), n),
{
    let ps = chances(probs, order);
    assert(Seq::new(n as nat, |j: int| number(probs[order[j] as int])) =~= Seq::new(
        n as nat,
        |j: int| number(ps[j]),
    ));
}

/// Where the share lies between zero and one, a token is drawn from the smallest set of likeliest
/// tokens whose probabilities add up to more than the share. The tokens of the set stand in the
/// order of their probabilities, the first of equals first. Without the last of them the set does
/// not exceed the share. The coin, stretched to the whole of the set, decides among them.
///
/// The set ends early only where every token outside is so unlikely that, were all the others like
/// it, they would not make up the rest. No token of that kind is in the set, unless it is the only
/// one.
pub proof fn law_nucleus_is_drawn_from<F: Fn(Term<Float32>) -> Float32>(
    f: F,
    g: Functions,
    probs: Seq<Float32>,
    topp: Float32,
    coin: Float32,
    r: usize,
) -> (res: (Seq<usize>, int))
    requires
        truthful(f, reading(), g),
        numeric(f),
        no_nan(probs),
        !coin.nan(),
        !topp.nan(),
        2 <= probs.len() <= usize::MAX,
        number(topp) > 0 as real,
        number(topp) < 1 as real,
        drawn(f, probs, topp, coin, r),
    ensures
        ({
            let (order, k) = res;
            let n = order.len() as int;
            &&& 0 <= k < n
            &&& order[k] == r
            &&& forall|i: int| 0 <= i < n ==> #[trigger] order[i] < probs.len()
            &&& forall|i: int, j: int|
                0 <= i < j < n ==> {
                    let p = number(probs[#[trigger] order[i] as int]);
                    let q = number(probs[#[trigger] order[j] as int]);
                    p > q || p == q && order[i] < order[j]
                }
            &&& forall|i: int, j: usize|
                0 <= i < n && j < probs.len() && !order.contains(j) ==> {
                    let p = number(probs[#[trigger] order[i] as int]);
                    let q = number(#[trigger] probs[j as int]);
                    p > q || p == q && order[i] < j
                }
            &&& n == 1 || forall|i: int|
                0 <= i < n ==> number(probs[#[trigger] order[i] as int]) * ((probs.len()
                    - 1) as real) >= (1 as real) - number(topp)
            &&& forall|m: int| 0 <= m < n ==> #[trigger] sum_at(probs, order, m) <= number(topp)
            &&& sum_at(probs, order, n) > number(topp) || forall|j: usize|
                #![trigger probs[j as int]]
                j < probs.len() && !order.contains(j) ==> number(probs[j as int]) * (
                (probs.len() - 1) as real) < (1 as real) - number(topp)
            &&& sum_at(probs, order, k) <= number(coin) * sum_at(probs, order, n) || k == 0
            &&& number(coin) * sum_at(probs, order, n) < sum_at(probs, order, k + 1) || k == n - 1
        }),
{
    law_zero_and_one();
    law_bits_compare_as_numbers(topp, Float32 { bits: ZERO_BITS });
    law_bits_compare_as_numbers(Float32 { bits: ONE_BITS }, topp);
    assert(nucleus(f, probs, topp, coin, r));
    let len = probs.len() as int;
    let (cutoff, all) = choose|cutoff: Float32, order: Seq<usize>|
        {
            &&& #[trigger] evaluates(f, cutoff_expr(len, topp), cutoff)
            &&& #[trigger] ranked(probs, cutoff, order)
            &&& nucleus_drawn(f, probs, topp, coin, order, r)
        };
    let (last, sum, k) = choose|last: int, sum: Float32, k: int| #[trigger]
        drawn_at(f, probs, topp, coin, all, last, sum, k) && r == all[k];
    let ps = chances(probs, all);
    law_first_place_past_coin(f, g, ps, topp, last, sum);
    let qs = ps.take(last + 1);
    let order = all.take(last + 1);
    let n = last + 1;
    let (threshold, part) = choose|threshold: Float32, part: Float32| #[trigger]
        evaluates(f, times(val(coin), val(sum)), threshold) && #[trigger] reached(
            f,
            qs,
            threshold,
            k,
            part,
        );
    let (c1, s1) = lemma_operands(f, BinaryOp::Mul, val(coin), val(sum), threshold);
    assert(reading()(c1) == number(coin) && reading()(s1) == number(sum));
    assert(reading()(threshold) == number(threshold));
    law_first_place_past_coin(f, g, qs, threshold, k, part);
    assert(order =~= all.subrange(0, n));
    assert forall|m: int| 0 <= m <= n implies #[trigger] sum_at(probs, order, m) == first_sum(
        ps,
        m,
    ) && first_sum(qs, m) == first_sum(ps, m) by {
        lemma_sum_at(probs, order, m);
        lemma_first_sum_same(chances(probs, order), ps, m);
        lemma_first_sum_same(qs, ps, m);
    }
    lemma_first_sum(ps, 0);
    assert forall|m: int| 0 <= m < n implies #[trigger] sum_at(probs, order, m) <= number(topp) by {
        assert(sum_at(probs, order, m) == first_sum(ps, m));
    }
    assert(sum_at(probs, order, n) == first_sum(ps, n));
    assert(sum_at(probs, order, k) == first_sum(ps, k));
    assert(sum_at(probs, order, k + 1) == first_sum(ps, k + 1));
    lemma_cutoff(f, g, len, topp, cutoff);
    assert forall|i: int| 0 <= i < n implies #[trigger] order[i] < probs.len() && order[i]
        == all[i] by {
        assert(all[i] < probs.len());
    }
    assert forall|i: int, j: int| 0 <= i < j < n implies {
        let p = number(probs[#[trigger] order[i] as int]);
        let q = number(probs[#[trigger] order[j] as int]);
        p > q || p == q && order[i] < order[j]
    } by {
        assert(likelier(probs, all[i] as int, all[j] as int));
        law_bits_compare_as_numbers(probs[order[i] as int], probs[order[j] as int]);
        law_bits_compare_as_numbers(probs[order[j] as int], probs[order[i] as int]);
    }
    assert forall|i: int, j: usize| 0 <= i < n && j < probs.len() && !order.contains(j) implies {
        let p = number(probs[#[trigger] order[i] as int]);
        let q = number(#[trigger] probs[j as int]);
        p > q || p == q && order[i] < j
    } by {
        lemma_outside(probs, cutoff, all, n, i, j);
        law_bits_compare_as_numbers(probs[order[i] as int], probs[j as int]);
        law_bits_compare_as_numbers(probs[j as int], probs[order[i] as int]);
    }
    if n != 1 {
        assert forall|i: int| 0 <= i < n implies number(probs[#[trigger] order[i] as int]) * ((
        probs.len() - 1) as real) >= (1 as real) - number(topp) by {
            lemma_inside(probs, cutoff, all, i);
            law_bits_compare_as_numbers(cutoff, probs[order[i] as int]);
            let p = number(probs[order[i] as int]);
            let c = number(cutoff);
            let d = (probs.len() - 1) as real;
            let one = (1 as real) - number(topp);
            assert(d > 0 as real);
            assert(p * d >= one) by (nonlinear_arith)
                requires
                    p >= c,
                    c == one / d,
                    d > 0 as real,
            ;
        }
    }
    if !(number(topp) < first_sum(ps, n)) {
        assert(order =~= all);
        assert forall|j: usize|
            #![trigger probs[j as int]]
            j < probs.len() && !order.contains(j) implies number(probs[j as int]) * ((probs.len()
            - 1) as real) < (1 as real) - number(topp) by {
            assert(!cutoff.le(probs[j as int])) by {
                if cutoff.le(probs[j as int]) {
                    assert(reaches(probs, cutoff));
                    assert(all.contains(j));
                }
            }
            law_bits_compare_as_numbers(cutoff, probs[j as int]);
            let p = number(probs[j as int]);
            let c = number(cutoff);
            let d = (probs.len() - 1) as real;
            let one = (1 as real) - number(topp);
            assert(d > 0 as real);
            assert(p * d < one) by (nonlinear_arith)
                requires
                    p < c,
                    c == one / d,
                    d > 0 as real,
            ;
        }
    }
    (order, k)
}

/// Of two places or more, each reaches the cutoff.
proof fn lemma_inside(probs: Seq<Float32>, cutoff: Float32, all: Seq<usize>, i: int)
    requires
        ranked(probs, cutoff, all),
        all.len() >= 2,
        0 <= i < all.len(),
    ensures
        cutoff.le(probs[all[i] as int]),
{
    if reaches(probs, cutoff) {
        assert(all[i] < probs.len());
    }
}

/// A place that is not among the first `n` comes after each of them.
proof fn lemma_outside(
    probs: Seq<Float32>,
    cutoff: Float32,
    all: Seq<usize>,
    n: int,
    i: int,
    j: usize,
)
    requires
        ranked(probs, cutoff, all),
        no_nan(probs),
        !cutoff.nan(),
        0 <= i < n <= all.len(),
        j < probs.len(),
        !all.take(n).contains(j),
    ensures
        likelier(probs, all[i] as int, j as int),
{
    assert(all.take(n)[i] == all[i]);
    if reaches(probs, cutoff) {
        if cutoff.le(probs[j as int]) {
            assert(all.contains(j));
            let m = choose|m: int| 0 <= m < all.len() && all[m] == j;
            if m < n {
                assert(all.take(n)[m] == j);
            }
            assert(likelier(probs, all[i] as int, all[m] as int));
        } else {
            assert(cutoff.le(probs[all[i] as int]));
            assert(!probs[j as int].nan());
        }
    } else {
        let b = choose|b: usize| #[trigger] likeliest(probs, b as int) && all == seq![b];
        assert(likelier(probs, b as int, j as int));
    }
}

/// The cutoff is the rest of the share, divided among the other tokens.
proof fn lemma_cutoff<F: Fn(Term<Float32>) -> Float32>(
    f: F,
    g: Functions,
    n: int,
    topp: Float32,
    cutoff: Float32,
)
    requires
        truthful(f, reading(), g),
        numeric(f),
        2 <= n <= usize::MAX,
        evaluates(f, cutoff_expr(n, topp), cutoff),
    ensures
        number(cutoff) == ((1 as real) - number(topp)) / ((n - 1) as real),
        !cutoff.nan(),
{
    let rest_e = minus(con::<Float32>(Constant::One), val(topp));
    let count_e = con::<Float32>(Constant::Count((n - 1) as usize));
    let (rest, count) = lemma_operands(f, BinaryOp::Div, rest_e, count_e, cutoff);
    let (one, share) = lemma_operands(f, BinaryOp::Sub, con(Constant::One), val(topp), rest);
    assert(reading()(rest) == number(rest) && reading()(count) == number(count));
    assert(reading()(one) == number(one) && reading()(share) == number(topp));
    assert(reading()(cutoff) == number(cutoff));
}

/// The best token has the largest number, and every token after it a smaller one.
pub proof fn law_best_token_is_the_largest(probs: Seq<Float32>, r: int, i: int)
    requires
        no_nan(probs),
        is_argmax(probs, r),
        0 <= i < probs.len(),
    ensures
        0 <= r < probs.len(),
        number(probs[i]) <= number(probs[r]),
        i > r ==> number(probs[i]) < number(probs[r]),
{
    if i <= r {
        assert(probs[i].rank() <= probs[r].rank());
    } else {
        assert(probs[i].rank() < probs[r].rank());
    }
    law_bits_compare_as_numbers(probs[i], probs[r]);
    law_bits_compare_as_numbers(probs[r], probs[i]);
}

/// The best token is taken where the temperature is zero, and a token is drawn where it is any
/// other number or none.
pub proof fn law_zero_temperature_takes_the_best(s: Sampler)
    ensures
        s.greedy() <==> !s.temperature().nan() && number(s.temperature()) == 0 as real,
{
    law_zero_and_one();
    if !s.temperature().nan() {
        law_bits_compare_as_numbers(s.temperature(), Float32 { bits: ZERO_BITS });
    }
}

/// Each step of the generator can be undone: the state before is worked out from the state after,
/// shift by shift.
pub proof fn law_generator_can_be_undone(s: u64)
    ensures
        ({
            let r = xorshift(s);
            let b = r ^ (r >> 27) ^ (r >> 54);
            let a = b ^ (b << 25) ^ (b << 50);
            s == a ^ (a >> 12) ^ (a >> 24) ^ (a >> 36) ^ (a >> 48) ^ (a >> 60)
        }),
{
    let a0 = s ^ (s >> 12);
    let b0 = a0 ^ (a0 << 25);
    let r = b0 ^ (b0 >> 27);
    assert(b0 == r ^ (r >> 27) ^ (r >> 54)) by (bit_vector)
        requires
            r == b0 ^ (b0 >> 27),
    ;
    assert(a0 == b0 ^ (b0 << 25) ^ (b0 << 50)) by (bit_vector)
        requires
            b0 == a0 ^ (a0 << 25),
    ;
    assert(s == a0 ^ (a0 >> 12) ^ (a0 >> 24) ^ (a0 >> 36) ^ (a0 >> 48) ^ (a0 >> 60))
        by (bit_vector)
        requires
            a0 == s ^ (s >> 12),
    ;
}

/// A random number is the upper half of 64 bits that are congruent to the state times the
/// multiplier.
pub proof fn law_random_number_is_the_upper_half(s: u64) -> (low: int)
    ensures
        0 <= scrambled(s) < 0x1_0000_0000,
        0 <= low < 0x1_0000_0000,
        (s * 0x2545_F491_4F6C_DD1D - (scrambled(s) * 0x1_0000_0000 + low)) % 0x1_0000_0000_0000_0000
            == 0,
{
    let p = s * 0x2545_F491_4F6C_DD1D;
    let q = p % 0x1_0000_0000_0000_0000;
    vstd::arithmetic::div_mod::lemma_fundamental_div_mod(p, 0x1_0000_0000_0000_0000);
    let low = q % 0x1_0000_0000;
    assert(q == (q / 0x1_0000_0000) * 0x1_0000_0000 + low);
    let k = p / 0x1_0000_0000_0000_0000;
    assert(p - q == 0x1_0000_0000_0000_0000 * k);
    low
}

/// A coin is the random number without its last eight bits, over two to the power of 24: at least
/// zero and below one.
pub proof fn law_coin<F: Fn(Term<Float32>) -> Float32>(
    f: F,
    g: Functions,
    state: u64,
    coin: Float32,
)
    requires
        truthful(f, reading(), g),
        numeric(f),
        evaluates(f, coin_expr(state), coin),
    ensures
        !coin.nan(),
        number(coin) * (0x100_0000 as real) == (scrambled(state) / 0x100) as real,
        number(coin) >= 0 as real,
        number(coin) < 1 as real,
{
    let n = scrambled(state) / 0x100;
    crate::sampler::law_coin_is_a_proper_fraction(state);
    let above_e = con::<Float32>(Constant::Count(n as usize));
    let below_e = con::<Float32>(Constant::Count(0x100_0000));
    let (above, below) = lemma_operands(f, BinaryOp::Div, above_e, below_e, coin);
    assert(reading()(above) == number(above) && reading()(below) == number(below));
    assert(reading()(coin) == number(coin));
    let c = number(coin);
    let a = n as real;
    let b = 0x100_0000 as real;
    assert(c * b == a && c >= 0 as real && c < 1 as real) by (nonlinear_arith)
        requires
            c == a / b,
            b == 0x100_0000 as real,
            a >= 0 as real,
            a < b,
    ;
}

/// A draw: the probability of a token, times the sum of the exponentials of all scores over the
/// temperature, is the exponential of its own; and the coin comes from the generator's next state.
pub proof fn law_draw<F: Fn(Term<Float32>) -> Float32>(
    f: F,
    g: Functions,
    s: Sampler,
    logits: Seq<Float32>,
    scaled: Seq<Float32>,
    probs: Seq<Float32>,
    coin: Float32,
    r: usize,
    i: int,
)
    requires
        truthful(f, reading(), g),
        true_functions(g),
        numeric(f),
        number(s.temperature()) != 0 as real,
        draw_steps(f, s, logits, scaled, probs, coin, r),
        0 <= i < logits.len(),
    ensures
        probs.len() == logits.len(),
        no_nan(probs),
        number(probs[i]) * real_sum(
            Seq::new(
                logits.len(),
                |j: int| (g.exp)(number(logits[j]) / number(s.temperature())),
            ),
        ) == (g.exp)(number(logits[i]) / number(s.temperature())),
        number(coin) * (0x100_0000 as real) == (scrambled(xorshift(s.rng_state())) / 0x100) as real,
        drawn(f, probs, s.topp(), coin, r),
{
    law_coin(f, g, xorshift(s.rng_state()), coin);
    let t = s.temperature();
    assert forall|j: int| 0 <= j < scaled.len() implies number(#[trigger] scaled[j]) == number(
        logits[j],
    ) / number(t) by {
        assert(evaluates(f, over(val(logits[j]), val(t)), scaled[j]));
        let (a, b) = lemma_operands(f, BinaryOp::Div, val(logits[j]), val(t), scaled[j]);
        assert(reading()(a) == number(a) && reading()(b) == number(b));
        assert(reading()(scaled[j]) == number(scaled[j]));
    }
    law_softmax(f, reading(), g, scaled, probs, i);
    assert(Seq::new(scaled.len(), |j: int| (g.exp)(reading()(scaled[j]))) =~= Seq::new(
        logits.len(),
        |j: int| (g.exp)(number(logits[j]) / number(s.temperature())),
    ));
    assert(reading()(probs[i]) == number(probs[i]));
    assert(reading()(scaled[i]) == number(scaled[i]));
    let (max, exps, sum) = choose|max: Float32, exps: Seq<Float32>, sum: Float32| #[trigger]
        softmax_steps(f, scaled, max, exps, sum, probs);
    assert forall|j: int| 0 <= j < probs.len() implies !(#[trigger] probs[j]).nan() by {
        assert(evaluates(f, over(val(exps[j]), val(sum)), probs[j]));
        let (a, b) = lemma_operands(f, BinaryOp::Div, val(exps[j]), val(sum), probs[j]);
    }
}

/// With a temperature of zero the sampler takes a token with the largest score and leaves the
/// generator alone.
pub proof fn law_greedy_choice<F: Fn(Term<Float32>) -> Float32>(
    f: F,
    before: Sampler,
    logits: Seq<Float32>,
    after: Sampler,
    r: u32,
    i: int,
)
    requires
        !before.temperature().nan(),
        number(before.temperature()) == 0 as real,
        no_nan(logits),
        logits.len() <= u32::MAX,
        sampled(f, before, logits, after, r),
        0 <= i < logits.len(),
    ensures
        after.rng_state() == before.rng_state(),
        r < logits.len(),
        number(logits[i]) <= number(logits[r as int]),
        i > r ==> number(logits[i]) < number(logits[r as int]),
{
    law_zero_temperature_takes_the_best(before);
    let k = choose|k: usize| #[trigger] is_argmax(logits, k as int) && r == k as u32;
    law_best_token_is_the_largest(logits, k as int, i);
}

/// With any other temperature the sampler draws a token, and the generator is one step on.
pub proof fn law_drawn_choice<F: Fn(Term<Float32>) -> Float32>(
    f: F,
    before: Sampler,
    logits: Seq<Float32>,
    after: Sampler,
    r: u32,
) -> (steps: (Seq<Float32>, Seq<Float32>, Float32))
    requires
        before.temperature().nan() || number(before.temperature()) != 0 as real,
        0 < logits.len() <= u32::MAX,
        sampled(f, before, logits, after, r),
    ensures
        draw_steps(f, before, logits, steps.0, steps.1, steps.2, r as usize),
        after.rng_state() == xorshift(before.rng_state()),
        r < logits.len(),
{
    law_zero_temperature_takes_the_best(before);
    let (scaled, probs, coin, i) = choose|
        scaled: Seq<Float32>,
        probs: Seq<Float32>,
        coin: Float32,
        i: usize,
    |
        {
            &&& #[trigger] draw_steps(f, before, logits, scaled, probs, coin, i)
            &&& r == i as u32
        };
    law_drawn_token_exists(f, probs, before.topp(), coin, i);
    (scaled, probs, coin)
}

} // verus!
