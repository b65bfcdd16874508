//! Turning scores into a token.
//!
//! With a temperature of zero the best token is taken. Else the scores become probabilities, and
//! a token is drawn: from all of them, or from the likeliest ones whose probabilities add up to a
//! given share.
use vstd::prelude::*;
use vstd::slice::slice_subrange;

use crate::float::{Float32, ONE_BITS, ZERO_BITS};
use crate::math::softmax;
use crate::math::softmaxed;
use crate::scalar::{con, evaluates, minus, over, plus, times, total, val, Expr};
use crate::scalar::lemma_binary;
use crate::scalar::{BinaryOp, Constant, Term};
use crate::sort::lemma_rearranged;
use crate::sort::{merge_sort, IndexOrder};

verus! {

/// A source of tokens: how to draw them, and the state of the random number generator.
pub struct Sampler {
    vocab_size: usize,
    temperature: Float32,
    topp: Float32,
    rng_state: u64,
}

/// The generator's next state.
pub open spec fn xorshift(s: u64) -> u64 {
    let a = s ^ (s >> 12);
    let b = a ^ (a << 25);
    b ^ (b >> 27)
}

/// The multiplier that scrambles a state into a random number.
pub const SCRAMBLE: u64 = 0x2545_F491_4F6C_DD1D;

/// The random number that a state stands for: the upper half of its product with the multiplier,
/// kept to 64 bits.
pub open spec fn scrambled(s: u64) -> int {
    ((s * SCRAMBLE) % 0x1_0000_0000_0000_0000) / 0x1_0000_0000
}

/// The generator maps no two states to one, so that no state but zero leads to zero.
pub proof fn law_generator_is_injective(s: u64, t: u64)
    ensures
        xorshift(s) == xorshift(t) ==> s == t,
        xorshift(0) == 0,
        s != 0 ==> xorshift(s) != 0,
{
    lemma_right_step_12(s, t);
    lemma_left_step_25(s ^ (s >> 12), t ^ (t >> 12));
    let b = (s ^ (s >> 12)) ^ ((s ^ (s >> 12)) << 25);
    let c = (t ^ (t >> 12)) ^ ((t ^ (t >> 12)) << 25);
    lemma_right_step_27(b, c);
    assert(xorshift(0) == 0) by (bit_vector);
    let a = s ^ (s >> 12);
    let e = a ^ (a << 25);
    lemma_right_step_12(s, 0);
    lemma_left_step_25(a, 0);
    lemma_right_step_27(e, 0);
    assert(0u64 ^ (0u64 >> 12) == 0 && 0u64 ^ (0u64 << 25) == 0 && 0u64 ^ (0u64 >> 27) == 0)
        by (bit_vector);
}

proof fn lemma_right_step_12(s: u64, t: u64)
    ensures
        s ^ (s >> 12) == t ^ (t >> 12) ==> s == t,
{
    assert(s ^ (s >> 12) == t ^ (t >> 12) ==> s == t) by (bit_vector);
}

proof fn lemma_left_step_25(s: u64, t: u64)
    ensures
        s ^ (s << 25) == t ^ (t << 25) ==> s == t,
{
    assert(s ^ (s << 25) == t ^ (t << 25) ==> s == t) by (bit_vector);
}

proof fn lemma_right_step_27(s: u64, t: u64)
    ensures
        s ^ (s >> 27) == t ^ (t >> 27) ==> s == t,
{
    assert(s ^ (s >> 27) == t ^ (t >> 27) ==> s == t) by (bit_vector);
}

/// A number from 0 up to but not equal to 1: the upper 24 bits of the random number, over 2 to
/// the 24.
pub open spec fn coin_expr(rng_state: u64) -> Expr<Float32> {
    over(
        con(Constant::Count((scrambled(rng_state) / 0x100) as usize)),
        con(Constant::Count(0x100_0000)),
    )
}

/// A coin's numerator is below its denominator, and not negative.
pub proof fn law_coin_is_a_proper_fraction(rng_state: u64)
    ensures
        0 <= scrambled(rng_state) / 0x100 < 0x100_0000,
{
    let p = (rng_state * SCRAMBLE) % 0x1_0000_0000_0000_0000;
    assert(0 <= p < 0x1_0000_0000_0000_0000);
}

/// `r` is the last of the places that hold the largest of `probs`; 0 where there is none.
pub open spec fn is_argmax(probs: Seq<Float32>, r: int) -> bool {
    if probs.len() == 0 {
        r == 0
    } else {
        &&& 0 <= r < probs.len()
        &&& forall|i: int| 0 <= i <= r ==> (#[trigger] probs[i]).rank() <= probs[r].rank()
        &&& forall|i: int| r < i < probs.len() ==> (#[trigger] probs[i]).rank() < probs[r].rank()
    }
}

/// No scalar is NaN.
pub open spec fn no_nan(probs: Seq<Float32>) -> bool {
    forall|i: int| 0 <= i < probs.len() ==> !(#[trigger] probs[i]).nan()
}

/// The place of the largest scalar, the last one where several are largest.
pub fn sample_argmax(probs: &[Float32]) -> (r: usize)
    requires
        probs@.len() >= 2 ==> no_nan(probs@),
    ensures
        is_argmax(probs@, r as int),
{
    let mut best: usize = 0;
    let mut i: usize = 1;
    while i < probs.len()
        invariant
            probs@.len() >= 2 ==> no_nan(probs@),
            1 <= i,
            probs@.len() == 0 ==> best == 0,
            probs@.len() > 0 ==> i <= probs@.len() && best < i,
            forall|k: int|
                0 <= k <= best && k < probs@.len() ==> (#[trigger] probs@[k]).rank()
                    <= probs@[best as int].rank(),
            forall|k: int|
                best < k < i && k < probs@.len() ==> (#[trigger] probs@[k]).rank()
                    < probs@[best as int].rank(),
        decreases probs@.len() - i,
    {
        if probs[best].at_most(probs[i]) {
            best = i;
        }
        i += 1;
    }
    best
}

/// `sums[i]` is what `sums[i - 1]`, or zero before the first, gives when `ps[i]` is added.
pub open spec fn added_at<F: Fn(Term<Float32>) -> Float32>(
    f: F,
    ps: Seq<Float32>,
    sums: Seq<Float32>,
    i: int,
) -> bool {
    let before = if i == 0 {
        con(Constant::Zero)
    } else {
        val(sums[i - 1])
    };
    evaluates(f, plus(before, val(ps[i])), sums[i])
}

/// `sums[i]` is the sum of the first `i + 1` scalars of `ps`, added up from the left.
pub open spec fn running<F: Fn(Term<Float32>) -> Float32>(
    f: F,
    ps: Seq<Float32>,
    sums: Seq<Float32>,
) -> bool {
    &&& sums.len() == ps.len()
    &&& forall|i: int| 0 <= i < ps.len() ==> #[trigger] added_at(f, ps, sums, i)
}

/// `r` is the first place where the sum of `ps` so far exceeds `coin`, or the last place where it
/// nowhere does, and `sum` is the sum up to there.
pub open spec fn reached<F: Fn(Term<Float32>) -> Float32>(
    f: F,
    ps: Seq<Float32>,
    coin: Float32,
    r: int,
    sum: Float32,
) -> bool {
    &&& 0 <= r < ps.len()
    &&& exists|sums: Seq<Float32>|
        {
            &&& #[trigger] running(f, ps.take(r + 1), sums)
            &&& sums[r] == sum
            &&& forall|i: int| 0 <= i < r ==> !coin.lt(#[trigger] sums[i])
            &&& coin.lt(sum) || r == ps.len() - 1
        }
}

fn reach<F: Fn(Term<Float32>) -> Float32>(f: &F, ps: &[Float32], coin: Float32) -> (r: (
    usize,
    Float32,
))
    requires
        total(*f),
        ps@.len() > 0,
    ensures
        reached(*f, ps@, coin, r.0 as int, r.1),
{
    let mut sum = f(Term::Constant(Constant::Zero));
    let ghost start = sum;
    let ghost mut sums: Seq<Float32> = seq![];
    let mut i: usize = 0;
    loop
        invariant
            total(*f),
            i < ps@.len(),
            sums.len() == i,
            running(*f, ps@.take(i as int), sums),
            i == 0 ==> evaluates(*f, con(Constant::Zero), sum),
            i > 0 ==> sum == sums[i - 1],
            forall|k: int| 0 <= k < i ==> !coin.lt(#[trigger] sums[k]),
        decreases ps@.len() - i,
    {
        let next = f(Term::Binary(BinaryOp::Add, sum, ps[i]));
        proof {
            let p = ps@[i as int];
            let prev = if i == 0 {
                con(Constant::Zero)
            } else {
                val(sum)
            };
            lemma_binary(*f, BinaryOp::Add, prev, val(p), sum, p, next);
            let old_sums = sums;
            sums = sums.push(next);
            assert forall|k: int| 0 <= k < i + 1 implies #[trigger] added_at(
                *f,
                ps@.take(i + 1),
                sums,
                k,
            ) by {
                if k < i {
                    assert(added_at(*f, ps@.take(i as int), old_sums, k));
                }
            }
            assert(running(*f, ps@.take(i + 1), sums));
        }
        sum = next;
        if coin.less(sum) || i == ps.len() - 1 {
            return (i, sum);
        }
        i += 1;
    }
}

/// Draws a place: the first where the probabilities so far add up to more than `coin`.
pub fn sample_mult<F: Fn(Term<Float32>) -> Float32>(f: &F, probs: &[Float32], coin: Float32) -> (r:
    usize)
    requires
        total(*f),
        probs@.len() > 0,
    ensures
        exists|sum: Float32| #[trigger] reached(*f, probs@, coin, r as int, sum),
{
    reach(f, probs, coin).0
}

/// Place `i` comes before place `j` when the likelier come first, and the earlier of equals.
pub open spec fn likelier(probs: Seq<Float32>, i: int, j: int) -> bool {
    ||| probs[i].rank() > probs[j].rank()
    ||| probs[i].rank() == probs[j].rank() && i < j
}

/// `order` holds the places whose probability is at least `cutoff`, the likelier first and the
/// earlier of equals first.
pub open spec fn likely_in_order(
    probs: Seq<Float32>,
    cutoff: Float32,
    order: Seq<usize>,
) -> bool {
    &&& forall|k: int|
        0 <= k < order.len() ==> #[trigger] order[k] < probs.len() && cutoff.le(
            probs[order[k] as int],
        )
    &&& forall|i: usize|
        i < probs.len() && cutoff.le(probs[i as int]) ==> #[trigger] order.contains(i)
    &&& forall|j: int, k: int|
        0 <= j < k < order.len() ==> likelier(
            probs,
            #[trigger] order[j] as int,
            #[trigger] order[k] as int,
        )
}

/// Some probability is at least `cutoff`.
pub open spec fn reaches(probs: Seq<Float32>, cutoff: Float32) -> bool {
    exists|i: int| 0 <= i < probs.len() && cutoff.le(#[trigger] probs[i])
}

/// Place `i` comes before every other place.
pub open spec fn likeliest(probs: Seq<Float32>, i: int) -> bool {
    &&& 0 <= i < probs.len()
    &&& forall|j: int| 0 <= j < probs.len() && j != i ==> #[trigger] likelier(probs, i, j)
}

/// `order` holds the places that tokens are drawn from: those that reach the cutoff, the likelier
/// first, and the likeliest alone where none reaches it.
pub open spec fn ranked(probs: Seq<Float32>, cutoff: Float32, order: Seq<usize>) -> bool {
    if reaches(probs, cutoff) {
        likely_in_order(probs, cutoff, order)
    } else {
        exists|i: usize| #[trigger] likeliest(probs, i as int) && order == seq![i]
    }
}

struct ByChance<'a> {
    probs: &'a [Float32],
}

impl<'a> IndexOrder for ByChance<'a> {
    closed spec fn bound(&self) -> int {
        self.probs@.len() as int
    }

    closed spec fn lt(&self, i: int, j: int) -> bool {
        likelier(self.probs@, i, j)
    }

    proof fn irreflexive(&self, i: int) {
    }

    proof fn connected(&self, i: int, j: int) {
    }

    proof fn transitive(&self, i: int, j: int, k: int) {
    }

    fn before(&self, i: usize, j: usize) -> bool {
        let a: i64 = self.probs[i].place();
        let b: i64 = self.probs[j].place();
        a > b || (a == b && i < j)
    }
}

fn find_likeliest(probs: &[Float32]) -> (r: usize)
    requires
        probs@.len() > 0,
    ensures
        likeliest(probs@, r as int),
{
    let order = ByChance { probs };
    let mut best: usize = 0;
    let mut i: usize = 1;
    while i < probs.len()
        invariant
            order.probs == probs,
            best < i <= probs@.len(),
            forall|j: int| 0 <= j < i && j != best ==> #[trigger] likelier(probs@, best as int, j),
        decreases probs@.len() - i,
    {
        if order.before(i, best) {
            let ghost beaten = best as int;
            best = i;
            assert forall|j: int| 0 <= j < i + 1 && j != best implies #[trigger] likelier(
                probs@,
                best as int,
                j,
            ) by {
                if j != beaten {
                    assert(likelier(probs@, beaten, j));
                }
            }
        }
        i += 1;
    }
    best
}

fn rank_all(probs: &[Float32], cutoff: Float32) -> (r: Vec<usize>)
    requires
        probs@.len() > 0,
    ensures
        ranked(probs@, cutoff, r@),
        r@.len() > 0,
        forall|k: int| 0 <= k < r@.len() ==> #[trigger] r@[k] < probs@.len(),
{
    let mut r = rank_likely(probs, cutoff);
    if r.len() == 0 {
        let best: usize = find_likeliest(probs);
        proof {
            if reaches(probs@, cutoff) {
                let i = choose|i: int| 0 <= i < probs@.len() && cutoff.le(#[trigger] probs@[i]);
                assert(probs@.len() == probs.len());
                assert(r@.contains(i as usize));
            }
        }
        r.push(best);
        assert(r@ =~= seq![best]);
    } else {
        assert(cutoff.le(probs@[r@[0] as int]));
    }
    r
}

fn rank_likely(probs: &[Float32], cutoff: Float32) -> (r: Vec<usize>)
    ensures
        likely_in_order(probs@, cutoff, r@),
{
    let mut kept: Vec<usize> = Vec::new();
    let mut i: usize = 0;
    while i < probs.len()
        invariant
            i <= probs@.len(),
            forall|k: int|
                0 <= k < kept@.len() ==> #[trigger] kept@[k] < i && cutoff.le(
                    probs@[kept@[k] as int],
                ),
            forall|k: int, m: int|
                0 <= k < m < kept@.len() ==> #[trigger] kept@[k] < #[trigger] kept@[m],
            forall|k: usize| k < i && cutoff.le(probs@[k as int]) ==> #[trigger] kept@.contains(k),
        decreases probs@.len() - i,
    {
        let ghost before = kept@;
        if cutoff.at_most(probs[i]) {
            kept.push(i);
            assert(kept@[before.len() as int] == i);
            assert forall|k: usize| k < i && cutoff.le(probs@[k as int]) implies
                #[trigger] kept@.contains(
                k,
            ) by {
                assert(before.contains(k));
                let m = choose|m: int| 0 <= m < before.len() && before[m] == k;
                assert(kept@[m] == k);
            }
        }
        i += 1;
    }
    let order = ByChance { probs };
    let r = merge_sort(&order, kept.as_slice());
    proof {
        lemma_rearranged(order, kept@, r@);
        assert forall|k: int| 0 <= k < r@.len() implies #[trigger] r@[k] < probs@.len()
            && cutoff.le(probs@[r@[k] as int]) by {
            assert(r@.contains(r@[k]));
            assert(kept@.contains(r@[k]));
        }
        assert forall|i: usize| i < probs@.len() && cutoff.le(probs@[i as int]) implies
            #[trigger] r@.contains(
            i,
        ) by {
            assert(kept@.contains(i));
        }
        assert forall|j: int, k: int| 0 <= j < k < r@.len() implies likelier(
            probs@,
            #[trigger] r@[j] as int,
            #[trigger] r@[k] as int,
        ) by {
            assert(order.lt(r@[j] as int, r@[k] as int));
        }
    }
    r
}

/// The least probability a token other than the likeliest needs to be drawn:
/// `(1 - topp) / (n - 1)`.
pub open spec fn cutoff_expr(n: int, topp: Float32) -> Expr<Float32> {
    over(
        minus(con(Constant::One), val(topp)),
        con(Constant::Count((n - 1) as usize)),
    )
}

/// The probabilities at the places of `order`.
pub open spec fn chances(probs: Seq<Float32>, order: Seq<usize>) -> Seq<Float32> {
    order.map_values(|i: usize| probs[i as int])
}

/// A draw from the likeliest tokens: `last` is where the probabilities in order first add up to
/// more than `topp`, and the coin, scaled to their sum, chooses among the places up to `last`.
pub open spec fn nucleus_drawn<F: Fn(Term<Float32>) -> Float32>(
    f: F,
    probs: Seq<Float32>,
    topp: Float32,
    coin: Float32,
    order: Seq<usize>,
    r: usize,
) -> bool {
    exists|last: int, sum: Float32, k: int| #[trigger]
        drawn_at(f, probs, topp, coin, order, last, sum, k) && r == order[k]
}

/// The steps of such a draw.
pub open spec fn drawn_at<F: Fn(Term<Float32>) -> Float32>(
    f: F,
    probs: Seq<Float32>,
    topp: Float32,
    coin: Float32,
    order: Seq<usize>,
    last: int,
    sum: Float32,
    k: int,
) -> bool {
    &&& reached(f, chances(probs, order), topp, last, sum)
    &&& chosen(f, chances(probs, order).take(last + 1), coin, sum, k)
}

/// The coin, times the sum of the probabilities, falls at place `k`.
pub open spec fn chosen<F: Fn(Term<Float32>) -> Float32>(
    f: F,
    ps: Seq<Float32>,
    coin: Float32,
    sum: Float32,
    k: int,
) -> bool {
    exists|threshold: Float32, total: Float32| #[trigger]
        evaluates(f, times(val(coin), val(sum)), threshold) && #[trigger] reached(
            f,
            ps,
            threshold,
            k,
            total,
        )
}

/// What top-p sampling returns: a draw from the likeliest tokens.
pub open spec fn nucleus<F: Fn(Term<Float32>) -> Float32>(
    f: F,
    probs: Seq<Float32>,
    topp: Float32,
    coin: Float32,
    r: usize,
) -> bool {
    exists|cutoff: Float32, order: Seq<usize>|
        {
            &&& #[trigger] evaluates(f, cutoff_expr(probs.len() as int, topp), cutoff)
            &&& #[trigger] ranked(probs, cutoff, order)
            &&& nucleus_drawn(f, probs, topp, coin, order, r)
        }
}

fn cutoff_of<F: Fn(Term<Float32>) -> Float32>(f: &F, n: usize, topp: Float32) -> (r: Float32)
    requires
        total(*f),
        n > 0,
    ensures
        evaluates(*f, cutoff_expr(n as int, topp), r),
{
    let one = f(Term::Constant(Constant::One));
    let rest = f(Term::Binary(BinaryOp::Sub, one, topp));
    let others = f(Term::Constant(Constant::Count((n - 1) as usize)));
    let cutoff = f(Term::Binary(BinaryOp::Div, rest, others));
    proof {
        let one_e = con(Constant::One);
        let others_e = con(Constant::Count((n - 1) as usize));
        lemma_binary(*f, BinaryOp::Sub, one_e, val(topp), one, topp, rest);
        lemma_binary(*f, BinaryOp::Div, minus(one_e, val(topp)), others_e, rest, others, cutoff);
    }
    cutoff
}

fn choose_up_to<F: Fn(Term<Float32>) -> Float32>(
    f: &F,
    ps: &[Float32],
    coin: Float32,
    sum: Float32,
) -> (k: usize)
    requires
        total(*f),
        ps@.len() > 0,
    ensures
        k < ps@.len(),
        chosen(*f, ps@, coin, sum, k as int),
{
    let threshold = f(Term::Binary(BinaryOp::Mul, coin, sum));
    proof {
        lemma_binary(*f, BinaryOp::Mul, val(coin), val(sum), coin, sum, threshold);
    }
    reach(f, ps, threshold).0
}

fn draw_from<F: Fn(Term<Float32>) -> Float32>(
    f: &F,
    probs: &[Float32],
    topp: Float32,
    coin: Float32,
    order: &Vec<usize>,
) -> (r: usize)
    requires
        total(*f),
        order@.len() > 0,
        forall|k: int| 0 <= k < order@.len() ==> #[trigger] order@[k] < probs@.len(),
    ensures
        r < probs@.len(),
        nucleus_drawn(*f, probs@, topp, coin, order@, r),
{
    let mut ps: Vec<Float32> = Vec::new();
    let mut i: usize = 0;
    while i < order.len()
        invariant
            i <= order@.len(),
            forall|k: int| 0 <= k < order@.len() ==> #[trigger] order@[k] < probs@.len(),
            ps@ =~= chances(probs@, order@).take(i as int),
        decreases order@.len() - i,
    {
        ps.push(probs[order[i]]);
        i += 1;
    }
    assert(ps@ =~= chances(probs@, order@));
    let (last, sum) = reach(f, ps.as_slice(), topp);
    let k: usize = choose_up_to(f, slice_subrange(ps.as_slice(), 0, last + 1), coin, sum);
    proof {
        assert(ps@.subrange(0, last + 1) =~= chances(probs@, order@).take(last + 1));
        assert(reached(*f, chances(probs@, order@), topp, last as int, sum));
        assert(drawn_at(*f, probs@, topp, coin, order@, last as int, sum, k as int));
    }
    order[k]
}

/// Top-p sampling: draws from the likeliest tokens whose probabilities add up to more than `topp`.
pub fn sample_topp<F: Fn(Term<Float32>) -> Float32>(
    f: &F,
    probs: &[Float32],
    topp: Float32,
    coin: Float32,
) -> (r: usize)
    requires
        total(*f),
        probs@.len() > 0,
    ensures
        r < probs@.len(),
        nucleus(*f, probs@, topp, coin, r),
{
    let cutoff = cutoff_of(f, probs.len(), topp);
    let order = rank_all(probs, cutoff);
    draw_from(f, probs, topp, coin, &order)
}

/// The scores, each divided by the temperature.
pub open spec fn tempered<F: Fn(Term<Float32>) -> Float32>(
    f: F,
    logits: Seq<Float32>,
    temperature: Float32,
    after: Seq<Float32>,
) -> bool {
    &&& after.len() == logits.len()
    &&& forall|i: int|
        0 <= i < logits.len() ==> evaluates(
            f,
            over(val(logits[i]), val(temperature)),
            #[trigger] after[i],
        )
}

fn temper<F: Fn(Term<Float32>) -> Float32>(
    f: &F,
    logits: &mut Vec<Float32>,
    temperature: Float32,
)
    requires
        total(*f),
    ensures
        tempered(*f, old(logits)@, temperature, final(logits)@),
{
    let mut i: usize = 0;
    while i < logits.len()
        invariant
            total(*f),
            i <= logits@.len(),
            logits@.len() == old(logits)@.len(),
            forall|k: int|
                0 <= k < i ==> evaluates(
                    *f,
                    over(val(old(logits)@[k]), val(temperature)),
                    #[trigger] logits@[k],
                ),
            forall|k: int| i <= k < logits@.len() ==> #[trigger] logits@[k] == old(logits)@[k],
        decreases logits@.len() - i,
    {
        let v = logits[i];
        let r = f(Term::Binary(BinaryOp::Div, v, temperature));
        proof {
            lemma_binary(*f, BinaryOp::Div, val(v), val(temperature), v, temperature, r);
        }
        logits[i] = r;
        i += 1;
    }
}

/// `topp` lies strictly between 0 and 1, or is NaN: only then are tokens left out of a draw.
pub open spec fn limits(topp: Float32) -> bool {
    !topp.le(Float32 { bits: ZERO_BITS }) && !(Float32 { bits: ONE_BITS }).le(topp)
}

/// A draw from the probabilities `probs` with the given coin.
pub open spec fn drawn<F: Fn(Term<Float32>) -> Float32>(
    f: F,
    probs: Seq<Float32>,
    topp: Float32,
    coin: Float32,
    r: usize,
) -> bool {
    if limits(topp) {
        nucleus(f, probs, topp, coin, r)
    } else {
        exists|sum: Float32| #[trigger] reached(f, probs, coin, r as int, sum)
    }
}

fn draw<F: Fn(Term<Float32>) -> Float32>(
    f: &F,
    probs: &[Float32],
    topp: Float32,
    coin: Float32,
) -> (r: usize)
    requires
        total(*f),
        probs@.len() > 0,
    ensures
        drawn(*f, probs@, topp, coin, r),
{
    let zero = Float32 { bits: ZERO_BITS };
    let one = Float32 { bits: ONE_BITS };
    if topp.at_most(zero) || one.at_most(topp) {
        sample_mult(f, probs, coin)
    } else {
        sample_topp(f, probs, topp, coin)
    }
}

/// The steps of a draw: the scores are divided by the temperature and become the probabilities
/// `probs`, and a coin from the generator's next state decides.
pub open spec fn draw_steps<F: Fn(Term<Float32>) -> Float32>(
    f: F,
    s: Sampler,
    logits: Seq<Float32>,
    scaled: Seq<Float32>,
    probs: Seq<Float32>,
    coin: Float32,
    r: usize,
) -> bool {
    &&& tempered(f, logits, s.temperature(), scaled)
    &&& softmaxed(f, scaled, probs)
    &&& evaluates(f, coin_expr(xorshift(s.rng_state())), coin)
    &&& drawn(f, probs, s.topp(), coin, r)
}

impl Sampler {
    /// The number of tokens.
    pub closed spec fn vocab_size(self) -> usize {
        self.vocab_size
    }

    /// What the scores are divided by; zero means that the best token is always taken.
    pub closed spec fn temperature(self) -> Float32 {
        self.temperature
    }

    /// The share of the probability that tokens are drawn from.
    pub closed spec fn topp(self) -> Float32 {
        self.topp
    }

    /// The generator's state.
    pub closed spec fn rng_state(self) -> u64 {
        self.rng_state
    }

    /// The temperature is zero.
    pub open spec fn greedy(self) -> bool {
        self.temperature().same(Float32 { bits: ZERO_BITS })
    }

    /// The settings agree; the generator may be in another state.
    pub open spec fn same_settings(self, other: Sampler) -> bool {
        &&& self.vocab_size() == other.vocab_size()
        &&& self.temperature() == other.temperature()
        &&& self.topp() == other.topp()
    }

    /// A sampler that starts its generator at `seed`.
    pub fn new(vocab_size: usize, temperature: Float32, topp: Float32, seed: u64) -> (r: Sampler)
        ensures
            r.vocab_size() == vocab_size,
            r.temperature() == temperature,
            r.topp() == topp,
            r.rng_state() == seed,
    {
        Sampler { vocab_size, temperature, topp, rng_state: seed }
    }

    /// Whether the best token is always taken.
    pub fn is_greedy(&self) -> (r: bool)
        ensures
            r == self.greedy(),
    {
        self.temperature.equals(Float32 { bits: ZERO_BITS })
    }

    /// Steps the generator and returns the random number of its new state.
    pub fn random_u32(&mut self) -> (r: u32)
        ensures
            final(self).same_settings(*old(self)),
            final(self).rng_state() == xorshift(old(self).rng_state()),
            r == scrambled(final(self).rng_state()),
    {
        self.rng_state = self.rng_state ^ (self.rng_state >> 12);
        self.rng_state = self.rng_state ^ (self.rng_state << 25);
        self.rng_state = self.rng_state ^ (self.rng_state >> 27);
        let p: u64 = self.rng_state.wrapping_mul(SCRAMBLE);
        assert((p >> 32) == p / 0x1_0000_0000) by (bit_vector);
        (p >> 32) as u32
    }

    /// Steps the generator and returns a number from 0 up to but not equal to 1.
    pub fn random_f32<F: Fn(Term<Float32>) -> Float32>(&mut self, f: &F) -> (r: Float32)
        requires
            total(*f),
        ensures
            final(self).same_settings(*old(self)),
            final(self).rng_state() == xorshift(old(self).rng_state()),
            evaluates(*f, coin_expr(final(self).rng_state()), r),
    {
        let n: u32 = self.random_u32();
        assert((n >> 8) == n / 0x100) by (bit_vector);
        let above = f(Term::Constant(Constant::Count((n >> 8) as usize)));
        let below = f(Term::Constant(Constant::Count(0x100_0000)));
        let r = f(Term::Binary(BinaryOp::Div, above, below));
        proof {
            let above_e = con(Constant::Count((n >> 8) as usize));
            let below_e = con(Constant::Count(0x100_0000));
            lemma_binary(*f, BinaryOp::Div, above_e, below_e, above, below, r);
        }
        r
    }

    /// Chooses a token from its scores.
    ///
    /// With a temperature of zero this is the best token, and nothing changes. Else the scores
    /// are replaced by their probabilities and a token is drawn.
    pub fn sample<F: Fn(Term<Float32>) -> Float32>(
        &mut self,
        f: &F,
        logits: &mut Vec<Float32>,
    ) -> (r: u32)
        requires
            total(*f),
            old(self).greedy() && old(logits)@.len() >= 2 ==> no_nan(old(logits)@),
            !old(self).greedy() ==> old(logits)@.len() > 0,
        ensures
            final(self).same_settings(*old(self)),
            old(self).greedy() ==> {
                &&& final(self).rng_state() == old(self).rng_state()
                &&& final(logits)@ == old(logits)@
                &&& exists|i: usize| #[trigger]
                    is_argmax(old(logits)@, i as int) && r == i as u32
            },
            !old(self).greedy() ==> {
                &&& final(self).rng_state() == xorshift(old(self).rng_state())
                &&& exists|scaled: Seq<Float32>, coin: Float32, i: usize|
                    {
                        &&& #[trigger] draw_steps(
                            *f,
                            *old(self),
                            old(logits)@,
                            scaled,
                            final(logits)@,
                            coin,
                            i,
                        )
                        &&& r == i as u32
                    }
            },
    {
        if self.is_greedy() {
            let i: usize = sample_argmax(logits.as_slice());
            return i as u32;
        }
        temper(f, logits, self.temperature);
        let ghost scaled = logits@;
        softmax(f, logits.as_mut_slice());
        let coin = self.random_f32(f);
        let i: usize = draw(f, logits.as_slice(), self.topp, coin);
        assert(draw_steps(*f, *old(self), old(logits)@, scaled, logits@, coin, i));
        i as u32
    }
}

/// A token that top-p sampling draws is likely enough, or the likeliest where none is.
pub proof fn law_drawn_token_reaches_cutoff<F: Fn(Term<Float32>) -> Float32>(
    f: F,
    probs: Seq<Float32>,
    topp: Float32,
    coin: Float32,
    i: usize,
)
    requires
        nucleus(f, probs, topp, coin, i),
    ensures
        i < probs.len(),
        exists|cutoff: Float32|
            {
                &&& #[trigger] evaluates(f, cutoff_expr(probs.len() as int, topp), cutoff)
                &&& if reaches(probs, cutoff) {
                    cutoff.le(probs[i as int])
                } else {
                    likeliest(probs, i as int)
                }
            },
{
    let (cutoff, order) = choose|cutoff: Float32, order: Seq<usize>|
        {
            &&& #[trigger] evaluates(f, cutoff_expr(probs.len() as int, topp), cutoff)
            &&& #[trigger] ranked(probs, cutoff, order)
            &&& nucleus_drawn(f, probs, topp, coin, order, i)
        };
    let (last, sum, k) = choose|last: int, sum: Float32, k: int| #[trigger]
        drawn_at(f, probs, topp, coin, order, last, sum, k) && i == order[k];
    assert(0 <= k <= last < order.len());
}

/// A drawn token is one of those that have a probability.
pub proof fn law_drawn_token_exists<F: Fn(Term<Float32>) -> Float32>(
    f: F,
    probs: Seq<Float32>,
    topp: Float32,
    coin: Float32,
    r: usize,
)
    requires
        drawn(f, probs, topp, coin, r),
    ensures
        r < probs.len(),
{
    if limits(topp) {
        law_drawn_token_reaches_cutoff(f, probs, topp, coin, r);
    }
}

} // verus!
