//! Vector routines of the transformer: normalization, softmax, products and sums.
use vstd::prelude::*;
use vstd::slice::slice_subrange;

use crate::scalar::{dot, fold, BinaryOp, Constant, Term, UnaryOp};
use crate::scalar::{
    con, dot_expr, evaluates, fold_expr, minus, over, plus, sum_expr, times, total, unary, val,
    values, Expr,
};
use crate::scalar::{lemma_binary, lemma_unary};

verus! {

/// `1 / sqrt((x[0] * x[0] + .. + x[n - 1] * x[n - 1]) / n + epsilon)`
pub open spec fn inverse_rms<T>(x: Seq<T>) -> Expr<T> {
    over(
        con(Constant::One),
        unary(
            UnaryOp::Sqrt,
            plus(
                over(dot_expr(Constant::EmptySum, x, x), con(Constant::Count(x.len() as usize))),
                con(Constant::Epsilon),
            ),
        ),
    )
}

/// `out` is `before` with its first `x.len()` scalars replaced by those of `x`, divided by their
/// root mean square and scaled by `weight`.
pub open spec fn normalized<T, F: Fn(Term<T>) -> T>(
    f: F,
    x: Seq<T>,
    weight: Seq<T>,
    before: Seq<T>,
    out: Seq<T>,
) -> bool {
    &&& out.len() == before.len()
    &&& exists|ss: T| #[trigger]
        evaluates(f, inverse_rms(x), ss) && scaled_by(f, x, weight, ss, out)
    &&& forall|j: int| x.len() <= j < out.len() ==> #[trigger] out[j] == before[j]
}

/// The first `x.len()` scalars of `out` are `weight[j] * (ss * x[j])`.
pub open spec fn scaled_by<T, F: Fn(Term<T>) -> T>(
    f: F,
    x: Seq<T>,
    weight: Seq<T>,
    ss: T,
    out: Seq<T>,
) -> bool {
    forall|j: int|
        0 <= j < x.len() ==> evaluates(
            f,
            times(val(weight[j]), times(val(ss), val(x[j]))),
            #[trigger] out[j],
        )
}

/// Root mean square layer normalization: `out[j] = weight[j] * (x[j] / rms(x))`.
pub fn rmsnorm<T: Copy, F: Fn(Term<T>) -> T>(f: &F, out: &mut [T], x: &[T], weight: &[T])
    requires
        total(*f),
        x@.len() <= old(out)@.len(),
        x@.len() <= weight@.len(),
    ensures
        normalized(*f, x@, weight@, old(out)@, final(out)@),
{
    let size: usize = x.len();
    let sum = dot(f, Constant::EmptySum, x, x);
    let count = f(Term::Constant(Constant::Count(size)));
    let mean = f(Term::Binary(BinaryOp::Div, sum, count));
    let epsilon = f(Term::Constant(Constant::Epsilon));
    let shifted = f(Term::Binary(BinaryOp::Add, mean, epsilon));
    let root = f(Term::Unary(UnaryOp::Sqrt, shifted));
    let one = f(Term::Constant(Constant::One));
    let ss = f(Term::Binary(BinaryOp::Div, one, root));
    proof {
        let sum_e = dot_expr(Constant::EmptySum, x@, x@);
        let count_e = con(Constant::Count(size));
        let mean_e = over(sum_e, count_e);
        let shifted_e = plus(mean_e, con(Constant::Epsilon));
        lemma_binary(*f, BinaryOp::Div, sum_e, count_e, sum, count, mean);
        lemma_binary(*f, BinaryOp::Add, mean_e, con(Constant::Epsilon), mean, epsilon, shifted);
        lemma_unary(*f, UnaryOp::Sqrt, shifted_e, shifted, root);
        lemma_binary(
            *f,
            BinaryOp::Div,
            con(Constant::One),
            unary(UnaryOp::Sqrt, shifted_e),
            one,
            root,
            ss,
        );
    }
    let mut j: usize = 0;
    while j < size
        invariant
            total(*f),
            j <= size,
            size == x@.len(),
            x@.len() <= out@.len(),
            x@.len() <= weight@.len(),
            out@.len() == old(out)@.len(),
            forall|k: int|
                0 <= k < j ==> evaluates(
                    *f,
                    times(val(weight@[k]), times(val(ss), val(x@[k]))),
                    #[trigger] out@[k],
                ),
            forall|k: int| j <= k < out@.len() ==> #[trigger] out@[k] == old(out)@[k],
        decreases size - j,
    {
        let inner = f(Term::Binary(BinaryOp::Mul, ss, x[j]));
        let outer = f(Term::Binary(BinaryOp::Mul, weight[j], inner));
        proof {
            let xj = x@[j as int];
            let wj = weight@[j as int];
            lemma_binary(*f, BinaryOp::Mul, val(ss), val(xj), ss, xj, inner);
            lemma_binary(*f, BinaryOp::Mul, val(wj), times(val(ss), val(xj)), wj, inner, outer);
        }
        out[j] = outer;
        j += 1;
    }
    assert(scaled_by(*f, x@, weight@, ss, out@));
}

/// `after` holds `exp(x[i] - max)` divided by the sum of these exponentials, where `max` is the
/// largest scalar of `x`.
pub open spec fn softmaxed<T, F: Fn(Term<T>) -> T>(f: F, x: Seq<T>, after: Seq<T>) -> bool {
    &&& after.len() == x.len()
    &&& exists|max: T, exps: Seq<T>, sum: T| #[trigger] softmax_steps(f, x, max, exps, sum, after)
}

/// The intermediate values of a softmax.
pub open spec fn softmax_steps<T, F: Fn(Term<T>) -> T>(
    f: F,
    x: Seq<T>,
    max: T,
    exps: Seq<T>,
    sum: T,
    after: Seq<T>,
) -> bool {
    &&& evaluates(f, fold_expr(BinaryOp::Max, con(Constant::NegInfinity), values(x)), max)
    &&& exps.len() == x.len()
    &&& forall|i: int|
        0 <= i < x.len() ==> evaluates(
            f,
            unary(UnaryOp::Exp, minus(val(x[i]), val(max))),
            #[trigger] exps[i],
        )
    &&& evaluates(f, sum_expr(Constant::Zero, exps), sum)
    &&& forall|i: int|
        0 <= i < x.len() ==> evaluates(f, over(val(exps[i]), val(sum)), #[trigger] after[i])
}

/// Turns scores into probabilities. The largest score is subtracted first, so that no
/// exponential is larger than one.
pub fn softmax<T: Copy, F: Fn(Term<T>) -> T>(f: &F, x: &mut [T])
    requires
        total(*f),
    ensures
        softmaxed(*f, old(x)@, final(x)@),
{
    let n: usize = x.len();
    let max = fold(f, BinaryOp::Max, Constant::NegInfinity, x);
    let mut i: usize = 0;
    while i < n
        invariant
            total(*f),
            i <= n,
            n == x@.len(),
            x@.len() == old(x)@.len(),
            forall|k: int|
                0 <= k < i ==> evaluates(
                    *f,
                    unary(UnaryOp::Exp, minus(val(old(x)@[k]), val(max))),
                    #[trigger] x@[k],
                ),
            forall|k: int| i <= k < n ==> #[trigger] x@[k] == old(x)@[k],
        decreases n - i,
    {
        let xi = x[i];
        let below = f(Term::Binary(BinaryOp::Sub, xi, max));
        let e = f(Term::Unary(UnaryOp::Exp, below));
        proof {
            lemma_binary(*f, BinaryOp::Sub, val(xi), val(max), xi, max, below);
            lemma_unary(*f, UnaryOp::Exp, minus(val(xi), val(max)), below, e);
        }
        x[i] = e;
        i += 1;
    }
    let ghost exps = x@;
    let sum = fold(f, BinaryOp::Add, Constant::Zero, x);
    let mut i: usize = 0;
    while i < n
        invariant
            total(*f),
            i <= n,
            n == x@.len(),
            n == exps.len(),
            forall|k: int|
                0 <= k < i ==> evaluates(*f, over(val(exps[k]), val(sum)), #[trigger] x@[k]),
            forall|k: int| i <= k < n ==> #[trigger] x@[k] == exps[k],
        decreases n - i,
    {
        let xi = x[i];
        let p = f(Term::Binary(BinaryOp::Div, xi, sum));
        proof {
            lemma_binary(*f, BinaryOp::Div, val(xi), val(sum), xi, sum, p);
        }
        x[i] = p;
        i += 1;
    }
    assert(softmax_steps(*f, old(x)@, max, exps, sum, x@));
}

/// Row `i` of a matrix whose rows of `n` scalars stand one after the other in `w`.
pub open spec fn row<T>(w: Seq<T>, n: int, i: int) -> Seq<T> {
    w.subrange(i * n, (i + 1) * n)
}

/// `out` is `before` with its first `d` scalars replaced by the product of the `d` by `n` matrix
/// `w` with `x`.
pub open spec fn multiplied<T, F: Fn(Term<T>) -> T>(
    f: F,
    x: Seq<T>,
    w: Seq<T>,
    n: int,
    d: int,
    before: Seq<T>,
    out: Seq<T>,
) -> bool {
    &&& out.len() == before.len()
    &&& forall|i: int|
        0 <= i < d ==> evaluates(
            f,
            dot_expr(Constant::EmptySum, row(w, n, i), x),
            #[trigger] out[i],
        )
    &&& forall|i: int| d <= i < out.len() ==> #[trigger] out[i] == before[i]
}

/// A row lies within a matrix that has it.
pub proof fn lemma_row_bounds(i: int, n: int, d: int)
    requires
        0 <= i < d,
        0 <= n,
    ensures
        0 <= i * n,
        i * n + n == (i + 1) * n,
        (i + 1) * n <= d * n,
{
    assert(0 <= i * n && i * n + n == (i + 1) * n && (i + 1) * n <= d * n) by (nonlinear_arith)
        requires
            0 <= i < d,
            0 <= n,
    ;
}

/// Matrix-vector product: row `i` of the row-major `d` by `n` matrix `w` times `x` goes to
/// `out[i]`.
pub fn matmul<T: Copy, F: Fn(Term<T>) -> T>(
    f: &F,
    out: &mut [T],
    x: &[T],
    w: &[T],
    n: usize,
    d: usize,
)
    requires
        total(*f),
        d <= old(out)@.len(),
        d * n <= w@.len(),
    ensures
        multiplied(*f, x@, w@, n as int, d as int, old(out)@, final(out)@),
{
    let mut i: usize = 0;
    while i < d
        invariant
            total(*f),
            i <= d,
            d <= out@.len(),
            d * n <= w@.len(),
            out@.len() == old(out)@.len(),
            forall|k: int|
                0 <= k < i ==> evaluates(
                    *f,
                    dot_expr(Constant::EmptySum, row(w@, n as int, k), x@),
                    #[trigger] out@[k],
                ),
            forall|k: int| i <= k < out@.len() ==> #[trigger] out@[k] == old(out)@[k],
        decreases d - i,
    {
        proof {
            lemma_row_bounds(i as int, n as int, d as int);
            assert(w@.len() == w.len());
        }
        let start: usize = i * n;
        let r = dot(f, Constant::EmptySum, slice_subrange(w, start, start + n), x);
        out[i] = r;
        i += 1;
    }
}

/// `after` is `a` with `b[i]` added to `a[i]`, as far as both go.
pub open spec fn accumulated<T, F: Fn(Term<T>) -> T>(
    f: F,
    a: Seq<T>,
    b: Seq<T>,
    after: Seq<T>,
) -> bool {
    &&& after.len() == a.len()
    &&& forall|i: int|
        0 <= i < a.len() && i < b.len() ==> evaluates(
            f,
            plus(val(a[i]), val(b[i])),
            #[trigger] after[i],
        )
    &&& forall|i: int| b.len() <= i < a.len() ==> #[trigger] after[i] == a[i]
}

/// Adds `b` to `a`, scalar by scalar, as far as both go.
pub fn accum<T: Copy, F: Fn(Term<T>) -> T>(f: &F, a: &mut [T], b: &[T])
    requires
        total(*f),
    ensures
        accumulated(*f, old(a)@, b@, final(a)@),
{
    let n: usize = if a.len() <= b.len() {
        a.len()
    } else {
        b.len()
    };
    let mut i: usize = 0;
    while i < n
        invariant
            total(*f),
            i <= n,
            n <= a@.len(),
            n <= b@.len(),
            a@.len() == old(a)@.len(),
            forall|k: int|
                0 <= k < i ==> evaluates(
                    *f,
                    plus(val(old(a)@[k]), val(b@[k])),
                    #[trigger] a@[k],
                ),
            forall|k: int| i <= k < a@.len() ==> #[trigger] a@[k] == old(a)@[k],
        decreases n - i,
    {
        let ai = a[i];
        let bi = b[i];
        let s = f(Term::Binary(BinaryOp::Add, ai, bi));
        proof {
            lemma_binary(*f, BinaryOp::Add, val(ai), val(bi), ai, bi, s);
        }
        a[i] = s;
        i += 1;
    }
}

/// Copies `src` over `dst`, which is as long.
pub fn copy_into<T: Copy>(dst: &mut [T], src: &[T])
    requires
        old(dst)@.len() == src@.len(),
    ensures
        final(dst)@ == src@,
{
    let mut i: usize = 0;
    while i < src.len()
        invariant
            i <= src@.len(),
            dst@.len() == src@.len(),
            forall|k: int| 0 <= k < i ==> #[trigger] dst@[k] == src@[k],
        decreases src@.len() - i,
    {
        dst[i] = src[i];
        i += 1;
    }
    assert(dst@ =~= src@);
}

} // verus!
