//! What the formulas mean where the arithmetic unit computes with real numbers.
//!
//! The laws take a reading `v` of the scalars as real numbers. They say what the results are in
//! terms of the inputs, read that way, for a unit whose every answer is the true result of its
//! term.
use vstd::arithmetic::power2::pow2;
use vstd::prelude::*;

use crate::float::{law_order_is_that_of_the_numbers, Float32, ONE_BITS, ZERO_BITS};
use crate::math::{accumulated, inverse_rms, multiplied, normalized, row, scaled_by};
use crate::math::{softmax_steps, softmaxed};
use crate::scalar::{
    con, dot_expr, evaluates, fold_expr, gives, minus, over, plus, products, times, unary, val,
    values, BinaryOp, Constant, Expr, Term, UnaryOp,
};

verus! {

/// The functions of real numbers that a unit's operations stand for.
pub struct Functions {
    pub sqrt: spec_fn(real) -> real,
    pub exp: spec_fn(real) -> real,
    pub sin: spec_fn(real) -> real,
    pub cos: spec_fn(real) -> real,
    pub pow: spec_fn(real, real) -> real,
}

/// `y` is the true result of the term `t`. A division by zero may have any result, and so may
/// the constant below all numbers.
pub open spec fn true_result<T>(
    v: spec_fn(T) -> real,
    g: Functions,
    t: Term<T>,
    y: real,
) -> bool {
    match t {
        Term::Constant(Constant::Zero) => y == 0 as real,
        Term::Constant(Constant::EmptySum) => y == 0 as real,
        Term::Constant(Constant::One) => y == 1 as real,
        Term::Constant(Constant::NegInfinity) => true,
        Term::Constant(Constant::Epsilon) => y * (100000 as real) == 1 as real,
        Term::Constant(Constant::RopeBase) => y == 10000 as real,
        Term::Constant(Constant::Count(n)) => y == n as real,
        Term::Unary(UnaryOp::Neg, a) => y == -v(a),
        Term::Unary(UnaryOp::Sqrt, a) => y == (g.sqrt)(v(a)),
        Term::Unary(UnaryOp::Exp, a) => y == (g.exp)(v(a)),
        Term::Unary(UnaryOp::Sin, a) => y == (g.sin)(v(a)),
        Term::Unary(UnaryOp::Cos, a) => y == (g.cos)(v(a)),
        Term::Binary(BinaryOp::Add, a, b) => y == v(a) + v(b),
        Term::Binary(BinaryOp::Sub, a, b) => y == v(a) - v(b),
        Term::Binary(BinaryOp::Mul, a, b) => y == v(a) * v(b),
        Term::Binary(BinaryOp::Div, a, b) => v(b) != 0 as real ==> y == v(a) / v(b),
        Term::Binary(BinaryOp::Max, a, b) => y == if v(a) < v(b) {
            v(b)
        } else {
            v(a)
        },
        Term::Binary(BinaryOp::Pow, a, b) => y == (g.pow)(v(a), v(b)),
    }
}

/// Every answer of the unit is the true result of its term.
pub open spec fn truthful<T, F: Fn(Term<T>) -> T>(
    f: F,
    v: spec_fn(T) -> real,
    g: Functions,
) -> bool {
    forall|t: Term<T>, r: T| #[trigger] gives(f, t, r) ==> true_result(v, g, t, v(r))
}

/// The functions are those of their names, as far as the laws ask.
pub open spec fn true_functions(g: Functions) -> bool {
    &&& forall|y: real|
        y > 0 as real ==> #[trigger] (g.sqrt)(y) > 0 as real && (g.sqrt)(y) * (g.sqrt)(y) == y
    &&& forall|y: real| #[trigger] (g.exp)(y) > 0 as real
    &&& forall|y: real, z: real| #[trigger] (g.exp)(y + z) == (g.exp)(y) * (g.exp)(z)
    &&& forall|y: real|
        #[trigger] (g.cos)(y) * (g.cos)(y) + (g.sin)(y) * (g.sin)(y) == 1 as real
    &&& forall|b: real, y: real| b > 1 as real ==> #[trigger] (g.pow)(b, y) > 0 as real
    &&& forall|b: real| b > 1 as real ==> #[trigger] (g.pow)(b, 0 as real) == 1 as real
    &&& forall|b: real, y: real, z: real|
        b > 1 as real && y < z ==> #[trigger] (g.pow)(b, y) < #[trigger] (g.pow)(b, z)
}

/// The sum of real numbers.
pub open spec fn real_sum(xs: Seq<real>) -> real
    decreases xs.len(),
{
    if xs.len() == 0 {
        0 as real
    } else {
        real_sum(xs.drop_last()) + xs.last()
    }
}

/// The operands of a formula's last operation.
pub proof fn lemma_operands<T, F: Fn(Term<T>) -> T>(
    f: F,
    op: BinaryOp,
    a: Expr<T>,
    b: Expr<T>,
    r: T,
) -> (xy: (T, T))
    requires
        evaluates(f, crate::scalar::binary(op, a, b), r),
    ensures
        evaluates(f, a, xy.0),
        evaluates(f, b, xy.1),
        gives(f, Term::Binary(op, xy.0, xy.1), r),
{
    choose|x: T, y: T|
        evaluates(f, a, x) && evaluates(f, b, y) && #[trigger] gives(f, Term::Binary(op, x, y), r)
}

pub proof fn lemma_operand<T, F: Fn(Term<T>) -> T>(f: F, op: UnaryOp, a: Expr<T>, r: T) -> (x: T)
    requires
        evaluates(f, unary(op, a), r),
    ensures
        evaluates(f, a, x),
        gives(f, Term::Unary(op, x), r),
{
    choose|x: T| evaluates(f, a, x) && #[trigger] gives(f, Term::Unary(op, x), r)
}

/// A sum of formulas is the sum of what each stands for.
pub proof fn lemma_fold_is_sum<T, F: Fn(Term<T>) -> T>(
    f: F,
    v: spec_fn(T) -> real,
    g: Functions,
    start: Constant,
    xs: Seq<Expr<T>>,
    ys: Seq<real>,
    r: T,
)
    requires
        truthful(f, v, g),
        start == Constant::Zero || start == Constant::EmptySum,
        xs.len() == ys.len(),
        forall|i: int, x: T|
            0 <= i < xs.len() && #[trigger] evaluates(f, xs[i], x) ==> v(x) == ys[i],
        evaluates(f, fold_expr(BinaryOp::Add, con(start), xs), r),
    ensures
        v(r) == real_sum(ys),
    decreases xs.len(),
{
    if xs.len() > 0 {
        let n = xs.len() - 1;
        let (x, y) = lemma_operands(
            f,
            BinaryOp::Add,
            fold_expr(BinaryOp::Add, con(start), xs.drop_last()),
            xs.last(),
            r,
        );
        assert forall|i: int, z: T|
            0 <= i < n && #[trigger] evaluates(f, xs.drop_last()[i], z) implies v(z)
            == ys.drop_last()[i] by {
            assert(evaluates(f, xs[i], z));
        }
        lemma_fold_is_sum(f, v, g, start, xs.drop_last(), ys.drop_last(), x);
        assert(evaluates(f, xs[n], y));
    }
}

/// An inner product is the sum of the products, pair by pair.
pub proof fn law_inner_product<T, F: Fn(Term<T>) -> T>(
    f: F,
    v: spec_fn(T) -> real,
    g: Functions,
    start: Constant,
    a: Seq<T>,
    b: Seq<T>,
    r: T,
)
    requires
        truthful(f, v, g),
        start == Constant::Zero || start == Constant::EmptySum,
        a.len() == b.len(),
        evaluates(f, dot_expr(start, a, b), r),
    ensures
        v(r) == real_sum(Seq::new(a.len(), |i: int| v(a[i]) * v(b[i]))),
{
    let ys = Seq::new(a.len(), |i: int| v(a[i]) * v(b[i]));
    let xs = products(a, b);
    assert forall|i: int, x: T|
        0 <= i < xs.len() && #[trigger] evaluates(f, xs[i], x) implies v(x) == ys[i] by {
        let (p, q) = lemma_operands(f, BinaryOp::Mul, val(a[i]), val(b[i]), x);
    }
    lemma_fold_is_sum(f, v, g, start, xs, ys, r);
}

/// Row `i` of a matrix, written row after row, times a vector.
pub proof fn law_matrix_product<T, F: Fn(Term<T>) -> T>(
    f: F,
    v: spec_fn(T) -> real,
    g: Functions,
    x: Seq<T>,
    w: Seq<T>,
    d: int,
    before: Seq<T>,
    out: Seq<T>,
    i: int,
)
    requires
        truthful(f, v, g),
        multiplied(f, x, w, x.len() as int, d, before, out),
        0 <= i < d <= out.len(),
        d * x.len() <= w.len(),
    ensures
        v(out[i]) == real_sum(Seq::new(x.len(), |j: int| v(w[i * x.len() + j]) * v(x[j]))),
{
    let n = x.len() as int;
    crate::math::lemma_row_bounds(i, n, d);
    let a = row(w, n, i);
    law_inner_product(f, v, g, Constant::EmptySum, a, x, out[i]);
    assert(Seq::new(a.len(), |j: int| v(a[j]) * v(x[j])) =~= Seq::new(
        x.len(),
        |j: int| v(w[i * x.len() + j]) * v(x[j]),
    ));
}

/// A sum of squares is not negative.
proof fn lemma_squares_are_not_negative(xs: Seq<real>, ys: Seq<real>)
    requires
        xs.len() == ys.len(),
        forall|i: int| 0 <= i < xs.len() ==> #[trigger] xs[i] == ys[i] * ys[i],
    ensures
        real_sum(xs) >= 0 as real,
    decreases xs.len(),
{
    if xs.len() > 0 {
        let y = ys.last();
        assert(y * y >= 0 as real) by (nonlinear_arith);
        assert(xs[xs.len() - 1] == ys[xs.len() - 1] * ys[xs.len() - 1]);
        lemma_squares_are_not_negative(xs.drop_last(), ys.drop_last());
    }
}

/// Each term of a sum times `k`.
pub proof fn lemma_sum_scales(xs: Seq<real>, ys: Seq<real>, k: real)
    requires
        xs.len() == ys.len(),
        forall|i: int| 0 <= i < xs.len() ==> #[trigger] ys[i] == xs[i] * k,
    ensures
        real_sum(ys) == real_sum(xs) * k,
    decreases xs.len(),
{
    if xs.len() == 0 {
        assert((0 as real) * k == 0 as real) by (nonlinear_arith);
    } else {
        lemma_sum_scales(xs.drop_last(), ys.drop_last(), k);
        let a = real_sum(xs.drop_last());
        let b = xs.last();
        assert(ys[ys.len() - 1] == xs[xs.len() - 1] * k);
        assert(a * k + b * k == (a + b) * k) by (nonlinear_arith);
    }
}

pub proof fn lemma_positive_sum(xs: Seq<real>)
    requires
        xs.len() > 0,
        forall|i: int| 0 <= i < xs.len() ==> #[trigger] xs[i] > 0 as real,
    ensures
        real_sum(xs) > 0 as real,
    decreases xs.len(),
{
    assert(xs[xs.len() - 1] > 0 as real);
    if xs.len() == 1 {
        assert(xs.drop_last() =~= Seq::<real>::empty());
        assert(real_sum(xs.drop_last()) == 0 as real);
    } else {
        lemma_positive_sum(xs.drop_last());
    }
}

/// A normalized scalar, times the root mean square of the input, is the input's scalar times its
/// weight. Under the root stands the mean of the squares plus one part in a hundred thousand.
pub proof fn law_normalization<T, F: Fn(Term<T>) -> T>(
    f: F,
    v: spec_fn(T) -> real,
    g: Functions,
    x: Seq<T>,
    weight: Seq<T>,
    before: Seq<T>,
    out: Seq<T>,
    j: int,
)
    requires
        truthful(f, v, g),
        true_functions(g),
        x.len() <= usize::MAX,
        normalized(f, x, weight, before, out),
        0 <= j < x.len() <= out.len(),
    ensures
        v(out[j]) * (g.sqrt)(
            real_sum(Seq::new(x.len(), |i: int| v(x[i]) * v(x[i]))) / (x.len() as real)
                + (1 as real) / (100000 as real),
        ) == v(weight[j]) * v(x[j]),
{
    let ss = choose|ss: T| #[trigger]
        evaluates(f, inverse_rms(x), ss) && scaled_by(f, x, weight, ss, out);
    let dot_e = dot_expr(Constant::EmptySum, x, x);
    let count_e = con::<T>(Constant::Count(x.len() as usize));
    let mean_e = over(dot_e, count_e);
    let shifted_e = plus(mean_e, con(Constant::Epsilon));
    let root_e = unary(UnaryOp::Sqrt, shifted_e);
    let (one, root) = lemma_operands(f, BinaryOp::Div, con(Constant::One), root_e, ss);
    let shifted = lemma_operand(f, UnaryOp::Sqrt, shifted_e, root);
    let (mean, eps) = lemma_operands(f, BinaryOp::Add, mean_e, con(Constant::Epsilon), shifted);
    let (dot, count) = lemma_operands(f, BinaryOp::Div, dot_e, count_e, mean);
    law_inner_product(f, v, g, Constant::EmptySum, x, x, dot);
    let squares = Seq::new(x.len(), |i: int| v(x[i]) * v(x[i]));
    let n = x.len() as real;
    let sum = real_sum(squares);
    lemma_squares_are_not_negative(squares, Seq::new(x.len(), |i: int| v(x[i])));
    assert(n > 0 as real);
    let e = v(eps);
    assert(e == (1 as real) / (100000 as real)) by (nonlinear_arith)
        requires
            e * (100000 as real) == 1 as real,
    ;
    assert(sum / n >= 0 as real) by (nonlinear_arith)
        requires
            sum >= 0 as real,
            n > 0 as real,
    ;
    let under = sum / n + (1 as real) / (100000 as real);
    assert(under > 0 as real);
    let s = (g.sqrt)(under);
    assert(v(root) == s && s > 0 as real);
    assert(evaluates(f, times(val(weight[j]), times(val(ss), val(x[j]))), out[j]));
    let inner_e = times(val(ss), val(x[j]));
    let (wj, inner) = lemma_operands(f, BinaryOp::Mul, val(weight[j]), inner_e, out[j]);
    let (sj, xj) = lemma_operands(f, BinaryOp::Mul, val(ss), val(x[j]), inner);
    let a = v(weight[j]);
    let b = v(x[j]);
    let r = v(ss);
    assert((a * (r * b)) * s == a * b) by (nonlinear_arith)
        requires
            r == (1 as real) / s,
            s > 0 as real,
    ;
}

/// A probability, times the sum of the exponentials of all scores, is the exponential of its own
/// score.
pub proof fn law_softmax<T, F: Fn(Term<T>) -> T>(
    f: F,
    v: spec_fn(T) -> real,
    g: Functions,
    x: Seq<T>,
    after: Seq<T>,
    i: int,
)
    requires
        truthful(f, v, g),
        true_functions(g),
        softmaxed(f, x, after),
        0 <= i < x.len(),
    ensures
        v(after[i]) * real_sum(Seq::new(x.len(), |j: int| (g.exp)(v(x[j])))) == (g.exp)(v(x[i])),
{
    let (max, exps, sum) = choose|max: T, exps: Seq<T>, sum: T| #[trigger]
        softmax_steps(f, x, max, exps, sum, after);
    let es = Seq::new(x.len(), |j: int| v(exps[j]));
    let full = Seq::new(x.len(), |j: int| (g.exp)(v(x[j])));
    let em = (g.exp)(v(max));
    assert forall|j: int| 0 <= j < x.len() implies v(#[trigger] exps[j]) > 0 as real
        && (g.exp)(v(x[j])) == v(exps[j]) * em by {
        let diff_e = minus(val(x[j]), val(max));
        assert(evaluates(f, unary(UnaryOp::Exp, diff_e), exps[j]));
        let diff = lemma_operand(f, UnaryOp::Exp, diff_e, exps[j]);
        let (p, q) = lemma_operands(f, BinaryOp::Sub, val(x[j]), val(max), diff);
        assert(v(diff) + v(max) == v(x[j]));
        assert((g.exp)(v(diff) + v(max)) == (g.exp)(v(diff)) * em);
    }
    let vs = values(exps);
    assert forall|j: int, z: T|
        0 <= j < vs.len() && #[trigger] evaluates(f, vs[j], z) implies v(z) == es[j] by {
    }
    lemma_fold_is_sum(f, v, g, Constant::Zero, vs, es, sum);
    assert forall|j: int| 0 <= j < es.len() implies #[trigger] es[j] > 0 as real by {
        assert(v(exps[j]) > 0 as real);
    }
    lemma_positive_sum(es);
    assert forall|j: int| 0 <= j < es.len() implies #[trigger] full[j] == es[j] * em by {
        assert(v(exps[j]) > 0 as real);
    }
    lemma_sum_scales(es, full, em);
    assert(evaluates(f, over(val(exps[i]), val(sum)), after[i]));
    let (p, q) = lemma_operands(f, BinaryOp::Div, val(exps[i]), val(sum), after[i]);
    let s = v(sum);
    let e = v(exps[i]);
    let r = v(after[i]);
    assert(r * (s * em) == e * em) by (nonlinear_arith)
        requires
            r == e / s,
            s > 0 as real,
    ;
    assert(v(exps[i]) > 0 as real);
}

/// Probabilities lie above zero, and add up to one.
pub proof fn law_softmax_is_a_distribution<T, F: Fn(Term<T>) -> T>(
    f: F,
    v: spec_fn(T) -> real,
    g: Functions,
    x: Seq<T>,
    after: Seq<T>,
)
    requires
        truthful(f, v, g),
        true_functions(g),
        softmaxed(f, x, after),
        x.len() > 0,
    ensures
        real_sum(Seq::new(x.len(), |i: int| v(after[i]))) == 1 as real,
        forall|i: int| 0 <= i < x.len() ==> v(#[trigger] after[i]) > 0 as real,
{
    let full = Seq::new(x.len(), |j: int| (g.exp)(v(x[j])));
    let probs = Seq::new(x.len(), |i: int| v(after[i]));
    assert forall|i: int| 0 <= i < full.len() implies #[trigger] full[i] > 0 as real by {
    }
    lemma_positive_sum(full);
    let s = real_sum(full);
    assert forall|i: int| 0 <= i < x.len() implies v(#[trigger] after[i]) > 0 as real
        && full[i] == probs[i] * s by {
        law_softmax(f, v, g, x, after, i);
        let p = v(after[i]);
        let e = full[i];
        assert(p > 0 as real) by (nonlinear_arith)
            requires
                p * s == e,
                e > 0 as real,
                s > 0 as real,
        ;
    }
    assert forall|i: int| 0 <= i < probs.len() implies #[trigger] full[i] == probs[i] * s by {
        assert(v(after[i]) > 0 as real);
    }
    lemma_sum_scales(probs, full, s);
    let t = real_sum(probs);
    assert(t == 1 as real) by (nonlinear_arith)
        requires
            s == t * s,
            s > 0 as real,
    ;
}

/// A residual connection adds place by place.
pub proof fn law_accumulation<T, F: Fn(Term<T>) -> T>(
    f: F,
    v: spec_fn(T) -> real,
    g: Functions,
    a: Seq<T>,
    b: Seq<T>,
    after: Seq<T>,
    i: int,
)
    requires
        truthful(f, v, g),
        accumulated(f, a, b, after),
        0 <= i < a.len() == b.len(),
    ensures
        v(after[i]) == v(a[i]) + v(b[i]),
{
    assert(evaluates(f, plus(val(a[i]), val(b[i])), after[i]));
    let (p, q) = lemma_operands(f, BinaryOp::Add, val(a[i]), val(b[i]), after[i]);
}

/// The number that single-precision bits stand for, in units of `2^-149`.
pub open spec fn units(x: Float32) -> int {
    let e = x.bits as int / 0x80_0000 % 0x100;
    let m = x.bits as int % 0x80_0000;
    let size = if e == 0 {
        m
    } else {
        (0x80_0000 + m) * pow2((e - 1) as nat)
    };
    size * (1 - 2 * (x.bits as int / 0x8000_0000))
}

/// The number that single-precision bits stand for.
pub open spec fn number(x: Float32) -> real {
    (units(x) as real) / (pow2(149) as real)
}

/// Bits compare as the numbers do that they stand for.
pub proof fn law_bits_compare_as_numbers(a: Float32, b: Float32)
    requires
        !a.nan(),
        !b.nan(),
    ensures
        a.lt(b) <==> number(a) < number(b),
        a.le(b) <==> number(a) <= number(b),
        a.same(b) <==> number(a) == number(b),
        a.rank() < b.rank() <==> number(a) < number(b),
        a.rank() == b.rank() <==> number(a) == number(b),
{
    let x = a.bits as int;
    let y = b.bits as int;
    law_order_is_that_of_the_numbers(
        a,
        x / 0x8000_0000,
        x / 0x80_0000 % 0x100,
        x % 0x80_0000,
        b,
        y / 0x8000_0000,
        y / 0x80_0000 % 0x100,
        y % 0x80_0000,
    );
    vstd::arithmetic::power2::lemma_pow2_pos(149);
    let p = units(a) as real;
    let q = units(b) as real;
    let d = pow2(149) as real;
    assert(d > 0 as real);
    assert((p < q <==> p / d < q / d) && (p == q <==> p / d == q / d)) by (nonlinear_arith)
        requires
            d > 0 as real,
    ;
}

/// The bits that stand for zero and one.
pub proof fn law_zero_and_one()
    ensures
        number(Float32 { bits: ZERO_BITS }) == 0 as real,
        number(Float32 { bits: ONE_BITS }) == 1 as real,
        !(Float32 { bits: ZERO_BITS }).nan(),
        !(Float32 { bits: ONE_BITS }).nan(),
{
    vstd::arithmetic::power2::lemma2_to64();
    vstd::arithmetic::power2::lemma_pow2_adds(23, 126);
    vstd::arithmetic::power2::lemma_pow2_pos(149);
    let d = pow2(149) as real;
    assert(d > 0 as real);
    assert((0 as real) / d == 0 as real && d / d == 1 as real) by (nonlinear_arith)
        requires
            d > 0 as real,
    ;
    assert(units(Float32 { bits: ONE_BITS }) == 0x80_0000 * pow2(126));
    assert(units(Float32 { bits: ZERO_BITS }) == 0);
}

} // verus!
