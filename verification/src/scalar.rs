//! Arithmetic on scalars whose representation the library does not fix.
//!
//! Every numeric routine of the library takes an arithmetic unit: a function that answers one
//! [`Term`] at a time. What a routine computes is stated as a formula, an [`Expr`], together with
//! the relation [`evaluates`] that ties a formula to the values the unit may answer it with. A
//! unit need not answer the same term twice in the same way.
use vstd::prelude::*;

verus! {

/// A number that the routines write down themselves.
#[derive(Clone, Copy)]
pub enum Constant {
    /// 0
    Zero,
    /// The sum of no numbers. A floating-point unit may answer with a negative zero.
    EmptySum,
    /// 1
    One,
    /// Less than or equal to every other number.
    NegInfinity,
    /// The 1e-5 that keeps a root mean square away from zero.
    Epsilon,
    /// The 10000 that rotary position frequencies are powers of.
    RopeBase,
    /// A count of things.
    Count(usize),
}

/// Operations on one scalar.
#[derive(Clone, Copy)]
pub enum UnaryOp {
    /// The additive inverse.
    Neg,
    /// The square root.
    Sqrt,
    /// The natural exponential.
    Exp,
    /// The sine of an angle in radians.
    Sin,
    /// The cosine of an angle in radians.
    Cos,
}

/// Operations on two scalars, the left operand first.
#[derive(Clone, Copy)]
pub enum BinaryOp {
    /// Left plus right.
    Add,
    /// Left minus right.
    Sub,
    /// Left times right.
    Mul,
    /// Left divided by right.
    Div,
    /// The larger of the two.
    Max,
    /// Left to the power of right.
    Pow,
}

/// One request to an arithmetic unit.
pub enum Term<T> {
    /// Produce a constant.
    Constant(Constant),
    /// Apply an operation to one scalar.
    Unary(UnaryOp, T),
    /// Apply an operation to two scalars.
    Binary(BinaryOp, T, T),
}

/// The unit answers every term.
pub open spec fn total<T, F: Fn(Term<T>) -> T>(f: F) -> bool {
    forall|t: Term<T>| #[trigger] call_requires(f, (t,))
}

/// `r` is an answer the unit may give to `t`.
pub open spec fn gives<T, F: Fn(Term<T>) -> T>(f: F, t: Term<T>, r: T) -> bool {
    call_ensures(f, (t,), r)
}

/// A formula over scalars.
pub enum Expr<T> {
    /// A scalar already at hand.
    Value(T),
    /// A constant.
    Constant(Constant),
    /// An operation on one formula.
    Unary(UnaryOp, Box<Expr<T>>),
    /// An operation on two formulas.
    Binary(BinaryOp, Box<Expr<T>>, Box<Expr<T>>),
}

/// `r` is a value that the formula `e` takes when `f` answers its operations from the inside out.
pub open spec fn evaluates<T, F: Fn(Term<T>) -> T>(f: F, e: Expr<T>, r: T) -> bool
    decreases e,
{
    match e {
        Expr::Value(v) => r == v,
        Expr::Constant(c) => gives(f, Term::Constant(c), r),
        Expr::Unary(op, a) => exists|x: T|
            evaluates(f, *a, x) && #[trigger] gives(f, Term::Unary(op, x), r),
        Expr::Binary(op, a, b) => exists|x: T, y: T|
            evaluates(f, *a, x) && evaluates(f, *b, y) && #[trigger] gives(
                f,
                Term::Binary(op, x, y),
                r,
            ),
    }
}

/// The formula of a scalar at hand.
pub open spec fn val<T>(v: T) -> Expr<T> {
    Expr::Value(v)
}

/// The formula of a constant.
pub open spec fn con<T>(c: Constant) -> Expr<T> {
    Expr::Constant(c)
}

/// `op a`
pub open spec fn unary<T>(op: UnaryOp, a: Expr<T>) -> Expr<T> {
    Expr::Unary(op, Box::new(a))
}

/// `a op b`
pub open spec fn binary<T>(op: BinaryOp, a: Expr<T>, b: Expr<T>) -> Expr<T> {
    Expr::Binary(op, Box::new(a), Box::new(b))
}

/// `a + b`
pub open spec fn plus<T>(a: Expr<T>, b: Expr<T>) -> Expr<T> {
    binary(BinaryOp::Add, a, b)
}

/// `a - b`
pub open spec fn minus<T>(a: Expr<T>, b: Expr<T>) -> Expr<T> {
    binary(BinaryOp::Sub, a, b)
}

/// `a * b`
pub open spec fn times<T>(a: Expr<T>, b: Expr<T>) -> Expr<T> {
    binary(BinaryOp::Mul, a, b)
}

/// `a / b`
pub open spec fn over<T>(a: Expr<T>, b: Expr<T>) -> Expr<T> {
    binary(BinaryOp::Div, a, b)
}

/// `(..((init op xs[0]) op xs[1]) op ..) op xs[n - 1]`
pub open spec fn fold_expr<T>(op: BinaryOp, init: Expr<T>, xs: Seq<Expr<T>>) -> Expr<T>
    decreases xs.len(),
{
    if xs.len() == 0 {
        init
    } else {
        binary(op, fold_expr(op, init, xs.drop_last()), xs.last())
    }
}

/// The scalars of `xs`, each as a formula.
pub open spec fn values<T>(xs: Seq<T>) -> Seq<Expr<T>> {
    xs.map_values(|x: T| val(x))
}

/// The products of the scalars of `a` with those of `b`, pair by pair as far as both go.
pub open spec fn products<T>(a: Seq<T>, b: Seq<T>) -> Seq<Expr<T>> {
    Seq::new(
        if a.len() <= b.len() {
            a.len()
        } else {
            b.len()
        },
        |i: int| times(val(a[i]), val(b[i])),
    )
}

/// The scalars of `xs` added up from the left, beginning with `start`.
pub open spec fn sum_expr<T>(start: Constant, xs: Seq<T>) -> Expr<T> {
    fold_expr(BinaryOp::Add, con(start), values(xs))
}

/// The inner product of `a` and `b`, added up from the left, beginning with `start`.
pub open spec fn dot_expr<T>(start: Constant, a: Seq<T>, b: Seq<T>) -> Expr<T> {
    fold_expr(BinaryOp::Add, con(start), products(a, b))
}

/// How the value of an operation on one formula arises.
pub proof fn lemma_unary<T, F: Fn(Term<T>) -> T>(f: F, op: UnaryOp, a: Expr<T>, x: T, r: T)
    requires
        evaluates(f, a, x),
        gives(f, Term::Unary(op, x), r),
    ensures
        evaluates(f, unary(op, a), r),
{
}

/// How the value of an operation on two formulas arises.
pub proof fn lemma_binary<T, F: Fn(Term<T>) -> T>(
    f: F,
    op: BinaryOp,
    a: Expr<T>,
    b: Expr<T>,
    x: T,
    y: T,
    r: T,
)
    requires
        evaluates(f, a, x),
        evaluates(f, b, y),
        gives(f, Term::Binary(op, x, y), r),
    ensures
        evaluates(f, binary(op, a, b), r),
{
}

/// How the value of a fold grows by one more formula.
pub proof fn lemma_fold_push<T, F: Fn(Term<T>) -> T>(
    f: F,
    op: BinaryOp,
    init: Expr<T>,
    xs: Seq<Expr<T>>,
    e: Expr<T>,
    acc: T,
    x: T,
    r: T,
)
    requires
        evaluates(f, fold_expr(op, init, xs), acc),
        evaluates(f, e, x),
        gives(f, Term::Binary(op, acc, x), r),
    ensures
        evaluates(f, fold_expr(op, init, xs.push(e)), r),
{
    let ys = xs.push(e);
    assert(ys.drop_last() =~= xs);
    lemma_binary(f, op, fold_expr(op, init, xs), e, acc, x, r);
}

/// The inner product of `a` and `b`, as far as both go.
pub fn dot<T: Copy, F: Fn(Term<T>) -> T>(f: &F, start: Constant, a: &[T], b: &[T]) -> (r: T)
    requires
        total(*f),
    ensures
        evaluates(*f, dot_expr(start, a@, b@), r),
{
    let n: usize = if a.len() <= b.len() {
        a.len()
    } else {
        b.len()
    };
    let mut acc = f(Term::Constant(start));
    let mut i: usize = 0;
    assert(products(a@, b@).take(0) =~= Seq::<Expr<T>>::empty());
    while i < n
        invariant
            total(*f),
            i <= n,
            n <= a@.len(),
            n <= b@.len(),
            n == products(a@, b@).len(),
            evaluates(
                *f,
                fold_expr(BinaryOp::Add, con(start), products(a@, b@).take(i as int)),
                acc,
            ),
        decreases n - i,
    {
        let m = f(Term::Binary(BinaryOp::Mul, a[i], b[i]));
        let next = f(Term::Binary(BinaryOp::Add, acc, m));
        proof {
            let ps = products(a@, b@);
            lemma_binary(
                *f,
                BinaryOp::Mul,
                val(a@[i as int]),
                val(b@[i as int]),
                a@[i as int],
                b@[i as int],
                m,
            );
            lemma_fold_push(
                *f,
                BinaryOp::Add,
                con(start),
                ps.take(i as int),
                ps[i as int],
                acc,
                m,
                next,
            );
            assert(ps.take(i as int).push(ps[i as int]) =~= ps.take(i + 1));
        }
        acc = next;
        i += 1;
    }
    assert(products(a@, b@).take(n as int) =~= products(a@, b@));
    acc
}

/// The scalars of `xs` folded from the left, beginning with `start`.
pub fn fold<T: Copy, F: Fn(Term<T>) -> T>(f: &F, op: BinaryOp, start: Constant, xs: &[T]) -> (r: T)
    requires
        total(*f),
    ensures
        evaluates(*f, fold_expr(op, con(start), values(xs@)), r),
{
    let mut acc = f(Term::Constant(start));
    let mut i: usize = 0;
    assert(values(xs@).take(0) =~= Seq::<Expr<T>>::empty());
    while i < xs.len()
        invariant
            total(*f),
            i <= xs@.len(),
            evaluates(*f, fold_expr(op, con(start), values(xs@).take(i as int)), acc),
        decreases xs@.len() - i,
    {
        let next = f(Term::Binary(op, acc, xs[i]));
        proof {
            let vs = values(xs@);
            lemma_fold_push(
                *f,
                op,
                con(start),
                vs.take(i as int),
                vs[i as int],
                acc,
                xs@[i as int],
                next,
            );
            assert(vs.take(i as int).push(vs[i as int]) =~= vs.take(i + 1));
        }
        acc = next;
        i += 1;
    }
    assert(values(xs@).take(xs@.len() as int) =~= values(xs@));
    acc
}

} // verus!
