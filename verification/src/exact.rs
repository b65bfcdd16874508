//! With an arithmetic unit that answers every term in one way, every result is the only one that
//! its contract allows.
use vstd::prelude::*;

use crate::float::Float32;
use crate::forward::{
    angle_expr, attended, classified, column, embedded, gated, head_attended, head_part,
    head_scored, head_start, head_weights, layer_run, layer_runs, layer_steps, layers_run,
    lemma_slot, multiplied_at, pair_turned, part, passed, positioned, rotation, score_expr, slot,
    swiglu_expr, turned, turned_len, State,
};
use crate::generate::sampled;
use crate::history::{evenly_split, law_past_decides_result, same_past};
use crate::math::{
    accumulated, inverse_rms, multiplied, normalized, row, scaled_by, softmax_steps, softmaxed,
};
use crate::model::{block, block_fits, Config, Weights};
use crate::sampler::{
    added_at, chances, chosen, coin_expr, cutoff_expr, draw_steps, drawn, drawn_at, is_argmax,
    likelier, likeliest, likely_in_order, limits, nucleus, nucleus_drawn, ranked, reached, reaches,
    running, tempered, xorshift, Sampler,
};
use crate::scalar::{
    con, dot_expr, evaluates, fold_expr, gives, lemma_binary, minus, over, plus, sum_expr, times,
    unary, val, values, BinaryOp, Constant, Expr, Term, UnaryOp,
};

verus! {

/// The unit answers no term in two ways.
pub open spec fn single_valued<T, F: Fn(Term<T>) -> T>(f: F) -> bool {
    forall|t: Term<T>, r: T, s: T| #[trigger] gives(f, t, r) && #[trigger] gives(f, t, s) ==> r == s
}

/// A formula has no two values.
pub proof fn law_formula_has_one_value<T, F: Fn(Term<T>) -> T>(f: F, e: Expr<T>, r: T, s: T)
    requires
        single_valued(f),
        evaluates(f, e, r),
        evaluates(f, e, s),
    ensures
        r == s,
    decreases e,
{
    match e {
        Expr::Value(_) => {},
        Expr::Constant(_) => {},
        Expr::Unary(op, a) => {
            let x = choose|x: T| evaluates(f, *a, x) && #[trigger] gives(f, Term::Unary(op, x), r);
            let y = choose|y: T| evaluates(f, *a, y) && #[trigger] gives(f, Term::Unary(op, y), s);
            law_formula_has_one_value(f, *a, x, y);
        },
        Expr::Binary(op, a, b) => {
            let (x, y) = choose|x: T, y: T|
                evaluates(f, *a, x) && evaluates(f, *b, y) && #[trigger] gives(
                    f,
                    Term::Binary(op, x, y),
                    r,
                );
            let (v, w) = choose|v: T, w: T|
                evaluates(f, *a, v) && evaluates(f, *b, w) && #[trigger] gives(
                    f,
                    Term::Binary(op, v, w),
                    s,
                );
            law_formula_has_one_value(f, *a, x, v);
            law_formula_has_one_value(f, *b, y, w);
        },
    }
}

/// Normalization has one result.
pub proof fn law_normalization_has_one_result<T, F: Fn(Term<T>) -> T>(
    f: F,
    x: Seq<T>,
    weight: Seq<T>,
    before: Seq<T>,
    a: Seq<T>,
    b: Seq<T>,
)
    requires
        single_valued(f),
        normalized(f, x, weight, before, a),
        normalized(f, x, weight, before, b),
    ensures
        a == b,
{
    let r = choose|ss: T| #[trigger]
        evaluates(f, inverse_rms(x), ss) && scaled_by(f, x, weight, ss, a);
    let s = choose|ss: T| #[trigger]
        evaluates(f, inverse_rms(x), ss) && scaled_by(f, x, weight, ss, b);
    law_formula_has_one_value(f, inverse_rms(x), r, s);
    assert forall|j: int| 0 <= j < a.len() implies #[trigger] a[j] == b[j] by {
        if j < x.len() {
            law_formula_has_one_value(
                f,
                times(val(weight[j]), times(val(r), val(x[j]))),
                a[j],
                b[j],
            );
        }
    }
    assert(a =~= b);
}

/// A softmax has one result.
pub proof fn law_softmax_has_one_result<T, F: Fn(Term<T>) -> T>(
    f: F,
    x: Seq<T>,
    a: Seq<T>,
    b: Seq<T>,
)
    requires
        single_valued(f),
        softmaxed(f, x, a),
        softmaxed(f, x, b),
    ensures
        a == b,
{
    let (m, e, s) = choose|m: T, e: Seq<T>, s: T| #[trigger] softmax_steps(f, x, m, e, s, a);
    let (n, d, t) = choose|n: T, d: Seq<T>, t: T| #[trigger] softmax_steps(f, x, n, d, t, b);
    law_formula_has_one_value(
        f,
        fold_expr(
            BinaryOp::Max,
            con(Constant::NegInfinity),
            values(x),
        ),
        m,
        n,
    );
    assert forall|i: int| 0 <= i < x.len() implies #[trigger] e[i] == d[i] by {
        law_formula_has_one_value(
            f,
            unary(UnaryOp::Exp, minus(val(x[i]), val(m))),
            e[i],
            d[i],
        );
    }
    assert(e =~= d);
    law_formula_has_one_value(
        f,
        sum_expr(Constant::Zero, e),
        s,
        t,
    );
    assert forall|i: int| 0 <= i < x.len() implies #[trigger] a[i] == b[i] by {
        law_formula_has_one_value(f, over(val(e[i]), val(s)), a[i], b[i]);
    }
    assert(a =~= b);
}

/// The largest scalar of `x`, by the unit.
pub open spec fn largest_expr<T>(x: Seq<T>) -> Expr<T> {
    fold_expr(BinaryOp::Max, con(Constant::NegInfinity), values(x))
}

/// The unit answers `x - m` and `y - n` alike.
pub open spec fn same_difference<T, F: Fn(Term<T>) -> T>(f: F, x: T, m: T, y: T, n: T) -> bool {
    exists|d: T| #[trigger]
        gives(f, Term::Binary(BinaryOp::Sub, x, m), d) && gives(
            f,
            Term::Binary(BinaryOp::Sub, y, n),
            d,
        )
}

/// Only the differences to the largest score count: scores that lie equally far below their
/// largest, place by place, turn into the same probabilities. Shifting all scores changes nothing
/// where it keeps these differences.
pub proof fn law_softmax_ignores_shift<T, F: Fn(Term<T>) -> T>(
    f: F,
    x: Seq<T>,
    m: T,
    a: Seq<T>,
    y: Seq<T>,
    n: T,
    b: Seq<T>,
)
    requires
        single_valued(f),
        x.len() == y.len(),
        evaluates(f, largest_expr(x), m),
        evaluates(f, largest_expr(y), n),
        forall|i: int| 0 <= i < x.len() ==> #[trigger] same_difference(f, x[i], m, y[i], n),
        softmaxed(f, x, a),
        softmaxed(f, y, b),
    ensures
        a == b,
{
    let (p, e, s) = choose|p: T, e: Seq<T>, s: T| #[trigger] softmax_steps(f, x, p, e, s, a);
    let (q, d, t) = choose|q: T, d: Seq<T>, t: T| #[trigger] softmax_steps(f, y, q, d, t, b);
    law_formula_has_one_value(f, largest_expr(x), m, p);
    law_formula_has_one_value(f, largest_expr(y), n, q);
    assert forall|i: int| 0 <= i < x.len() implies #[trigger] e[i] == d[i] by {
        assert(same_difference(f, x[i], m, y[i], n));
        let below = choose|below: T| #[trigger]
            gives(f, Term::Binary(BinaryOp::Sub, x[i], m), below) && gives(
                f,
                Term::Binary(BinaryOp::Sub, y[i], n),
                below,
            );
        let left = minus(val(x[i]), val(m));
        let right = minus(val(y[i]), val(n));
        lemma_binary(f, BinaryOp::Sub, val(x[i]), val(m), x[i], m, below);
        lemma_binary(f, BinaryOp::Sub, val(y[i]), val(n), y[i], n, below);
        let u = choose|u: T|
            evaluates(f, left, u) && #[trigger] gives(f, Term::Unary(UnaryOp::Exp, u), e[i]);
        let v = choose|v: T|
            evaluates(f, right, v) && #[trigger] gives(f, Term::Unary(UnaryOp::Exp, v), d[i]);
        assert(evaluates(f, unary(UnaryOp::Exp, left), e[i]));
        assert(evaluates(f, unary(UnaryOp::Exp, right), d[i]));
        law_formula_has_one_value(f, left, u, below);
        law_formula_has_one_value(f, right, v, below);
    }
    assert(e =~= d);
    law_formula_has_one_value(f, sum_expr(Constant::Zero, e), s, t);
    assert forall|i: int| 0 <= i < x.len() implies #[trigger] a[i] == b[i] by {
        law_formula_has_one_value(f, over(val(e[i]), val(s)), a[i], b[i]);
    }
    assert(a =~= b);
}

/// A product of a matrix with a vector has one result.
pub proof fn law_product_has_one_result<T, F: Fn(Term<T>) -> T>(
    f: F,
    x: Seq<T>,
    w: Seq<T>,
    n: int,
    d: int,
    before: Seq<T>,
    a: Seq<T>,
    b: Seq<T>,
)
    requires
        single_valued(f),
        multiplied(f, x, w, n, d, before, a),
        multiplied(f, x, w, n, d, before, b),
    ensures
        a == b,
{
    assert forall|i: int| 0 <= i < a.len() implies #[trigger] a[i] == b[i] by {
        if i < d {
            law_formula_has_one_value(
                f,
                dot_expr(
                    Constant::EmptySum,
                    row(w, n, i),
                    x,
                ),
                a[i],
                b[i],
            );
        }
    }
    assert(a =~= b);
}

/// A sum of two vectors has one result.
pub proof fn law_sum_has_one_result<T, F: Fn(Term<T>) -> T>(
    f: F,
    x: Seq<T>,
    y: Seq<T>,
    a: Seq<T>,
    b: Seq<T>,
)
    requires
        single_valued(f),
        accumulated(f, x, y, a),
        accumulated(f, x, y, b),
    ensures
        a == b,
{
    assert forall|i: int| 0 <= i < a.len() implies #[trigger] a[i] == b[i] by {
        if i < y.len() {
            law_formula_has_one_value(f, plus(val(x[i]), val(y[i])), a[i], b[i]);
        }
    }
    assert(a =~= b);
}

proof fn lemma_product_at<T, F: Fn(Term<T>) -> T>(
    f: F,
    x: Seq<T>,
    w: Seq<T>,
    n: int,
    d: int,
    start: int,
    before: Seq<T>,
    a: Seq<T>,
    b: Seq<T>,
)
    requires
        single_valued(f),
        0 <= start <= before.len(),
        multiplied_at(f, x, w, n, d, start, before, a),
        multiplied_at(f, x, w, n, d, start, before, b),
    ensures
        a == b,
{
    law_product_has_one_result(f, x, w, n, d, before.skip(start), a.skip(start), b.skip(start));
    assert(a =~= a.take(start) + a.skip(start));
    assert(b =~= b.take(start) + b.skip(start));
}

proof fn lemma_turned<T, F: Fn(Term<T>) -> T>(
    f: F,
    cos: T,
    sin: T,
    v0: T,
    v1: T,
    r0: T,
    r1: T,
    s0: T,
    s1: T,
)
    requires
        single_valued(f),
        turned(f, cos, sin, v0, v1, r0, r1),
        turned(f, cos, sin, v0, v1, s0, s1),
    ensures
        r0 == s0,
        r1 == s1,
{
    law_formula_has_one_value(
        f,
        minus(times(val(v0), val(cos)), times(val(v1), val(sin))),
        r0,
        s0,
    );
    law_formula_has_one_value(
        f,
        plus(times(val(v0), val(sin)), times(val(v1), val(cos))),
        r1,
        s1,
    );
}

proof fn lemma_pair_turned<T, F: Fn(Term<T>) -> T>(
    f: F,
    c: Config,
    pos: int,
    at: int,
    i: int,
    s: State<T>,
    a: State<T>,
    b: State<T>,
)
    requires
        single_valued(f),
        pair_turned(f, c, pos, at, i, s, a),
        pair_turned(f, c, pos, at, i, s, b),
    ensures
        a.q[i] == b.q[i],
        a.q[i + 1] == b.q[i + 1],
        i < c.spec_kv_dim() ==> a.key_cache[at + i] == b.key_cache[at + i] && a.key_cache[at + i
            + 1] == b.key_cache[at + i + 1],
{
    let kvd = c.spec_kv_dim();
    let k = s.key_cache;
    let (cos, sin) = choose|cos: T, sin: T|
        {
            &&& #[trigger] rotation(f, c, pos, i, cos, sin)
            &&& turned(f, cos, sin, s.q[i], s.q[i + 1], a.q[i], a.q[i + 1])
            &&& i < kvd ==> turned(
                f,
                cos,
                sin,
                k[at + i],
                k[at + i + 1],
                a.key_cache[at + i],
                a.key_cache[at + i + 1],
            )
        };
    let (cos2, sin2) = choose|cos: T, sin: T|
        {
            &&& #[trigger] rotation(f, c, pos, i, cos, sin)
            &&& turned(f, cos, sin, s.q[i], s.q[i + 1], b.q[i], b.q[i + 1])
            &&& i < kvd ==> turned(
                f,
                cos,
                sin,
                k[at + i],
                k[at + i + 1],
                b.key_cache[at + i],
                b.key_cache[at + i + 1],
            )
        };
    let angle = angle_expr(c, pos, i);
    let x = choose|x: T|
        {
            &&& #[trigger] evaluates(f, angle, x)
            &&& gives(f, Term::Unary(UnaryOp::Cos, x), cos)
            &&& gives(f, Term::Unary(UnaryOp::Sin, x), sin)
        };
    let y = choose|y: T|
        {
            &&& #[trigger] evaluates(f, angle, y)
            &&& gives(f, Term::Unary(UnaryOp::Cos, y), cos2)
            &&& gives(f, Term::Unary(UnaryOp::Sin, y), sin2)
        };
    law_formula_has_one_value(f, angle, x, y);
    lemma_turned(
        f,
        cos,
        sin,
        s.q[i],
        s.q[i + 1],
        a.q[i],
        a.q[i + 1],
        b.q[i],
        b.q[i + 1],
    );
    if i < kvd {
        lemma_turned(
            f,
            cos,
            sin,
            k[at + i],
            k[at + i + 1],
            a.key_cache[at + i],
            a.key_cache[at + i + 1],
            b.key_cache[at + i],
            b.key_cache[at + i + 1],
        );
    }
}

/// Keys are no longer than a vector where they have no more heads.
proof fn lemma_kv_dim_within_dim(c: Config)
    requires
        0 < c.n_heads,
        c.n_kv_heads <= c.n_heads,
    ensures
        c.spec_kv_dim() <= c.dim,
{
    let d = c.dim as int;
    let n = c.n_heads as int;
    let k = c.n_kv_heads as int;
    assert(d * k <= n * d) by (nonlinear_arith)
        requires
            k <= n,
            0 <= d,
    ;
    vstd::arithmetic::div_mod::lemma_div_is_ordered(d * k, n * d, n);
    vstd::arithmetic::div_mod::lemma_div_multiples_vanish(d, n);
}

proof fn lemma_positioned<T, F: Fn(Term<T>) -> T>(
    f: F,
    c: Config,
    l: int,
    pos: int,
    s: State<T>,
    a: State<T>,
    b: State<T>,
)
    requires
        single_valued(f),
        s.sized(c),
        0 < c.n_heads,
        c.n_kv_heads <= c.n_heads,
        c.dim % 2 == 0,
        positioned(f, c, l, pos, s, a),
        positioned(f, c, l, pos, s, b),
    ensures
        a == b,
{
    let at = slot(c, l, pos);
    assert forall|j: int| 0 <= j < a.q.len() implies #[trigger] a.q[j] == b.q[j] by {
        let i = j - j % 2;
        assert(pair_turned(f, c, pos, at, i, s, a));
        assert(pair_turned(f, c, pos, at, i, s, b));
        lemma_pair_turned(f, c, pos, at, i, s, a, b);
    }
    assert(a.q =~= b.q);
    lemma_kv_dim_within_dim(c);
    assert forall|j: int| 0 <= j < a.key_cache.len() implies #[trigger] a.key_cache[j]
        == b.key_cache[j] by {
        if at <= j < at + turned_len(c) {
            let i = (j - at) - (j - at) % 2;
            assert(pair_turned(f, c, pos, at, i, s, a));
            assert(pair_turned(f, c, pos, at, i, s, b));
            lemma_pair_turned(f, c, pos, at, i, s, a, b);
        }
    }
    assert(a.key_cache =~= b.key_cache);
}

proof fn lemma_head<T, F: Fn(Term<T>) -> T>(
    f: F,
    c: Config,
    l: int,
    pos: int,
    h: int,
    s: State<T>,
    a: State<T>,
    b: State<T>,
)
    requires
        single_valued(f),
        head_attended(f, c, l, pos, h, s, a),
        head_attended(f, c, l, pos, h, s, b),
    ensures
        head_weights(a.att, c, h, 0, pos + 1) == head_weights(b.att, c, h, 0, pos + 1),
        forall|i: int|
            0 <= i < c.spec_head_size() ==> #[trigger] head_part(a.xb, c, h)[i] == head_part(
                b.xb,
                c,
                h,
            )[i],
{
    let w = head_weights(a.att, c, h, 0, pos + 1);
    let v = head_weights(b.att, c, h, 0, pos + 1);
    let r = choose|r: Seq<T>| #[trigger]
        head_scored(f, c, l, pos, h, s, r) && softmaxed(f, r, w);
    let t = choose|t: Seq<T>| #[trigger]
        head_scored(f, c, l, pos, h, s, t) && softmaxed(f, t, v);
    let hs = c.spec_head_size();
    let start = head_start(c, l, h);
    assert forall|k: int| 0 <= k < r.len() implies #[trigger] r[k] == t[k] by {
        law_formula_has_one_value(
            f,
            score_expr(
                head_part(s.q, c, h),
                part(s.key_cache, start, c.spec_kv_dim(), hs, k),
            ),
            r[k],
            t[k],
        );
    }
    assert(r =~= t);
    law_softmax_has_one_result(f, r, w, v);
    assert forall|i: int| 0 <= i < hs implies #[trigger] head_part(a.xb, c, h)[i] == head_part(
        b.xb,
        c,
        h,
    )[i] by {
        law_formula_has_one_value(
            f,
            dot_expr(
                Constant::Zero,
                w,
                column(s.value_cache, start, c.spec_kv_dim(), pos + 1, i),
            ),
            head_part(a.xb, c, h)[i],
            head_part(b.xb, c, h)[i],
        );
    }
}

/// Place `j` of a vector whose parts are `size` long lies in part `j / size`.
proof fn lemma_in_part(j: int, size: int, count: int)
    requires
        0 <= j < count * size,
        0 <= size,
    ensures
        0 < size,
        0 <= j / size < count,
        0 <= j % size < size,
        j == (j / size) * size + j % size,
        (j / size) * size + size <= count * size,
{
    assert(0 < size) by (nonlinear_arith)
        requires
            0 <= j < count * size,
            0 <= size,
    ;
    vstd::arithmetic::div_mod::lemma_fundamental_div_mod(j, size);
    vstd::arithmetic::div_mod::lemma_div_pos_is_pos(j, size);
    let q = j / size;
    assert(q < count) by (nonlinear_arith)
        requires
            j == size * q + j % size,
            0 <= j % size,
            j < count * size,
            0 < size,
    ;
    assert(q * size == size * q) by (nonlinear_arith);
    assert(q * size + size <= count * size) by (nonlinear_arith)
        requires
            q + 1 <= count,
            0 < size,
    ;
}

proof fn lemma_attended<T, F: Fn(Term<T>) -> T>(
    f: F,
    c: Config,
    l: int,
    pos: int,
    s: State<T>,
    a: State<T>,
    b: State<T>,
)
    requires
        single_valued(f),
        s.sized(c),
        0 < c.n_heads,
        0 <= pos < c.seq_len,
        attended(f, c, l, pos, s, a),
        attended(f, c, l, pos, s, b),
    ensures
        a == b,
{
    let n = c.n_heads as int;
    let len = c.seq_len as int;
    let hs = c.spec_head_size();
    vstd::arithmetic::div_mod::lemma_div_pos_is_pos(c.dim as int, n);
    vstd::arithmetic::div_mod::lemma_fundamental_div_mod(c.dim as int, n);
    assert forall|j: int| 0 <= j < a.att.len() implies #[trigger] a.att[j] == b.att[j] by {
        lemma_in_part(j, len, n);
        let h = j / len;
        let t = j % len;
        assert(head_attended(f, c, l, pos, h, s, a));
        assert(head_attended(f, c, l, pos, h, s, b));
        if t <= pos {
            lemma_head(f, c, l, pos, h, s, a, b);
            assert(head_weights(a.att, c, h, 0, pos + 1)[t] == head_weights(
                b.att,
                c,
                h,
                0,
                pos + 1,
            )[t]);
        } else {
            assert(head_weights(a.att, c, h, pos + 1, len)[t - pos - 1] == head_weights(
                b.att,
                c,
                h,
                pos + 1,
                len,
            )[t - pos - 1]);
        }
    }
    assert(a.att =~= b.att);
    assert forall|j: int| 0 <= j < a.xb.len() implies #[trigger] a.xb[j] == b.xb[j] by {
        if j < n * hs {
            lemma_in_part(j, hs, n);
            let h = j / hs;
            let i = j % hs;
            assert(head_attended(f, c, l, pos, h, s, a));
            assert(head_attended(f, c, l, pos, h, s, b));
            lemma_head(f, c, l, pos, h, s, a, b);
            assert(head_part(a.xb, c, h)[i] == head_part(b.xb, c, h)[i]);
        }
    }
    assert(a.xb =~= b.xb);
}

proof fn lemma_gated<T, F: Fn(Term<T>) -> T>(f: F, s: State<T>, a: State<T>, b: State<T>)
    requires
        single_valued(f),
        gated(f, s, a),
        gated(f, s, b),
    ensures
        a == b,
{
    assert forall|i: int| 0 <= i < a.hb.len() implies #[trigger] a.hb[i] == b.hb[i] by {
        law_formula_has_one_value(
            f,
            swiglu_expr(s.hb[i], s.hb2[i]),
            a.hb[i],
            b.hb[i],
        );
    }
    assert(a.hb =~= b.hb);
}

/// A layer has one result.
proof fn lemma_layer<T, F: Fn(Term<T>) -> T>(
    f: F,
    c: Config,
    w: Weights<T>,
    l: int,
    pos: int,
    s: State<T>,
    a: State<T>,
    b: State<T>,
)
    requires
        single_valued(f),
        s.sized(c),
        0 < c.n_heads,
        0 <= l < c.n_layers,
        0 <= pos,
        layer_runs(c, pos),
        layer_run(f, c, w, l, pos, s, a),
        layer_run(f, c, w, l, pos, s, b),
    ensures
        a == b,
        a.sized(c),
{
    let t = choose|t: Seq<State<T>>| #[trigger]
        layer_steps(f, c, w, l, pos, t) && t[0] == s && t[8] == a;
    let u = choose|u: Seq<State<T>>| #[trigger]
        layer_steps(f, c, w, l, pos, u) && u[0] == s && u[8] == b;
    let d = c.dim as int;
    let hd = c.hidden_dim as int;
    let kvd = c.spec_kv_dim();
    let at = slot(c, l, pos);
    lemma_slot(c, l, pos);
    let rms_att = block(w.data@, w.rms_att_offset as int, l, d);
    let wq = block(w.data@, w.wq_offset as int, l, d * d);
    let wk = block(w.data@, w.wk_offset as int, l, d * kvd);
    let wv = block(w.data@, w.wv_offset as int, l, d * kvd);
    let wo = block(w.data@, w.wo_offset as int, l, d * d);
    let rms_ffn = block(w.data@, w.rms_ffn_offset as int, l, d);
    let w1 = block(w.data@, w.w1_offset as int, l, d * hd);
    let w2 = block(w.data@, w.w2_offset as int, l, hd * d);
    let w3 = block(w.data@, w.w3_offset as int, l, d * hd);
    law_normalization_has_one_result(f, s.x, rms_att, s.xb, t[1].xb, u[1].xb);
    assert(t[1] == u[1]);
    let x = t[1].xb;
    law_product_has_one_result(f, x, wq, d, d, t[1].q, t[2].q, u[2].q);
    lemma_product_at(f, x, wk, d, kvd, at, t[1].key_cache, t[2].key_cache, u[2].key_cache);
    lemma_product_at(f, x, wv, d, kvd, at, t[1].value_cache, t[2].value_cache, u[2].value_cache);
    assert(t[2] == u[2]);
    lemma_positioned(f, c, l, pos, t[2], t[3], u[3]);
    lemma_attended(f, c, l, pos, t[3], t[4], u[4]);
    law_product_has_one_result(f, t[4].xb, wo, d, d, t[4].xb2, t[5].xb2, u[5].xb2);
    law_sum_has_one_result(f, t[4].x, t[5].xb2, t[5].x, u[5].x);
    assert(t[5] == u[5]);
    law_normalization_has_one_result(f, t[5].x, rms_ffn, t[5].xb, t[6].xb, u[6].xb);
    law_product_has_one_result(f, t[6].xb, w1, d, hd, t[5].hb, t[6].hb, u[6].hb);
    law_product_has_one_result(f, t[6].xb, w3, d, hd, t[5].hb2, t[6].hb2, u[6].hb2);
    assert(t[6] == u[6]);
    lemma_gated(f, t[6], t[7], u[7]);
    law_product_has_one_result(f, t[7].hb, w2, hd, d, t[7].xb, t[8].xb, u[8].xb);
    law_sum_has_one_result(f, t[7].x, t[8].xb, t[8].x, u[8].x);
}

proof fn lemma_layers<T, F: Fn(Term<T>) -> T>(
    f: F,
    c: Config,
    w: Weights<T>,
    pos: int,
    t: Seq<State<T>>,
    u: Seq<State<T>>,
    n: int,
)
    requires
        single_valued(f),
        layers_run(f, c, w, pos, t),
        layers_run(f, c, w, pos, u),
        t[0] == u[0],
        t[0].sized(c),
        0 < c.n_heads,
        0 <= n <= c.n_layers,
        0 <= pos,
        c.n_layers > 0 ==> layer_runs(c, pos),
    ensures
        t[n] == u[n],
        t[n].sized(c),
    decreases n,
{
    if n > 0 {
        let k = n - 1;
        lemma_layers(f, c, w, pos, t, u, k);
        assert(layer_run(f, c, w, k, pos, t[k], t[k + 1]));
        assert(layer_run(f, c, w, k, pos, u[k], u[k + 1]));
        lemma_layer(f, c, w, k, pos, t[k], t[n], u[n]);
    }
}

/// A forward pass has one result: the scores and everything else that it leaves in the buffers.
pub proof fn law_forward_pass_has_one_result<T, F: Fn(Term<T>) -> T>(
    f: F,
    c: Config,
    w: Weights<T>,
    token: int,
    pos: int,
    s: State<T>,
    a: State<T>,
    b: State<T>,
)
    requires
        single_valued(f),
        s.sized(c),
        0 < c.n_heads,
        0 <= token,
        0 <= pos,
        c.n_layers > 0 ==> layer_runs(c, pos),
        block_fits(w.data@.len() as int, w.token_embedding_offset as int, token, c.dim as int),
        passed(f, c, w, token, pos, s, a),
        passed(f, c, w, token, pos, s, b),
    ensures
        a == b,
{
    let n = c.n_layers as int;
    let t = choose|t: Seq<State<T>>|
        {
            &&& #[trigger] layers_run(f, c, w, pos, t)
            &&& embedded(c, w, token, s, t[0])
            &&& classified(f, c, w, t[n], a)
        };
    let u = choose|u: Seq<State<T>>|
        {
            &&& #[trigger] layers_run(f, c, w, pos, u)
            &&& embedded(c, w, token, s, u[0])
            &&& classified(f, c, w, u[n], b)
        };
    assert(0 <= token * c.dim) by (nonlinear_arith)
        requires
            0 <= token,
    ;
    lemma_layers(f, c, w, pos, t, u, n);
    let d = c.dim as int;
    let v = c.vocab_size as int;
    let weight = w.data@.subrange(w.rms_final_offset as int, w.rms_final_offset + d);
    let at = w.classifier_offset() as int;
    law_normalization_has_one_result(f, t[n].x, weight, t[n].x, a.x, b.x);
    law_product_has_one_result(
        f,
        a.x,
        w.data@.subrange(at, at + v * d),
        d,
        v,
        t[n].logits,
        a.logits,
        b.logits,
    );
}

/// Two forward passes of one token at one position give the same scores wherever their buffers
/// hold the same keys and values of the positions before.
pub proof fn law_same_past_same_scores<T, F: Fn(Term<T>) -> T>(
    f: F,
    c: Config,
    w: Weights<T>,
    token: int,
    pos: int,
    s: State<T>,
    a: State<T>,
    o: State<T>,
    b: State<T>,
)
    requires
        single_valued(f),
        evenly_split(c),
        c.spec_kv_dim() % 2 == 0,
        layer_runs(c, pos),
        0 <= token,
        0 <= pos,
        s.sized(c),
        o.sized(c),
        block_fits(w.data@.len() as int, w.token_embedding_offset as int, token, c.dim as int),
        same_past(c, 0, pos, s.key_cache, o.key_cache),
        same_past(c, 0, pos, s.value_cache, o.value_cache),
        passed(f, c, w, token, pos, s, a),
        passed(f, c, w, token, pos, o, b),
    ensures
        a.logits == b.logits,
        same_past(c, 0, pos + 1, a.key_cache, b.key_cache),
        same_past(c, 0, pos + 1, a.value_cache, b.value_cache),
{
    let r = law_past_decides_result(f, c, w, token, pos, s, a, o);
    law_forward_pass_has_one_result(f, c, w, token, pos, o, r, b);
}

proof fn lemma_running<F: Fn(Term<Float32>) -> Float32>(
    f: F,
    ps: Seq<Float32>,
    a: Seq<Float32>,
    qs: Seq<Float32>,
    b: Seq<Float32>,
    i: int,
)
    requires
        single_valued(f),
        running(f, ps, a),
        running(f, qs, b),
        0 <= i < ps.len(),
        i < qs.len(),
        forall|k: int| 0 <= k <= i ==> #[trigger] ps[k] == qs[k],
    ensures
        a[i] == b[i],
    decreases i,
{
    assert(added_at(f, ps, a, i));
    assert(added_at(f, qs, b, i));
    if i > 0 {
        lemma_running(f, ps, a, qs, b, i - 1);
        law_formula_has_one_value(
            f,
            plus(val(a[i - 1]), val(ps[i])),
            a[i],
            b[i],
        );
    } else {
        law_formula_has_one_value(
            f,
            plus(
                con(Constant::Zero),
                val(ps[i]),
            ),
            a[i],
            b[i],
        );
    }
}

/// The sum of probabilities exceeds a coin at one place.
proof fn lemma_reached<F: Fn(Term<Float32>) -> Float32>(
    f: F,
    ps: Seq<Float32>,
    coin: Float32,
    i: int,
    s: Float32,
    j: int,
    t: Float32,
)
    requires
        single_valued(f),
        reached(f, ps, coin, i, s),
        reached(f, ps, coin, j, t),
    ensures
        i == j,
        s == t,
{
    let a = choose|a: Seq<Float32>|
        {
            &&& #[trigger] running(f, ps.take(i + 1), a)
            &&& a[i] == s
            &&& forall|k: int| 0 <= k < i ==> !coin.lt(#[trigger] a[k])
            &&& coin.lt(s) || i == ps.len() - 1
        };
    let b = choose|b: Seq<Float32>|
        {
            &&& #[trigger] running(f, ps.take(j + 1), b)
            &&& b[j] == t
            &&& forall|k: int| 0 <= k < j ==> !coin.lt(#[trigger] b[k])
            &&& coin.lt(t) || j == ps.len() - 1
        };
    let least = if i < j {
        i
    } else {
        j
    };
    lemma_running(f, ps.take(i + 1), a, ps.take(j + 1), b, least);
}

/// The places in order are the only ones: at each place two orders agree.
proof fn lemma_ranked_prefix(
    probs: Seq<Float32>,
    cutoff: Float32,
    a: Seq<usize>,
    b: Seq<usize>,
    k: int,
)
    requires
        likely_in_order(probs, cutoff, a),
        likely_in_order(probs, cutoff, b),
        0 <= k <= a.len(),
        k <= b.len(),
    ensures
        forall|i: int| 0 <= i < k ==> #[trigger] a[i] == b[i],
    decreases k,
{
    if k > 0 {
        let i = k - 1;
        lemma_ranked_prefix(probs, cutoff, a, b, i);
        if a[i] != b[i] {
            lemma_ranked_place(probs, cutoff, a, b, i);
            lemma_ranked_place(probs, cutoff, b, a, i);
            assert(likelier(probs, a[i] as int, b[i] as int));
            assert(likelier(probs, b[i] as int, a[i] as int));
        }
    }
}

/// Where two orders agree before `i` and differ there, `b` places its own before that of `a`.
proof fn lemma_ranked_place(
    probs: Seq<Float32>,
    cutoff: Float32,
    a: Seq<usize>,
    b: Seq<usize>,
    i: int,
)
    requires
        likely_in_order(probs, cutoff, a),
        likely_in_order(probs, cutoff, b),
        0 <= i < a.len(),
        i < b.len(),
        forall|k: int| 0 <= k < i ==> #[trigger] a[k] == b[k],
        a[i] != b[i],
    ensures
        likelier(probs, b[i] as int, a[i] as int),
{
    assert(b.contains(a[i]));
    let j = choose|j: int| 0 <= j < b.len() && b[j] == a[i];
    if j < i {
        assert(a[j] == b[j]);
        assert(likelier(probs, a[j] as int, a[i] as int));
    }
}

/// The places that tokens are drawn from have one order.
pub proof fn law_ranking_has_one_result(
    probs: Seq<Float32>,
    cutoff: Float32,
    a: Seq<usize>,
    b: Seq<usize>,
)
    requires
        ranked(probs, cutoff, a),
        ranked(probs, cutoff, b),
    ensures
        a == b,
{
    if reaches(probs, cutoff) {
        lemma_ranking_len(probs, cutoff, a, b);
        lemma_ranking_len(probs, cutoff, b, a);
        lemma_ranked_prefix(probs, cutoff, a, b, a.len() as int);
        assert(a =~= b);
    } else {
        let i = choose|i: usize| #[trigger] likeliest(probs, i as int) && a == seq![i];
        let j = choose|j: usize| #[trigger] likeliest(probs, j as int) && b == seq![j];
        if i != j {
            assert(likelier(probs, i as int, j as int));
            assert(likelier(probs, j as int, i as int));
        }
    }
}

proof fn lemma_ranking_len(
    probs: Seq<Float32>,
    cutoff: Float32,
    a: Seq<usize>,
    b: Seq<usize>,
)
    requires
        likely_in_order(probs, cutoff, a),
        likely_in_order(probs, cutoff, b),
    ensures
        b.len() <= a.len(),
{
    if a.len() < b.len() {
        let n = a.len() as int;
        lemma_ranked_prefix(probs, cutoff, a, b, n);
        assert(b[n] < probs.len());
        assert(a.contains(b[n]));
        let j = choose|j: int| 0 <= j < a.len() && a[j] == b[n];
        assert(likelier(probs, b[j] as int, b[n] as int));
    }
}

/// A draw from the likeliest tokens has one result.
pub proof fn law_nucleus_has_one_result<F: Fn(Term<Float32>) -> Float32>(
    f: F,
    probs: Seq<Float32>,
    topp: Float32,
    coin: Float32,
    r: usize,
    s: usize,
)
    requires
        single_valued(f),
        nucleus(f, probs, topp, coin, r),
        nucleus(f, probs, topp, coin, s),
    ensures
        r == s,
{
    let n = probs.len() as int;
    let (x, a) = choose|x: Float32, a: Seq<usize>|
        {
            &&& #[trigger] evaluates(f, cutoff_expr(n, topp), x)
            &&& #[trigger] ranked(probs, x, a)
            &&& nucleus_drawn(f, probs, topp, coin, a, r)
        };
    let (y, b) = choose|y: Float32, b: Seq<usize>|
        {
            &&& #[trigger] evaluates(f, cutoff_expr(n, topp), y)
            &&& #[trigger] ranked(probs, y, b)
            &&& nucleus_drawn(f, probs, topp, coin, b, s)
        };
    law_formula_has_one_value(f, cutoff_expr(n, topp), x, y);
    law_ranking_has_one_result(probs, x, a, b);
    lemma_nucleus_drawn(f, probs, topp, coin, a, r, s);
}

proof fn lemma_nucleus_drawn<F: Fn(Term<Float32>) -> Float32>(
    f: F,
    probs: Seq<Float32>,
    topp: Float32,
    coin: Float32,
    order: Seq<usize>,
    r: usize,
    s: usize,
)
    requires
        single_valued(f),
        nucleus_drawn(f, probs, topp, coin, order, r),
        nucleus_drawn(f, probs, topp, coin, order, s),
    ensures
        r == s,
{
    let (l, x, i) = choose|l: int, x: Float32, i: int| #[trigger]
        drawn_at(f, probs, topp, coin, order, l, x, i) && r == order[i];
    let (m, y, j) = choose|m: int, y: Float32, j: int| #[trigger]
        drawn_at(f, probs, topp, coin, order, m, y, j) && s == order[j];
    let ps = chances(probs, order);
    lemma_reached(f, ps, topp, l, x, m, y);
    let qs = ps.take(l + 1);
    let (t, u) = choose|t: Float32, u: Float32| #[trigger]
        evaluates(f, times(val(coin), val(x)), t) && #[trigger] reached(f, qs, t, i, u);
    let (v, w) = choose|v: Float32, w: Float32| #[trigger]
        evaluates(f, times(val(coin), val(x)), v) && #[trigger] reached(f, qs, v, j, w);
    assert(chosen(f, qs, coin, x, i) && chosen(f, qs, coin, x, j));
    law_formula_has_one_value(f, times(val(coin), val(x)), t, v);
    lemma_reached(f, qs, t, i, u, j, w);
}

/// A draw has one result: the probabilities that the scores turn into, the coin and the token
/// follow from the scores, the settings and the generator's state.
pub proof fn law_draw_has_one_result<F: Fn(Term<Float32>) -> Float32>(
    f: F,
    sampler: Sampler,
    logits: Seq<Float32>,
    scaled: Seq<Float32>,
    probs: Seq<Float32>,
    coin: Float32,
    r: usize,
    scaled2: Seq<Float32>,
    probs2: Seq<Float32>,
    coin2: Float32,
    r2: usize,
)
    requires
        single_valued(f),
        draw_steps(f, sampler, logits, scaled, probs, coin, r),
        draw_steps(f, sampler, logits, scaled2, probs2, coin2, r2),
    ensures
        probs == probs2,
        coin == coin2,
        r == r2,
{
    assert(tempered(f, logits, sampler.temperature(), scaled));
    assert forall|i: int| 0 <= i < scaled.len() implies #[trigger] scaled[i] == scaled2[i] by {
        law_formula_has_one_value(
            f,
            over(val(logits[i]), val(sampler.temperature())),
            scaled[i],
            scaled2[i],
        );
    }
    assert(scaled =~= scaled2);
    law_softmax_has_one_result(f, scaled, probs, probs2);
    law_formula_has_one_value(f, coin_expr(xorshift(sampler.rng_state())), coin, coin2);
    let topp = sampler.topp();
    assert(drawn(f, probs, topp, coin, r) && drawn(f, probs, topp, coin, r2));
    if limits(topp) {
        law_nucleus_has_one_result(f, probs, topp, coin, r, r2);
    } else {
        let s = choose|s: Float32| #[trigger] reached(f, probs, coin, r as int, s);
        let t = choose|t: Float32| #[trigger] reached(f, probs, coin, r2 as int, t);
        lemma_reached(f, probs, coin, r as int, s, r2 as int, t);
    }
}

/// Two samplers that agree in temperature, share of the probability and generator state choose the
/// same token from the same scores, and agree again afterwards. The number of tokens that they were
/// made for has no say.
pub proof fn law_same_seed_same_tokens<F: Fn(Term<Float32>) -> Float32>(
    f: F,
    s: Sampler,
    s_after: Sampler,
    t: Sampler,
    t_after: Sampler,
    logits: Seq<Float32>,
    a: u32,
    b: u32,
)
    requires
        single_valued(f),
        s.temperature() == t.temperature(),
        s.topp() == t.topp(),
        s.rng_state() == t.rng_state(),
        sampled(f, s, logits, s_after, a),
        sampled(f, t, logits, t_after, b),
    ensures
        a == b,
        s_after.temperature() == t_after.temperature(),
        s_after.topp() == t_after.topp(),
        s_after.rng_state() == t_after.rng_state(),
{
    if s.greedy() {
        let i = choose|i: usize| #[trigger] is_argmax(logits, i as int) && a == i as u32;
        let j = choose|j: usize| #[trigger] is_argmax(logits, j as int) && b == j as u32;
        if i < j {
            assert(logits[i as int].rank() <= logits[j as int].rank());
        } else if j < i {
            assert(logits[j as int].rank() <= logits[i as int].rank());
        }
    } else {
        let (x, p, c, i) = choose|x: Seq<Float32>, p: Seq<Float32>, c: Float32, i: usize|
            #[trigger] draw_steps(f, s, logits, x, p, c, i) && a == i as u32;
        let (y, q, d, j) = choose|y: Seq<Float32>, q: Seq<Float32>, d: Float32, j: usize|
            #[trigger] draw_steps(f, t, logits, y, q, d, j) && b == j as u32;
        assert(draw_steps(f, s, logits, y, q, d, j));
        law_draw_has_one_result(f, s, logits, x, p, c, i, y, q, d, j);
    }
}

} // verus!
