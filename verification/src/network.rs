//! What a forward pass computes, in real numbers.
use vstd::prelude::*;

use crate::forward::{
    angle_expr, attended, classified, column, embedded, gated, head_attended, head_part,
    head_scored, head_start, head_weights, cache_len, layer_run, layer_runs, layer_steps,
    layers_run, lemma_block_start, lemma_head_bounds, lemma_slot, pair_turned, part, passed,
    positioned, rotation, runs, score_expr, slot, state_fits, swiglu_expr, turned, State,
};
use crate::math::{lemma_row_bounds, multiplied, normalized, softmaxed};
use crate::meaning::{
    law_accumulation, law_inner_product, law_matrix_product, law_normalization, law_softmax,
    lemma_operand, lemma_operands, lemma_sum_scales, real_sum, true_functions, truthful, Functions,
};
use crate::model::{block, block_fits, law_layout_is_ordered, Config, Weights};
use crate::scalar::{
    binary, con, dot_expr, evaluates, gives, over, plus, times, unary, val, BinaryOp, Constant,
    Term, UnaryOp,
};

verus! {

/// The angle of the pair at place `p` of a head, at position `pos`: `pos` over ten thousand to the
/// power of the place's share of the head.
pub proof fn law_angle<T, F: Fn(Term<T>) -> T>(
    f: F,
    v: spec_fn(T) -> real,
    g: Functions,
    c: Config,
    pos: int,
    i: int,
    angle: T,
)
    requires
        truthful(f, v, g),
        true_functions(g),
        0 <= pos <= usize::MAX,
        0 < c.n_heads <= c.dim,
        0 <= i < c.dim,
        evaluates(f, angle_expr(c, pos, i), angle),
    ensures
        v(angle) * (g.pow)(
            10000 as real,
            ((i % (c.dim as int / c.n_heads as int)) as real) / ((c.dim as int
                / c.n_heads as int) as real),
        ) == pos as real,
{
    let hs = c.dim as int / c.n_heads as int;
    vstd::arithmetic::div_mod::lemma_div_non_zero(c.dim as int, c.n_heads as int);
    vstd::arithmetic::div_mod::lemma_div_is_ordered_by_denominator(
        c.dim as int,
        1,
        c.n_heads as int,
    );
    vstd::arithmetic::div_mod::lemma_mod_bound(i, hs);
    assert(0 < hs <= c.dim);
    let p = i % hs;
    let share_e = over(con::<T>(Constant::Count(p as usize)), con(Constant::Count(hs as usize)));
    let power_e = binary(BinaryOp::Pow, con(Constant::RopeBase), share_e);
    let freq_e = over(con(Constant::One), power_e);
    let pos_e = con::<T>(Constant::Count(pos as usize));
    let (position, freq) = lemma_operands(f, BinaryOp::Mul, pos_e, freq_e, angle);
    let (one, power) = lemma_operands(f, BinaryOp::Div, con(Constant::One), power_e, freq);
    let (base, share) = lemma_operands(f, BinaryOp::Pow, con(Constant::RopeBase), share_e, power);
    let (place, size) = lemma_operands(
        f,
        BinaryOp::Div,
        con(Constant::Count(p as usize)),
        con(Constant::Count(hs as usize)),
        share,
    );
    let q = v(power);
    let r = v(freq);
    let m = v(position);
    assert(q > 0 as real);
    assert((m * r) * q == m) by (nonlinear_arith)
        requires
            r == (1 as real) / q,
            q > 0 as real,
    ;
}

/// The first pair of a head turns by the position itself, and each later pair by less.
pub proof fn law_later_pairs_turn_slower<T, F: Fn(Term<T>) -> T>(
    f: F,
    v: spec_fn(T) -> real,
    g: Functions,
    c: Config,
    pos: int,
    i: int,
    j: int,
    a: T,
    b: T,
)
    requires
        truthful(f, v, g),
        true_functions(g),
        0 < pos <= usize::MAX,
        0 < c.n_heads <= c.dim,
        0 <= i < c.dim,
        0 <= j < c.dim,
        i % (c.dim as int / c.n_heads as int) < j % (c.dim as int / c.n_heads as int),
        evaluates(f, angle_expr(c, pos, i), a),
        evaluates(f, angle_expr(c, pos, j), b),
    ensures
        v(b) < v(a),
        i % (c.dim as int / c.n_heads as int) == 0 ==> v(a) == pos as real,
{
    let hs = c.dim as int / c.n_heads as int;
    law_angle(f, v, g, c, pos, i, a);
    law_angle(f, v, g, c, pos, j, b);
    vstd::arithmetic::div_mod::lemma_div_non_zero(c.dim as int, c.n_heads as int);
    let h = hs as real;
    let p = (i % hs) as real;
    let q = (j % hs) as real;
    assert(h > 0 as real);
    assert(p < q);
    assert(p / h < q / h) by (nonlinear_arith)
        requires
            p < q,
            h > 0 as real,
    ;
    let x = (g.pow)(10000 as real, p / h);
    let y = (g.pow)(10000 as real, q / h);
    assert(x < y && x > 0 as real);
    let va = v(a);
    let vb = v(b);
    let n = pos as real;
    assert(n > 0 as real);
    assert(vb < va) by (nonlinear_arith)
        requires
            va * x == n,
            vb * y == n,
            x > 0 as real,
            x < y,
            n > 0 as real,
    ;
    if i % hs == 0 {
        assert(p / h == 0 as real) by (nonlinear_arith)
            requires
                p == 0 as real,
                h > 0 as real,
        ;
        assert(va == n) by (nonlinear_arith)
            requires
                va * x == n,
                x == 1 as real,
        ;
    }
}

/// A pair turned by an angle.
proof fn lemma_turned<T, F: Fn(Term<T>) -> T>(
    f: F,
    v: spec_fn(T) -> real,
    g: Functions,
    cos: T,
    sin: T,
    v0: T,
    v1: T,
    r0: T,
    r1: T,
)
    requires
        truthful(f, v, g),
        turned(f, cos, sin, v0, v1, r0, r1),
    ensures
        v(r0) == v(v0) * v(cos) - v(v1) * v(sin),
        v(r1) == v(v0) * v(sin) + v(v1) * v(cos),
{
    let a = times(val(v0), val(cos));
    let b = times(val(v1), val(sin));
    let c = times(val(v0), val(sin));
    let d = times(val(v1), val(cos));
    let (p, q) = lemma_operands(f, BinaryOp::Sub, a, b, r0);
    let (p0, p1) = lemma_operands(f, BinaryOp::Mul, val(v0), val(cos), p);
    let (q0, q1) = lemma_operands(f, BinaryOp::Mul, val(v1), val(sin), q);
    let (s, t) = lemma_operands(f, BinaryOp::Add, c, d, r1);
    let (s0, s1) = lemma_operands(f, BinaryOp::Mul, val(v0), val(sin), s);
    let (t0, t1) = lemma_operands(f, BinaryOp::Mul, val(v1), val(cos), t);
}

/// The pair at `i` of the query, and of this position's key where it is long enough, turns by
/// `pos` over ten thousand to the power of the pair's share of its head.
pub proof fn law_rotation<T, F: Fn(Term<T>) -> T>(
    f: F,
    v: spec_fn(T) -> real,
    g: Functions,
    c: Config,
    l: int,
    pos: int,
    a: State<T>,
    b: State<T>,
    i: int,
) -> (angle: real)
    requires
        truthful(f, v, g),
        true_functions(g),
        0 <= pos <= usize::MAX,
        0 < c.n_heads <= c.dim,
        0 <= i < c.dim,
        i % 2 == 0,
        positioned(f, c, l, pos, a, b),
    ensures
        angle * (g.pow)(
            10000 as real,
            ((i % (c.dim as int / c.n_heads as int)) as real) / ((c.dim as int
                / c.n_heads as int) as real),
        ) == pos as real,
        v(b.q[i]) == v(a.q[i]) * (g.cos)(angle) - v(a.q[i + 1]) * (g.sin)(angle),
        v(b.q[i + 1]) == v(a.q[i]) * (g.sin)(angle) + v(a.q[i + 1]) * (g.cos)(angle),
        i < (c.dim * c.n_kv_heads) / c.n_heads as int ==> {
            let k = (c.dim * c.n_kv_heads) / c.n_heads as int;
            let at = l * c.seq_len * k + pos * k + i;
            &&& v(b.key_cache[at]) == v(a.key_cache[at]) * (g.cos)(angle) - v(a.key_cache[at + 1])
                * (g.sin)(angle)
            &&& v(b.key_cache[at + 1]) == v(a.key_cache[at]) * (g.sin)(angle) + v(
                a.key_cache[at + 1],
            ) * (g.cos)(angle)
        },
{
    let at = slot(c, l, pos);
    assert(pair_turned(f, c, pos, at, i, a, b));
    let (cos, sin) = choose|cos: T, sin: T|
        {
            &&& #[trigger] rotation(f, c, pos, i, cos, sin)
            &&& turned(f, cos, sin, a.q[i], a.q[i + 1], b.q[i], b.q[i + 1])
            &&& i < c.spec_kv_dim() ==> turned(
                f,
                cos,
                sin,
                a.key_cache[at + i],
                a.key_cache[at + i + 1],
                b.key_cache[at + i],
                b.key_cache[at + i + 1],
            )
        };
    let angle = choose|angle: T|
        {
            &&& #[trigger] evaluates(f, angle_expr(c, pos, i), angle)
            &&& gives(f, Term::Unary(UnaryOp::Cos, angle), cos)
            &&& gives(f, Term::Unary(UnaryOp::Sin, angle), sin)
        };
    law_angle(f, v, g, c, pos, i, angle);
    lemma_turned(f, v, g, cos, sin, a.q[i], a.q[i + 1], b.q[i], b.q[i + 1]);
    if i < c.spec_kv_dim() {
        lemma_turned(
            f,
            v,
            g,
            cos,
            sin,
            a.key_cache[at + i],
            a.key_cache[at + i + 1],
            b.key_cache[at + i],
            b.key_cache[at + i + 1],
        );
    }
    v(angle)
}

/// What a head makes of a scalar of the values is their mean over the positions up to this one,
/// each weighted by the exponential of its score: the inner product of the head's query with the
/// position's key, over the square root of their length.
pub proof fn law_attention<T, F: Fn(Term<T>) -> T>(
    f: F,
    v: spec_fn(T) -> real,
    g: Functions,
    c: Config,
    l: int,
    pos: int,
    a: State<T>,
    b: State<T>,
    h: int,
    i: int,
)
    requires
        truthful(f, v, g),
        true_functions(g),
        state_fits(c),
        layer_runs(c, pos),
        a.sized(c),
        0 <= l < c.n_layers,
        0 <= pos,
        0 <= h < c.n_heads,
        0 <= i < c.dim as int / c.n_heads as int,
        attended(f, c, l, pos, a, b),
    ensures
        ({
            let hs = c.dim as int / c.n_heads as int;
            let k = (c.dim * c.n_kv_heads) / c.n_heads as int;
            let group = c.n_heads as int / c.n_kv_heads as int;
            let base = l * c.seq_len * k + (h / group) * hs;
            let score = |t: int|
                real_sum(
                    Seq::new(
                        hs as nat,
                        |m: int| v(a.q[h * hs + m]) * v(a.key_cache[base + t * k + m]),
                    ),
                ) / (g.sqrt)(hs as real);
            v(b.xb[h * hs + i]) * real_sum(
                Seq::new((pos + 1) as nat, |t: int| (g.exp)(score(t))),
            ) == real_sum(
                Seq::new(
                    (pos + 1) as nat,
                    |t: int| (g.exp)(score(t)) * v(a.value_cache[base + t * k + i]),
                ),
            )
        }),
{
    lemma_head_bounds(c, l, pos, h);
    let hs = c.spec_head_size();
    let k = c.spec_kv_dim();
    let base = head_start(c, l, h);
    let n = (pos + 1) as nat;
    let score = |t: int|
        real_sum(
            Seq::new(hs as nat, |m: int| v(a.q[h * hs + m]) * v(a.key_cache[base + t * k + m])),
        ) / (g.sqrt)(hs as real);
    assert(head_attended(f, c, l, pos, h, a, b));
    let weights = head_weights(b.att, c, h, 0, pos + 1);
    let scores = choose|scores: Seq<T>| #[trigger]
        head_scored(f, c, l, pos, h, a, scores) && softmaxed(f, scores, weights);
    let q = head_part(a.q, c, h);
    assert(hs <= c.dim) by {
        vstd::arithmetic::div_mod::lemma_div_is_ordered_by_denominator(
            c.dim as int,
            1,
            c.n_heads as int,
        );
    }
    assert forall|t: int| 0 <= t <= pos implies v(#[trigger] scores[t]) == score(t) by {
        lemma_position_bounds(c, l, pos, h, t);
        let key = part(a.key_cache, base, k, hs, t);
        assert(evaluates(f, score_expr(q, key), scores[t]));
        let dot_e = dot_expr(Constant::EmptySum, q, key);
        let count_e = con::<T>(Constant::Count(q.len() as usize));
        let root_e = unary(UnaryOp::Sqrt, count_e);
        let (dot, root) = lemma_operands(f, BinaryOp::Div, dot_e, root_e, scores[t]);
        let count = lemma_operand(f, UnaryOp::Sqrt, count_e, root);
        law_inner_product(f, v, g, Constant::EmptySum, q, key, dot);
        assert(Seq::new(q.len(), |m: int| v(q[m]) * v(key[m])) =~= Seq::new(
            hs as nat,
            |m: int| v(a.q[h * hs + m]) * v(a.key_cache[base + t * k + m]),
        ));
        assert((g.sqrt)(hs as real) > 0 as real);
    }
    let exps = Seq::new(n, |t: int| (g.exp)(score(t)));
    let total = real_sum(exps);
    let raw = Seq::new(scores.len(), |t: int| (g.exp)(v(scores[t])));
    assert(raw =~= exps);
    let values = column(a.value_cache, base, k, pos + 1, i);
    let terms = Seq::new(n, |t: int| v(weights[t]) * v(values[t]));
    let sums = Seq::new(n, |t: int| (g.exp)(score(t)) * v(a.value_cache[base + t * k + i]));
    assert forall|t: int| 0 <= t < terms.len() implies #[trigger] sums[t] == terms[t] * total by {
        law_softmax(f, v, g, scores, weights, t);
        let w = v(weights[t]);
        let x = v(values[t]);
        assert((w * x) * total == (w * total) * x) by (nonlinear_arith);
    }
    lemma_sum_scales(terms, sums, total);
    let out = head_part(b.xb, c, h)[i];
    law_inner_product(f, v, g, Constant::Zero, weights, values, out);
    assert(Seq::new(weights.len(), |t: int| v(weights[t]) * v(values[t])) =~= terms);
}

/// The key and value that a head reads of a position lie within the caches.
proof fn lemma_position_bounds(c: Config, l: int, pos: int, h: int, t: int)
    requires
        state_fits(c),
        layer_runs(c, pos),
        0 <= l < c.n_layers,
        0 <= t <= pos,
        0 <= h < c.n_heads,
    ensures
        0 <= head_start(c, l, h) + t * c.spec_kv_dim(),
        head_start(c, l, h) + t * c.spec_kv_dim() + c.spec_head_size() <= cache_len(c),
{
    lemma_head_bounds(c, l, pos, h);
    let k = c.spec_kv_dim();
    assert(0 <= t * k && t * k <= pos * k) by (nonlinear_arith)
        requires
            0 <= t <= pos,
            0 <= k,
    ;
}

/// The gated scalar: the gating scalar times the logistic function of itself, times the other.
pub proof fn law_gating<T, F: Fn(Term<T>) -> T>(
    f: F,
    v: spec_fn(T) -> real,
    g: Functions,
    a: State<T>,
    b: State<T>,
    i: int,
)
    requires
        truthful(f, v, g),
        true_functions(g),
        gated(f, a, b),
        0 <= i < a.hb.len(),
    ensures
        v(b.hb[i]) * ((1 as real) + (g.exp)(-v(a.hb[i]))) == v(a.hb[i]) * v(a.hb2[i]),
{
    let x = a.hb[i];
    let u = a.hb2[i];
    assert(evaluates(f, swiglu_expr(x, u), b.hb[i]));
    let one_e = con::<T>(Constant::One);
    let neg_e = unary(UnaryOp::Neg, val(x));
    let exp_e = unary(UnaryOp::Exp, neg_e);
    let below_e = plus(one_e, exp_e);
    let sig_e = over(one_e, below_e);
    let silu_e = times(val(x), sig_e);
    let (silu, other) = lemma_operands(f, BinaryOp::Mul, silu_e, val(u), b.hb[i]);
    let (x2, sig) = lemma_operands(f, BinaryOp::Mul, val(x), sig_e, silu);
    let (one, below) = lemma_operands(f, BinaryOp::Div, one_e, below_e, sig);
    let (one2, e) = lemma_operands(f, BinaryOp::Add, one_e, exp_e, below);
    let neg = lemma_operand(f, UnaryOp::Exp, neg_e, e);
    let x3 = lemma_operand(f, UnaryOp::Neg, val(x), neg);
    let p = v(x);
    let q = v(u);
    let s = v(sig);
    let d = v(below);
    assert(v(e) == (g.exp)(-p));
    assert(d > 0 as real);
    assert(((p * s) * q) * d == p * q) by (nonlinear_arith)
        requires
            s == (1 as real) / d,
            d > 0 as real,
    ;
}

/// Row `i` of the matrix from `offset` on, times a vector.
pub open spec fn row_times<T>(
    v: spec_fn(T) -> real,
    data: Seq<T>,
    offset: int,
    x: Seq<T>,
    i: int,
) -> real {
    real_sum(Seq::new(x.len(), |j: int| v(data[offset + i * x.len() + j]) * v(x[j])))
}

/// The root mean square of a vector, a little above zero.
pub open spec fn root_mean_square<T>(v: spec_fn(T) -> real, g: Functions, x: Seq<T>) -> real {
    (g.sqrt)(
        real_sum(Seq::new(x.len(), |i: int| v(x[i]) * v(x[i]))) / (x.len() as real) + (1 as real)
            / (100000 as real),
    )
}

/// How well the query of head `h` matches the key of position `t`.
pub open spec fn match_score<T>(
    v: spec_fn(T) -> real,
    g: Functions,
    c: Config,
    l: int,
    q: Seq<T>,
    keys: Seq<T>,
    h: int,
    t: int,
) -> real {
    let hs = c.dim as int / c.n_heads as int;
    let k = (c.dim * c.n_kv_heads) / c.n_heads as int;
    let group = c.n_heads as int / c.n_kv_heads as int;
    let base = l * c.seq_len * k + (h / group) * hs + t * k;
    real_sum(Seq::new(hs as nat, |m: int| v(q[h * hs + m]) * v(keys[base + m]))) / (g.sqrt)(
        hs as real,
    )
}

/// `out` is the mean of scalar `i` of the values up to position `pos` that head `h` reads, each
/// weighted by the exponential of its score.
pub open spec fn is_weighted_mean<T>(
    v: spec_fn(T) -> real,
    g: Functions,
    c: Config,
    l: int,
    pos: int,
    q: Seq<T>,
    keys: Seq<T>,
    values: Seq<T>,
    h: int,
    i: int,
    out: T,
) -> bool {
    let hs = c.dim as int / c.n_heads as int;
    let k = (c.dim * c.n_kv_heads) / c.n_heads as int;
    let group = c.n_heads as int / c.n_kv_heads as int;
    let base = l * c.seq_len * k + (h / group) * hs;
    v(out) * real_sum(
        Seq::new((pos + 1) as nat, |t: int| (g.exp)(match_score(v, g, c, l, q, keys, h, t))),
    ) == real_sum(
        Seq::new(
            (pos + 1) as nat,
            |t: int|
                (g.exp)(match_score(v, g, c, l, q, keys, h, t)) * v(values[base + t * k + i]),
        ),
    )
}

/// The layer's step laws, gathered: see [`law_layer`].
proof fn lemma_mean<T, F: Fn(Term<T>) -> T>(
    f: F,
    v: spec_fn(T) -> real,
    g: Functions,
    c: Config,
    l: int,
    pos: int,
    a: State<T>,
    b: State<T>,
    h: int,
    i: int,
)
    requires
        truthful(f, v, g),
        true_functions(g),
        state_fits(c),
        layer_runs(c, pos),
        a.sized(c),
        0 <= l < c.n_layers,
        0 <= pos,
        0 <= h < c.n_heads,
        0 <= i < c.dim as int / c.n_heads as int,
        attended(f, c, l, pos, a, b),
    ensures
        is_weighted_mean(
            v,
            g,
            c,
            l,
            pos,
            a.q,
            a.key_cache,
            a.value_cache,
            h,
            i,
            b.xb[h * (c.dim as int / c.n_heads as int) + i],
        ),
{
    law_attention(f, v, g, c, l, pos, a, b, h, i);
    let hs = c.dim as int / c.n_heads as int;
    let k = (c.dim * c.n_kv_heads) / c.n_heads as int;
    let group = c.n_heads as int / c.n_kv_heads as int;
    let base = l * c.seq_len * k + (h / group) * hs;
    let score = |t: int|
        real_sum(
            Seq::new(hs as nat, |m: int| v(a.q[h * hs + m]) * v(a.key_cache[base + t * k + m])),
        ) / (g.sqrt)(hs as real);
    let other = |t: int| match_score(v, g, c, l, a.q, a.key_cache, h, t);
    assert forall|t: int| score(t) == #[trigger] other(t) by {
        assert(Seq::new(
            hs as nat,
            |m: int| v(a.q[h * hs + m]) * v(a.key_cache[base + t * k + m]),
        ) =~= Seq::new(
            hs as nat,
            |m: int|
                v(a.q[h * hs + m]) * v(
                    a.key_cache[l * c.seq_len * k + (h / group) * hs + t * k + m],
                ),
        ));
    }
    let n = (pos + 1) as nat;
    let s1 = Seq::new(n, |t: int| (g.exp)(score(t)));
    let s2 = Seq::new(n, |t: int| (g.exp)(match_score(v, g, c, l, a.q, a.key_cache, h, t)));
    assert forall|t: int| 0 <= t < n implies s1[t] == #[trigger] s2[t] by {
        assert(score(t) == other(t));
    }
    assert(s1 =~= s2);
    let r1 = Seq::new(n, |t: int| (g.exp)(score(t)) * v(a.value_cache[base + t * k + i]));
    let r2 = Seq::new(
        n,
        |t: int|
            (g.exp)(match_score(v, g, c, l, a.q, a.key_cache, h, t)) * v(
                a.value_cache[base + t * k + i],
            ),
    );
    assert forall|t: int| 0 <= t < n implies r1[t] == #[trigger] r2[t] by {
        assert(score(t) == other(t));
    }
    assert(r1 =~= r2);
}

/// A product with block `l` of the matrices from `offset` on.
proof fn lemma_block_product<T, F: Fn(Term<T>) -> T>(
    f: F,
    v: spec_fn(T) -> real,
    g: Functions,
    data: Seq<T>,
    offset: int,
    l: int,
    x: Seq<T>,
    d: int,
    size: int,
    before: Seq<T>,
    out: Seq<T>,
    i: int,
)
    requires
        truthful(f, v, g),
        0 <= offset,
        0 <= l,
        size == d * x.len(),
        block_fits(data.len() as int, offset, l, size),
        multiplied(f, x, block(data, offset, l, size), x.len() as int, d, before, out),
        0 <= i < d <= out.len(),
    ensures
        v(out[i]) == row_times(v, data, offset + l * size, x, i),
{
    let w = block(data, offset, l, size);
    lemma_block_start(l, d, x.len() as int);
    lemma_row_bounds(i, x.len() as int, d);
    law_matrix_product(f, v, g, x, w, d, before, out, i);
    assert(Seq::new(x.len(), |j: int| v(w[i * x.len() + j]) * v(x[j])) =~= Seq::new(
        x.len(),
        |j: int| v(data[offset + l * size + i * x.len() + j]) * v(x[j]),
    ));
}

proof fn lemma_block_normalization<T, F: Fn(Term<T>) -> T>(
    f: F,
    v: spec_fn(T) -> real,
    g: Functions,
    data: Seq<T>,
    offset: int,
    l: int,
    x: Seq<T>,
    before: Seq<T>,
    out: Seq<T>,
    j: int,
)
    requires
        truthful(f, v, g),
        true_functions(g),
        0 <= offset,
        0 <= l,
        x.len() <= usize::MAX,
        block_fits(data.len() as int, offset, l, x.len() as int),
        normalized(f, x, block(data, offset, l, x.len() as int), before, out),
        0 <= j < x.len() <= out.len(),
    ensures
        v(out[j]) * root_mean_square(v, g, x) == v(data[offset + l * x.len() + j]) * v(x[j]),
{
    let w = block(data, offset, l, x.len() as int);
    assert(0 <= l * x.len()) by (nonlinear_arith)
        requires
            0 <= l,
    ;
    law_normalization(f, v, g, x, w, before, out, j);
    assert(w[j] == data[offset + l * x.len() + j]);
}

/// What a layer computes. The states it passes through hold, one after the other: the normalized
/// stream; the query, key and value; the turned query and key; the heads' means of the values; the
/// stream with their projection added; the gating and up projections of the normalized stream; the
/// gated vector; and the stream with its projection added.
pub proof fn law_layer<T, F: Fn(Term<T>) -> T>(
    f: F,
    v: spec_fn(T) -> real,
    g: Functions,
    c: Config,
    w: Weights<T>,
    l: int,
    pos: int,
    a: State<T>,
    b: State<T>,
) -> (t: Seq<State<T>>)
    requires
        truthful(f, v, g),
        true_functions(g),
        state_fits(c),
        layer_runs(c, pos),
        w.covers_layer(c, l),
        a.sized(c),
        0 <= l < c.n_layers,
        0 <= pos,
        layer_run(f, c, w, l, pos, a, b),
    ensures
        t.len() == 9,
        t[0] == a,
        t[8] == b,
        b.sized(c),
        forall|j: int|
            0 <= j < c.dim ==> v(#[trigger] t[1].xb[j]) * root_mean_square(v, g, a.x) == v(
                w.data@[w.rms_att_offset + l * c.dim + j],
            ) * v(a.x[j]),
        forall|i: int|
            0 <= i < c.dim ==> v(#[trigger] t[2].q[i]) == row_times(
                v,
                w.data@,
                w.wq_offset + l * (c.dim * c.dim),
                t[1].xb,
                i,
            ),
        ({
            let k = (c.dim * c.n_kv_heads) / c.n_heads as int;
            let at = l * c.seq_len * k + pos * k;
            forall|i: int|
                0 <= i < k ==> v(#[trigger] t[2].key_cache[at + i]) == row_times(
                    v,
                    w.data@,
                    w.wk_offset + l * (c.dim * k),
                    t[1].xb,
                    i,
                )
        }),
        ({
            let k = (c.dim * c.n_kv_heads) / c.n_heads as int;
            let at = l * c.seq_len * k + pos * k;
            forall|i: int|
                0 <= i < k ==> v(#[trigger] b.value_cache[at + i]) == row_times(
                    v,
                    w.data@,
                    w.wv_offset + l * (c.dim * k),
                    t[1].xb,
                    i,
                )
        }),
        positioned(f, c, l, pos, t[2], t[3]),
        b.key_cache == t[3].key_cache,
        forall|h: int, i: int|
            0 <= h < c.n_heads && 0 <= i < c.dim as int / c.n_heads as int
                ==> #[trigger] is_weighted_mean(
                v,
                g,
                c,
                l,
                pos,
                t[3].q,
                b.key_cache,
                b.value_cache,
                h,
                i,
                t[4].xb[h * (c.dim as int / c.n_heads as int) + i],
            ),
        forall|i: int|
            0 <= i < c.dim ==> v(#[trigger] t[5].x[i]) == v(a.x[i]) + row_times(
                v,
                w.data@,
                w.wo_offset + l * (c.dim * c.dim),
                t[4].xb,
                i,
            ),
        forall|j: int|
            0 <= j < c.dim ==> v(#[trigger] t[6].xb[j]) * root_mean_square(v, g, t[5].x) == v(
                w.data@[w.rms_ffn_offset + l * c.dim + j],
            ) * v(t[5].x[j]),
        forall|i: int|
            0 <= i < c.hidden_dim ==> v(#[trigger] t[6].hb[i]) == row_times(
                v,
                w.data@,
                w.w1_offset + l * (c.dim * c.hidden_dim),
                t[6].xb,
                i,
            ),
        forall|i: int|
            0 <= i < c.hidden_dim ==> v(#[trigger] t[6].hb2[i]) == row_times(
                v,
                w.data@,
                w.w3_offset + l * (c.dim * c.hidden_dim),
                t[6].xb,
                i,
            ),
        forall|i: int|
            0 <= i < c.hidden_dim ==> v(#[trigger] t[7].hb[i]) * ((1 as real) + (g.exp)(
                -v(t[6].hb[i]),
            )) == v(t[6].hb[i]) * v(t[6].hb2[i]),
        forall|i: int|
            0 <= i < c.dim ==> v(#[trigger] b.x[i]) == v(t[5].x[i]) + row_times(
                v,
                w.data@,
                w.w2_offset + l * (c.hidden_dim * c.dim),
                t[7].hb,
                i,
            ),
{
    let t = choose|t: Seq<State<T>>| #[trigger]
        layer_steps(f, c, w, l, pos, t) && t[0] == a && t[8] == b;
    let d = c.dim as int;
    let hd = c.hidden_dim as int;
    let hs = c.spec_head_size();
    let k = c.spec_kv_dim();
    let at = slot(c, l, pos);
    let data = w.data@;
    lemma_slot(c, l, pos);
    law_layout_is_ordered(c);
    lemma_block_start(l, d, d);
    lemma_block_start(l, k, d);
    lemma_block_start(l, hd, d);
    assert(t[3].sized(c));
    assert(t[6].sized(c));
    assert forall|j: int| 0 <= j < d implies v(#[trigger] t[1].xb[j]) * root_mean_square(v, g, a.x)
        == v(data[w.rms_att_offset + l * d + j]) * v(a.x[j]) by {
        let o = w.rms_att_offset as int;
        lemma_block_normalization(f, v, g, data, o, l, a.x, a.xb, t[1].xb, j);
    }
    let n = t[1].xb;
    assert forall|i: int| 0 <= i < d implies v(#[trigger] t[2].q[i]) == row_times(
        v,
        data,
        w.wq_offset + l * (d * d),
        n,
        i,
    ) by {
        lemma_block_product(f, v, g, data, w.wq_offset as int, l, n, d, d * d, t[1].q, t[2].q, i);
    }
    assert forall|i: int| 0 <= i < k implies v(#[trigger] t[2].key_cache[at + i]) == row_times(
        v,
        data,
        w.wk_offset + l * (d * k),
        n,
        i,
    ) by {
        let before = t[1].key_cache.skip(at);
        let after = t[2].key_cache.skip(at);
        lemma_block_product(f, v, g, data, w.wk_offset as int, l, n, k, d * k, before, after, i);
        assert(after[i] == t[2].key_cache[at + i]);
    }
    assert forall|i: int| 0 <= i < k implies v(#[trigger] b.value_cache[at + i]) == row_times(
        v,
        data,
        w.wv_offset + l * (d * k),
        n,
        i,
    ) by {
        let before = t[1].value_cache.skip(at);
        let after = t[2].value_cache.skip(at);
        lemma_block_product(f, v, g, data, w.wv_offset as int, l, n, k, d * k, before, after, i);
        assert(after[i] == t[2].value_cache[at + i]);
    }
    assert forall|h: int, i: int| 0 <= h < c.n_heads && 0 <= i < hs implies
        #[trigger] is_weighted_mean(
        v,
        g,
        c,
        l,
        pos,
        t[3].q,
        b.key_cache,
        b.value_cache,
        h,
        i,
        t[4].xb[h * (c.dim as int / c.n_heads as int) + i],
    ) by {
        lemma_mean(f, v, g, c, l, pos, t[3], t[4], h, i);
    }
    let m = t[4].xb;
    assert forall|i: int| 0 <= i < d implies v(#[trigger] t[5].x[i]) == v(a.x[i]) + row_times(
        v,
        data,
        w.wo_offset + l * (d * d),
        m,
        i,
    ) by {
        let o = w.wo_offset as int;
        lemma_block_product(f, v, g, data, o, l, m, d, d * d, t[4].xb2, t[5].xb2, i);
        law_accumulation(f, v, g, t[4].x, t[5].xb2, t[5].x, i);
    }
    let x1 = t[5].x;
    assert forall|j: int| 0 <= j < d implies v(#[trigger] t[6].xb[j]) * root_mean_square(v, g, x1)
        == v(data[w.rms_ffn_offset + l * d + j]) * v(x1[j]) by {
        let o = w.rms_ffn_offset as int;
        lemma_block_normalization(f, v, g, data, o, l, x1, t[5].xb, t[6].xb, j);
    }
    let n2 = t[6].xb;
    assert forall|i: int| 0 <= i < hd implies v(#[trigger] t[6].hb[i]) == row_times(
        v,
        data,
        w.w1_offset + l * (d * hd),
        n2,
        i,
    ) by {
        let o = w.w1_offset as int;
        lemma_block_product(f, v, g, data, o, l, n2, hd, d * hd, t[5].hb, t[6].hb, i);
    }
    assert forall|i: int| 0 <= i < hd implies v(#[trigger] t[6].hb2[i]) == row_times(
        v,
        data,
        w.w3_offset + l * (d * hd),
        n2,
        i,
    ) by {
        let o = w.w3_offset as int;
        lemma_block_product(f, v, g, data, o, l, n2, hd, d * hd, t[5].hb2, t[6].hb2, i);
    }
    assert forall|i: int| 0 <= i < hd implies v(#[trigger] t[7].hb[i]) * ((1 as real) + (g.exp)(
        -v(t[6].hb[i]),
    )) == v(t[6].hb[i]) * v(t[6].hb2[i]) by {
        law_gating(f, v, g, t[6], t[7], i);
    }
    let y = t[7].hb;
    assert forall|i: int| 0 <= i < d implies v(#[trigger] b.x[i]) == v(x1[i]) + row_times(
        v,
        data,
        w.w2_offset + l * (hd * d),
        y,
        i,
    ) by {
        let o = w.w2_offset as int;
        assert(d * hd == hd * d) by (nonlinear_arith);
        lemma_block_product(f, v, g, data, o, l, y, d, hd * d, t[7].xb, b.xb, i);
        law_accumulation(f, v, g, t[7].x, b.xb, b.x, i);
    }
    t
}

/// What a forward pass computes: the token's row of the embedding goes through the layers, and
/// each score is the classifier's row times the normalized result.
pub proof fn law_forward_pass<T, F: Fn(Term<T>) -> T>(
    f: F,
    v: spec_fn(T) -> real,
    g: Functions,
    c: Config,
    w: Weights<T>,
    token: int,
    pos: int,
    a: State<T>,
    b: State<T>,
) -> (t: Seq<State<T>>)
    requires
        truthful(f, v, g),
        true_functions(g),
        runs(c, w, token, pos),
        a.sized(c),
        0 <= token,
        0 <= pos,
        passed(f, c, w, token, pos, a, b),
    ensures
        t.len() == c.n_layers + 1,
        t[0].sized(c),
        forall|j: int|
            0 <= j < c.dim ==> #[trigger] t[0].x[j] == w.data@[w.token_embedding_offset + token
                * c.dim + j],
        t[0].key_cache == a.key_cache,
        t[0].value_cache == a.value_cache,
        forall|l: int|
            #![trigger t[l]]
            0 <= l < c.n_layers ==> layer_run(f, c, w, l, pos, t[l], t[l + 1]),
        forall|j: int|
            0 <= j < c.dim ==> v(#[trigger] b.x[j]) * root_mean_square(
                v,
                g,
                t[c.n_layers as int].x,
            ) == v(w.data@[w.rms_final_offset + j]) * v(t[c.n_layers as int].x[j]),
        forall|i: int|
            0 <= i < c.vocab_size ==> v(#[trigger] b.logits[i]) == row_times(
                v,
                w.data@,
                if w.shared_weights {
                    w.token_embedding_offset as int
                } else {
                    w.wcls_offset as int
                },
                b.x,
                i,
            ),
{
    let n = c.n_layers as int;
    let t = choose|t: Seq<State<T>>|
        {
            &&& #[trigger] layers_run(f, c, w, pos, t)
            &&& embedded(c, w, token, a, t[0])
            &&& classified(f, c, w, t[n], b)
        };
    assert(0 <= token * c.dim) by (nonlinear_arith)
        requires
            0 <= token,
    ;
    lemma_layers_sized(f, v, g, c, w, pos, t, n);
    let data = w.data@;
    let d = c.dim as int;
    let size = c.vocab_size as int;
    let last = t[n].x;
    assert forall|j: int| 0 <= j < d implies v(#[trigger] b.x[j]) * root_mean_square(v, g, last)
        == v(data[w.rms_final_offset + j]) * v(last[j]) by {
        let o = w.rms_final_offset as int;
        assert(data.subrange(o, o + d) == block(data, o, 0, d));
        lemma_block_normalization(f, v, g, data, o, 0, last, last, b.x, j);
    }
    let o = w.classifier_offset() as int;
    lemma_block_start(0, size, d);
    assert(data.subrange(o, o + size * d) == block(data, o, 0, size * d));
    assert forall|i: int| 0 <= i < size implies v(#[trigger] b.logits[i]) == row_times(
        v,
        data,
        o,
        b.x,
        i,
    ) by {
        lemma_block_product(f, v, g, data, o, 0, b.x, size, size * d, t[n].logits, b.logits, i);
    }
    t
}

proof fn lemma_layers_sized<T, F: Fn(Term<T>) -> T>(
    f: F,
    v: spec_fn(T) -> real,
    g: Functions,
    c: Config,
    w: Weights<T>,
    pos: int,
    t: Seq<State<T>>,
    n: int,
)
    requires
        truthful(f, v, g),
        true_functions(g),
        state_fits(c),
        w.covers(c),
        c.n_layers > 0 ==> layer_runs(c, pos),
        layers_run(f, c, w, pos, t),
        t[0].sized(c),
        0 <= n <= c.n_layers,
        0 <= pos,
    ensures
        t[n].sized(c),
    decreases n,
{
    if n > 0 {
        let k = n - 1;
        lemma_layers_sized(f, v, g, c, w, pos, t, k);
        assert(layer_run(f, c, w, k, pos, t[k], t[k + 1]));
        assert(w.covers_layer(c, k));
        let s = law_layer(f, v, g, c, w, k, pos, t[k], t[n]);
    }
}

} // verus!
