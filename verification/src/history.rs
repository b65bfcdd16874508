//! What a forward pass reads of the positions before it, and what it leaves as it was.
use vstd::prelude::*;

use crate::forward::{
    attended, attention_added, attention_normed, cache_len, classified, column, embedded, expanded,
    ffn_added, gated, head_attended, head_part, head_scored, head_start, head_weights, kv_head,
    layer_run, layer_runs, layer_steps, layers_run, lemma_slot, multiplied_at, pair_turned, part,
    passed, positioned, projected, runs, slot, state_fits, turned_len, State,
};
use crate::math::{row, softmaxed};
use crate::model::{
    block, block_fits, law_layout_is_ordered, law_long_enough_checkpoint_covers, layout_end,
    placed, Config, Weights,
};
use crate::scalar::{dot_expr, evaluates, Constant, Term};

verus! {

/// The key or value that a cache holds for a layer and a position.
pub open spec fn cached<T>(c: Config, l: int, p: int, cache: Seq<T>) -> Seq<T> {
    cache.subrange(slot(c, l, p), slot(c, l, p) + c.spec_kv_dim())
}

/// The heads share out a vector evenly, and the heads of keys and values share out the heads.
pub open spec fn evenly_split(c: Config) -> bool {
    &&& 0 < c.n_kv_heads
    &&& 0 < c.n_heads
    &&& c.n_heads as int % c.n_kv_heads as int == 0
    &&& c.dim as int % c.n_heads as int == 0
}

/// Where the heads split evenly, a key is as long as its heads together, and every head reads one
/// of them.
pub proof fn law_heads_share_keys(c: Config, h: int)
    requires
        evenly_split(c),
        0 <= h < c.n_heads,
    ensures
        c.spec_kv_dim() == c.n_kv_heads * c.spec_head_size(),
        0 <= kv_head(c, h) < c.n_kv_heads,
        0 <= kv_head(c, h) * c.spec_head_size(),
        kv_head(c, h) * c.spec_head_size() + c.spec_head_size() <= c.spec_kv_dim(),
{
    let n = c.n_heads as int;
    let k = c.n_kv_heads as int;
    let d = c.dim as int;
    let hs = d / n;
    let m = n / k;
    vstd::arithmetic::div_mod::lemma_fundamental_div_mod(d, n);
    vstd::arithmetic::div_mod::lemma_fundamental_div_mod(n, k);
    vstd::arithmetic::div_mod::lemma_div_pos_is_pos(d, n);
    vstd::arithmetic::div_mod::lemma_div_pos_is_pos(n, k);
    assert(0 < m) by (nonlinear_arith)
        requires
            0 < n,
            n == k * m,
            0 <= m,
    ;
    assert(d * k == n * (k * hs)) by (nonlinear_arith)
        requires
            d == n * hs,
    ;
    vstd::arithmetic::div_mod::lemma_div_multiples_vanish(k * hs, n);
    let g = kv_head(c, h);
    vstd::arithmetic::div_mod::lemma_fundamental_div_mod(h, m);
    vstd::arithmetic::div_mod::lemma_div_pos_is_pos(h, m);
    assert(g < k) by (nonlinear_arith)
        requires
            h == m * g + h % m,
            0 <= h % m,
            h < n,
            n == k * m,
            0 < m,
    ;
    assert(0 <= g * hs && g * hs + hs <= k * hs) by (nonlinear_arith)
        requires
            0 <= g,
            g + 1 <= k,
            0 <= hs,
    ;
}

/// A layer runs at every position of the sequence where the heads split evenly and their size is
/// even.
pub proof fn law_even_heads_run(c: Config, pos: int)
    requires
        evenly_split(c),
        c.spec_head_size() % 2 == 0,
        0 <= pos < c.seq_len,
    ensures
        layer_runs(c, pos),
        c.spec_kv_dim() % 2 == 0,
{
    let n = c.n_heads as int;
    let k = c.n_kv_heads as int;
    let d = c.dim as int;
    let hs = c.spec_head_size();
    let kvd = c.spec_kv_dim();
    law_heads_share_keys(c, n - 1);
    vstd::arithmetic::div_mod::lemma_fundamental_div_mod(d, n);
    vstd::arithmetic::div_mod::lemma_fundamental_div_mod(n, k);
    vstd::arithmetic::div_mod::lemma_div_pos_is_pos(d, n);
    vstd::arithmetic::div_mod::lemma_div_pos_is_pos(n, k);
    let half = hs / 2;
    assert(d == 2 * (n * half)) by (nonlinear_arith)
        requires
            d == n * hs,
            hs == 2 * half,
    ;
    assert(kvd == 2 * (k * half)) by (nonlinear_arith)
        requires
            kvd == k * hs,
            hs == 2 * half,
    ;
    assert(k <= n) by (nonlinear_arith)
        requires
            0 < n,
            0 < k,
            n == k * (n / k),
            0 <= n / k,
    ;
    assert(d > 0 ==> d >= n) by (nonlinear_arith)
        requires
            d == n * hs,
            0 <= hs,
            0 < n,
    ;
    let s = c.seq_len as int;
    assert(pos * kvd + kvd <= s * kvd) by (nonlinear_arith)
        requires
            pos + 1 <= s,
            0 <= kvd,
    ;
}

/// A checkpoint that holds all of its weights can run every token of the vocabulary at every
/// position of the sequence, where the heads split evenly and their size is even.
pub proof fn law_whole_checkpoint_runs<T>(
    w: Weights<T>,
    c: Config,
    shared: bool,
    token: int,
    pos: int,
)
    requires
        state_fits(c),
        evenly_split(c),
        c.spec_head_size() % 2 == 0,
        placed(w, c, shared),
        layout_end(c, shared) <= w.data@.len(),
        0 <= token < c.vocab_size,
        0 <= pos < c.seq_len,
    ensures
        runs(c, w, token, pos),
{
    law_even_heads_run(c, pos);
    law_long_enough_checkpoint_covers(w, c, shared);
}

/// The slots of different layers or positions lie apart, within the cache.
proof fn lemma_slots_apart(c: Config, l: int, p: int, m: int, q: int)
    requires
        c.n_heads > 0,
        0 <= l < c.n_layers,
        0 <= m < c.n_layers,
        0 <= p < c.seq_len,
        0 <= q < c.seq_len,
        l != m || p != q,
    ensures
        0 <= c.spec_kv_dim(),
        slot(c, l, p) + c.spec_kv_dim() <= slot(c, m, q) || slot(c, m, q) + c.spec_kv_dim() <= slot(
            c,
            l,
            p,
        ),
{
    law_layout_is_ordered(c);
    let s = c.seq_len as int;
    let k = c.spec_kv_dim();
    let i = l * s + p;
    let j = m * s + q;
    assert(slot(c, l, p) == i * k && slot(c, m, q) == j * k) by (nonlinear_arith)
        requires
            slot(c, l, p) == l * s * k + p * k,
            slot(c, m, q) == m * s * k + q * k,
            i == l * s + p,
            j == m * s + q,
    ;
    if l == m {
        assert(i != j);
    } else {
        assert(i != j) by (nonlinear_arith)
            requires
                i == l * s + p,
                j == m * s + q,
                0 <= p < s,
                0 <= q < s,
                l + 1 <= m || m + 1 <= l,
        ;
    }
    assert(i * k + k <= j * k || j * k + k <= i * k) by (nonlinear_arith)
        requires
            i + 1 <= j || j + 1 <= i,
            0 <= k,
    ;
}

/// A layer changes the caches only where its key and value for this position stand.
proof fn lemma_layer_keeps<T, F: Fn(Term<T>) -> T>(
    f: F,
    c: Config,
    w: Weights<T>,
    l: int,
    pos: int,
    a: State<T>,
    b: State<T>,
)
    requires
        c.n_heads > 0,
        0 <= l < c.n_layers,
        0 <= pos < c.seq_len,
        a.key_cache.len() == cache_len(c),
        a.value_cache.len() == cache_len(c),
        layer_run(f, c, w, l, pos, a, b),
    ensures
        b.key_cache.len() == cache_len(c),
        b.value_cache.len() == cache_len(c),
        forall|j: int|
            0 <= j < cache_len(c) && !(slot(c, l, pos) <= j < slot(c, l, pos) + turned_len(c))
                ==> #[trigger] b.key_cache[j] == a.key_cache[j],
        forall|j: int|
            0 <= j < cache_len(c) && !(slot(c, l, pos) <= j < slot(c, l, pos) + c.spec_kv_dim())
                ==> #[trigger] b.value_cache[j] == a.value_cache[j],
{
    let t = choose|t: Seq<State<T>>| #[trigger]
        layer_steps(f, c, w, l, pos, t) && t[0] == a && t[8] == b;
    lemma_slot(c, l, pos);
    let at = slot(c, l, pos);
    let kvd = c.spec_kv_dim();
    lemma_multiplied_at_keeps(
        f,
        t[1].xb,
        block(w.data@, w.wk_offset as int, l, c.dim * kvd),
        c.dim as int,
        kvd,
        at,
        t[1].key_cache,
        t[2].key_cache,
    );
    lemma_multiplied_at_keeps(
        f,
        t[1].xb,
        block(w.data@, w.wv_offset as int, l, c.dim * kvd),
        c.dim as int,
        kvd,
        at,
        t[1].value_cache,
        t[2].value_cache,
    );
}

proof fn lemma_multiplied_at_keeps<T, F: Fn(Term<T>) -> T>(
    f: F,
    x: Seq<T>,
    w: Seq<T>,
    n: int,
    d: int,
    start: int,
    before: Seq<T>,
    after: Seq<T>,
)
    requires
        multiplied_at(f, x, w, n, d, start, before, after),
        0 <= start <= before.len(),
    ensures
        after.len() == before.len(),
        forall|j: int|
            0 <= j < after.len() && !(start <= j < start + d) ==> #[trigger] after[j] == before[j],
{
    assert forall|j: int| 0 <= j < after.len() && !(start <= j < start + d) implies
        #[trigger] after[j] == before[j] by {
        if j < start {
            assert(after.take(start)[j] == before.take(start)[j]);
        } else {
            assert(after.skip(start)[j - start] == before.skip(start)[j - start]);
        }
    }
}

/// A forward pass leaves the keys and values of all other positions as they were. (A key of odd
/// length takes the first scalar of the next position's key into its rotation.)
pub proof fn law_other_positions_are_kept<T, F: Fn(Term<T>) -> T>(
    f: F,
    c: Config,
    w: Weights<T>,
    token: int,
    pos: int,
    a: State<T>,
    b: State<T>,
    l: int,
    p: int,
)
    requires
        passed(f, c, w, token, pos, a, b),
        a.sized(c),
        state_fits(c),
        0 <= pos,
        layer_runs(c, pos),
        0 <= l < c.n_layers,
        0 <= p < c.seq_len,
        p != pos,
    ensures
        cached(c, l, p, b.value_cache) == cached(c, l, p, a.value_cache),
        c.spec_kv_dim() % 2 == 0 || p != pos + 1 ==> cached(c, l, p, b.key_cache) == cached(
            c,
            l,
            p,
            a.key_cache,
        ),
{
    let t = choose|t: Seq<State<T>>|
        {
            &&& #[trigger] layers_run(f, c, w, pos, t)
            &&& embedded(c, w, token, a, t[0])
            &&& classified(f, c, w, t[c.n_layers as int], b)
        };
    lemma_layers_keep(f, c, w, pos, t, c.n_layers as int, l, p);
}

proof fn lemma_layers_keep<T, F: Fn(Term<T>) -> T>(
    f: F,
    c: Config,
    w: Weights<T>,
    pos: int,
    t: Seq<State<T>>,
    n: int,
    l: int,
    p: int,
)
    requires
        layers_run(f, c, w, pos, t),
        c.n_heads > 0,
        t[0].key_cache.len() == cache_len(c),
        t[0].value_cache.len() == cache_len(c),
        0 <= n <= c.n_layers,
        0 <= pos,
        layer_runs(c, pos),
        0 <= l < c.n_layers,
        0 <= p < c.seq_len,
        p != pos,
    ensures
        t[n].key_cache.len() == cache_len(c),
        t[n].value_cache.len() == cache_len(c),
        cached(c, l, p, t[n].value_cache) == cached(c, l, p, t[0].value_cache),
        c.spec_kv_dim() % 2 == 0 || p != pos + 1 ==> cached(c, l, p, t[n].key_cache) == cached(
            c,
            l,
            p,
            t[0].key_cache,
        ),
    decreases n,
{
    if n > 0 {
        let k = n - 1;
        lemma_layers_keep(f, c, w, pos, t, k, l, p);
        assert(layer_run(f, c, w, k, pos, t[k], t[k + 1]));
        lemma_layer_keeps(f, c, w, k, pos, t[k], t[n]);
        lemma_slots_apart(c, l, p, k, pos);
        lemma_slot(c, l, p);
        let from = slot(c, l, p);
        let at = slot(c, k, pos);
        let kvd = c.spec_kv_dim();
        assert forall|i: int| 0 <= i < kvd implies #[trigger] cached(c, l, p, t[n].value_cache)[i]
            == cached(c, l, p, t[k].value_cache)[i] by {
            assert(t[n].value_cache[from + i] == t[k].value_cache[from + i]);
        }
        assert(cached(c, l, p, t[n].value_cache) =~= cached(c, l, p, t[k].value_cache));
        if kvd % 2 == 0 || p != pos + 1 {
            if kvd % 2 == 1 {
                lemma_slots_apart(c, l, p, k, pos + 1);
                assert(slot(c, k, pos + 1) == at + kvd) by (nonlinear_arith)
                    requires
                        slot(c, k, pos + 1) == k * c.seq_len * kvd + (pos + 1) * kvd,
                        at == k * c.seq_len * kvd + pos * kvd,
                ;
            }
            assert forall|i: int| 0 <= i < kvd implies #[trigger] cached(c, l, p, t[n].key_cache)[i]
                == cached(c, l, p, t[k].key_cache)[i] by {
                assert(!(at <= from + i < at + turned_len(c)));
                assert(t[n].key_cache[from + i] == t[k].key_cache[from + i]);
            }
            assert(cached(c, l, p, t[n].key_cache) =~= cached(c, l, p, t[k].key_cache));
        }
    }
}

/// Two caches hold the same for a layer and a position.
pub open spec fn same_at<T>(c: Config, l: int, p: int, s: Seq<T>, o: Seq<T>) -> bool {
    cached(c, l, p, s) == cached(c, l, p, o)
}

/// Two caches hold the same for the positions before `pos`, and for `pos` in the layers before
/// `l`.
pub open spec fn same_past<T>(c: Config, l: int, pos: int, s: Seq<T>, o: Seq<T>) -> bool {
    forall|k: int, p: int|
        0 <= k < c.n_layers && 0 <= p && (p < pos || p == pos && k < l) ==> #[trigger] same_at(
            c,
            k,
            p,
            s,
            o,
        )
}

/// `base` with the scalars of a slot taken from `src`.
spec fn pasted<T>(c: Config, l: int, pos: int, base: Seq<T>, src: Seq<T>) -> Seq<T> {
    Seq::new(
        base.len(),
        |j: int|
            if slot(c, l, pos) <= j < slot(c, l, pos) + c.spec_kv_dim() {
                src[j]
            } else {
                base[j]
            },
    )
}

/// A slot that two caches hold the same is still the same after one of them has changed in slot
/// `(l, pos)` and the change has been pasted into the other; slot `(l, pos)` is the same then.
proof fn lemma_pasted_same<T>(
    c: Config,
    l: int,
    pos: int,
    s0: Seq<T>,
    s1: Seq<T>,
    o: Seq<T>,
    k: int,
    p: int,
)
    requires
        c.n_heads > 0,
        s0.len() == cache_len(c),
        s1.len() == cache_len(c),
        o.len() == cache_len(c),
        0 <= l < c.n_layers,
        0 <= pos < c.seq_len,
        0 <= k < c.n_layers,
        0 <= p < c.seq_len,
        k == l && p == pos || same_at(c, k, p, s0, o),
        forall|j: int|
            0 <= j < cache_len(c) && !(slot(c, l, pos) <= j < slot(c, l, pos) + c.spec_kv_dim())
                ==> #[trigger] s1[j] == s0[j],
    ensures
        same_at(c, k, p, s1, pasted(c, l, pos, o, s1)),
{
    let o1 = pasted(c, l, pos, o, s1);
    lemma_slot(c, l, pos);
    lemma_slot(c, k, p);
    if k != l || p != pos {
        lemma_slots_apart(c, k, p, l, pos);
    }
    let from = slot(c, k, p);
    assert forall|i: int| 0 <= i < c.spec_kv_dim() implies #[trigger] cached(c, k, p, s1)[i]
        == cached(c, k, p, o1)[i] by {
        if k != l || p != pos {
            assert(s1[from + i] == s0[from + i]);
            assert(cached(c, k, p, s0)[i] == cached(c, k, p, o)[i]);
        }
    }
    assert(cached(c, k, p, s1) =~= cached(c, k, p, o1));
}

/// The same for all slots of the past.
proof fn lemma_pasted_same_past<T>(
    c: Config,
    l: int,
    pos: int,
    m: int,
    s0: Seq<T>,
    s1: Seq<T>,
    o: Seq<T>,
)
    requires
        c.n_heads > 0,
        s0.len() == cache_len(c),
        s1.len() == cache_len(c),
        o.len() == cache_len(c),
        0 <= l < c.n_layers,
        0 <= pos < c.seq_len,
        m == l || m == l + 1,
        same_past(c, m, pos, s0, o),
        forall|j: int|
            0 <= j < cache_len(c) && !(slot(c, l, pos) <= j < slot(c, l, pos) + c.spec_kv_dim())
                ==> #[trigger] s1[j] == s0[j],
    ensures
        same_past(c, l + 1, pos, s1, pasted(c, l, pos, o, s1)),
{
    assert forall|k: int, p: int|
        0 <= k < c.n_layers && 0 <= p && (p < pos || p == pos && k < l + 1) implies
        #[trigger] same_at(
        c,
        k,
        p,
        s1,
        pasted(c, l, pos, o, s1),
    ) by {
        if k != l || p != pos {
            assert(same_at(c, k, p, s0, o));
        }
        lemma_pasted_same(c, l, pos, s0, s1, o, k, p);
    }
}

/// A product that was written into slot `(l, pos)` of one cache is the same product once it is
/// pasted into another.
proof fn lemma_pasted_product<T, F: Fn(Term<T>) -> T>(
    f: F,
    c: Config,
    l: int,
    pos: int,
    x: Seq<T>,
    w: Seq<T>,
    n: int,
    s0: Seq<T>,
    s1: Seq<T>,
    o: Seq<T>,
)
    requires
        c.n_heads > 0,
        s0.len() == cache_len(c),
        o.len() == cache_len(c),
        0 <= l < c.n_layers,
        0 <= pos < c.seq_len,
        multiplied_at(f, x, w, n, c.spec_kv_dim(), slot(c, l, pos), s0, s1),
    ensures
        multiplied_at(
            f,
            x,
            w,
            n,
            c.spec_kv_dim(),
            slot(c, l, pos),
            o,
            pasted(c, l, pos, o, s1),
        ),
{
    lemma_slot(c, l, pos);
    let at = slot(c, l, pos);
    let d = c.spec_kv_dim();
    let o1 = pasted(c, l, pos, o, s1);
    assert(o1.take(at) =~= o.take(at));
    let before = o.skip(at);
    let after = o1.skip(at);
    assert forall|i: int| 0 <= i < d implies evaluates(
        f,
        dot_expr(
            Constant::EmptySum,
            row(w, n, i),
            x,
        ),
        #[trigger] after[i],
    ) by {
        assert(after[i] == s1.skip(at)[i]);
    }
    assert forall|i: int| d <= i < after.len() implies #[trigger] after[i] == before[i] by {
    }
}

/// A step that leads from `s0` to `s1` by rotation leads likewise between states with the same
/// query and the same key in the slot.
proof fn lemma_pasted_rotation<T, F: Fn(Term<T>) -> T>(
    f: F,
    c: Config,
    l: int,
    pos: int,
    s0: State<T>,
    s1: State<T>,
    o: State<T>,
)
    requires
        c.n_heads > 0,
        s0.key_cache.len() == cache_len(c),
        o.key_cache.len() == cache_len(c),
        0 <= l < c.n_layers,
        0 <= pos < c.seq_len,
        c.spec_kv_dim() % 2 == 0,
        positioned(f, c, l, pos, s0, s1),
        o.q == s0.q,
        same_at(c, l, pos, s0.key_cache, o.key_cache),
    ensures
        positioned(
            f,
            c,
            l,
            pos,
            o,
            (State {
                q: s1.q,
                key_cache: pasted(c, l, pos, o.key_cache, s1.key_cache),
                ..o
            }),
        ),
{
    lemma_slot(c, l, pos);
    let at = slot(c, l, pos);
    let kvd = c.spec_kv_dim();
    let o1 = State { q: s1.q, key_cache: pasted(c, l, pos, o.key_cache, s1.key_cache), ..o };
    assert forall|i: int| 0 <= i < c.dim && i % 2 == 0 implies #[trigger] pair_turned(
        f,
        c,
        pos,
        at,
        i,
        o,
        o1,
    ) by {
        assert(pair_turned(f, c, pos, at, i, s0, s1));
        if i < kvd {
            assert(cached(c, l, pos, s0.key_cache)[i] == cached(c, l, pos, o.key_cache)[i]);
            assert(cached(c, l, pos, s0.key_cache)[i + 1] == cached(c, l, pos, o.key_cache)[i + 1]);
        }
    }
}

/// The attention weights of the positions up to `pos` taken from `src`.
spec fn pasted_weights<T>(c: Config, pos: int, base: Seq<T>, src: Seq<T>) -> Seq<T> {
    Seq::new(
        base.len(),
        |j: int|
            if j % (c.seq_len as int) <= pos {
                src[j]
            } else {
                base[j]
            },
    )
}

proof fn lemma_weight_place(h: int, s: int, t: int)
    requires
        0 <= t < s,
    ensures
        (h * s + t) % s == t,
{
    vstd::arithmetic::div_mod::lemma_fundamental_div_mod_converse(h * s + t, s, h, t);
}

/// The part that a head reads of a position lies within the position's slot.
proof fn lemma_part_same<T>(c: Config, l: int, h: int, t: int, s: Seq<T>, o: Seq<T>)
    requires
        evenly_split(c),
        s.len() == cache_len(c),
        o.len() == cache_len(c),
        0 <= l < c.n_layers,
        0 <= t < c.seq_len,
        0 <= h < c.n_heads,
        same_at(c, l, t, s, o),
    ensures
        part(s, head_start(c, l, h), c.spec_kv_dim(), c.spec_head_size(), t) == part(
            o,
            head_start(c, l, h),
            c.spec_kv_dim(),
            c.spec_head_size(),
            t,
        ),
        0 <= head_start(c, l, h) + t * c.spec_kv_dim(),
        head_start(c, l, h) + t * c.spec_kv_dim() + c.spec_head_size() <= cache_len(c),
{
    let hs = c.spec_head_size();
    let kvd = c.spec_kv_dim();
    let start = head_start(c, l, h);
    let off = kv_head(c, h) * hs;
    law_heads_share_keys(c, h);
    lemma_slot(c, l, t);
    vstd::arithmetic::div_mod::lemma_div_pos_is_pos(c.dim as int, c.n_heads as int);
    assert forall|i: int| 0 <= i < hs implies #[trigger] part(s, start, kvd, hs, t)[i] == part(
        o,
        start,
        kvd,
        hs,
        t,
    )[i] by {
        assert(cached(c, l, t, s)[off + i] == cached(c, l, t, o)[off + i]);
    }
    assert(part(s, start, kvd, hs, t) =~= part(o, start, kvd, hs, t));
}

/// A head reads the same from caches that are the same up to `pos`.
proof fn lemma_head_reads_same<T, F: Fn(Term<T>) -> T>(
    f: F,
    c: Config,
    l: int,
    pos: int,
    h: int,
    s0: State<T>,
    s1: State<T>,
    o: State<T>,
    o1: State<T>,
)
    requires
        evenly_split(c),
        s0.key_cache.len() == cache_len(c),
        s0.value_cache.len() == cache_len(c),
        o.key_cache.len() == cache_len(c),
        o.value_cache.len() == cache_len(c),
        s1.att.len() == c.n_heads * c.seq_len,
        o.att.len() == c.n_heads * c.seq_len,
        0 <= l < c.n_layers,
        0 <= pos < c.seq_len,
        0 <= h < c.n_heads,
        head_attended(f, c, l, pos, h, s0, s1),
        o.q == s0.q,
        same_past(c, l + 1, pos, s0.key_cache, o.key_cache),
        same_past(c, l + 1, pos, s0.value_cache, o.value_cache),
        o1.xb == s1.xb,
        o1.att == pasted_weights(c, pos, o.att, s1.att),
    ensures
        head_attended(f, c, l, pos, h, o, o1),
{
    let s = c.seq_len as int;
    let hs = c.spec_head_size();
    let kvd = c.spec_kv_dim();
    law_heads_share_keys(c, h);
    vstd::arithmetic::div_mod::lemma_div_pos_is_pos(c.dim as int, c.n_heads as int);
    assert(0 <= h * s && h * s + s <= c.n_heads * s) by (nonlinear_arith)
        requires
            0 <= h,
            h + 1 <= c.n_heads,
            0 <= s,
    ;
    let weights = head_weights(s1.att, c, h, 0, pos + 1);
    assert(head_weights(o1.att, c, h, 0, pos + 1) =~= weights) by {
        assert forall|t: int| 0 <= t <= pos implies #[trigger] head_weights(
            o1.att,
            c,
            h,
            0,
            pos + 1,
        )[t] == weights[t] by {
            lemma_weight_place(h, s, t);
        }
    }
    assert(head_weights(o1.att, c, h, pos + 1, s) =~= head_weights(o.att, c, h, pos + 1, s)) by {
        assert forall|t: int| 0 <= t < s - pos - 1 implies #[trigger] head_weights(
            o1.att,
            c,
            h,
            pos + 1,
            s,
        )[t] == head_weights(o.att, c, h, pos + 1, s)[t] by {
            lemma_weight_place(h, s, pos + 1 + t);
        }
    }
    let start = head_start(c, l, h);
    assert forall|t: int| 0 <= t <= pos implies #[trigger] part(
        s0.key_cache,
        start,
        kvd,
        hs,
        t,
    ) == part(o.key_cache, start, kvd, hs, t) by {
        assert(same_at(c, l, t, s0.key_cache, o.key_cache));
        lemma_part_same(c, l, h, t, s0.key_cache, o.key_cache);
    }
    let scores = choose|scores: Seq<T>| #[trigger]
        head_scored(f, c, l, pos, h, s0, scores) && softmaxed(f, scores, weights);
    assert(head_scored(f, c, l, pos, h, o, scores));
    assert forall|i: int| 0 <= i < hs implies column(s0.value_cache, start, kvd, pos + 1, i)
        == #[trigger] column(o.value_cache, start, kvd, pos + 1, i) by {
        assert forall|t: int| 0 <= t <= pos implies #[trigger] column(
            s0.value_cache,
            start,
            kvd,
            pos + 1,
            i,
        )[t] == column(o.value_cache, start, kvd, pos + 1, i)[t] by {
            assert(same_at(c, l, t, s0.value_cache, o.value_cache));
            lemma_part_same(c, l, h, t, s0.value_cache, o.value_cache);
            assert(part(s0.value_cache, start, kvd, hs, t)[i] == part(
                o.value_cache,
                start,
                kvd,
                hs,
                t,
            )[i]);
        }
        assert(column(s0.value_cache, start, kvd, pos + 1, i) =~= column(
            o.value_cache,
            start,
            kvd,
            pos + 1,
            i,
        ));
    }
    assert(head_part(o1.xb, c, h) == head_part(s1.xb, c, h));
}

/// Layer `l` leads from a state with the same residual stream and the same past to a state with
/// the same residual stream and the same past, this position included.
proof fn lemma_layer_follows<T, F: Fn(Term<T>) -> T>(
    f: F,
    c: Config,
    w: Weights<T>,
    l: int,
    pos: int,
    a: State<T>,
    b: State<T>,
    o: State<T>,
) -> (r: State<T>)
    requires
        evenly_split(c),
        c.spec_kv_dim() % 2 == 0,
        0 <= l < c.n_layers,
        0 <= pos < c.seq_len,
        a.sized(c),
        o.sized(c),
        layer_run(f, c, w, l, pos, a, b),
        o.x == a.x,
        same_past(c, l, pos, a.key_cache, o.key_cache),
        same_past(c, l, pos, a.value_cache, o.value_cache),
    ensures
        b.sized(c),
        r.sized(c),
        layer_run(f, c, w, l, pos, o, r),
        r.x == b.x,
        r.logits == o.logits,
        same_past(c, l + 1, pos, b.key_cache, r.key_cache),
        same_past(c, l + 1, pos, b.value_cache, r.value_cache),
{
    let t = choose|t: Seq<State<T>>| #[trigger]
        layer_steps(f, c, w, l, pos, t) && t[0] == a && t[8] == b;
    lemma_slot(c, l, pos);
    let at = slot(c, l, pos);
    let d = c.dim as int;
    let kvd = c.spec_kv_dim();
    let wk = block(w.data@, w.wk_offset as int, l, d * kvd);
    let wv = block(w.data@, w.wv_offset as int, l, d * kvd);
    let u1 = State { xb: t[1].xb, ..o };
    assert(attention_normed(f, c, w, l, o, u1));
    lemma_multiplied_at_keeps(f, t[1].xb, wk, d, kvd, at, t[1].key_cache, t[2].key_cache);
    lemma_multiplied_at_keeps(f, t[1].xb, wv, d, kvd, at, t[1].value_cache, t[2].value_cache);
    let u2 = State {
        q: t[2].q,
        key_cache: pasted(c, l, pos, o.key_cache, t[2].key_cache),
        value_cache: pasted(c, l, pos, o.value_cache, t[2].value_cache),
        ..u1
    };
    lemma_pasted_product(f, c, l, pos, t[1].xb, wk, d, a.key_cache, t[2].key_cache, o.key_cache);
    lemma_pasted_product(
        f,
        c,
        l,
        pos,
        t[1].xb,
        wv,
        d,
        a.value_cache,
        t[2].value_cache,
        o.value_cache,
    );
    assert(projected(f, c, w, l, pos, u1, u2));
    lemma_pasted_same_past(c, l, pos, l, a.key_cache, t[2].key_cache, o.key_cache);
    lemma_pasted_same_past(c, l, pos, l, a.value_cache, t[2].value_cache, o.value_cache);
    assert(same_at(c, l, pos, t[2].key_cache, u2.key_cache));
    let u3 = State {
        q: t[3].q,
        key_cache: pasted(c, l, pos, u2.key_cache, t[3].key_cache),
        ..u2
    };
    lemma_pasted_rotation(f, c, l, pos, t[2], t[3], u2);
    assert(positioned(f, c, l, pos, u2, u3));
    lemma_pasted_same_past(c, l, pos, l + 1, t[2].key_cache, t[3].key_cache, u2.key_cache);
    let u4 = State { att: pasted_weights(c, pos, u3.att, t[4].att), xb: t[4].xb, ..u3 };
    assert(attended(f, c, l, pos, u3, u4)) by {
        assert forall|h: int| 0 <= h < c.n_heads implies #[trigger] head_attended(
            f,
            c,
            l,
            pos,
            h,
            u3,
            u4,
        ) by {
            assert(head_attended(f, c, l, pos, h, t[3], t[4]));
            lemma_head_reads_same(f, c, l, pos, h, t[3], t[4], u3, u4);
        }
    }
    let u5 = State { xb2: t[5].xb2, x: t[5].x, ..u4 };
    assert(attention_added(f, c, w, l, u4, u5));
    let u6 = State { xb: t[6].xb, hb: t[6].hb, hb2: t[6].hb2, ..u5 };
    assert(expanded(f, c, w, l, u5, u6));
    let u7 = State { hb: t[7].hb, ..u6 };
    assert(gated(f, u6, u7));
    let u8 = State { xb: t[8].xb, x: t[8].x, ..u7 };
    assert(ffn_added(f, c, w, l, u7, u8));
    let u = seq![o, u1, u2, u3, u4, u5, u6, u7, u8];
    assert(layer_steps(f, c, w, l, pos, u));
    u8
}

/// The first `n` layers, one after the other.
proof fn lemma_layers_follow<T, F: Fn(Term<T>) -> T>(
    f: F,
    c: Config,
    w: Weights<T>,
    pos: int,
    t: Seq<State<T>>,
    o: State<T>,
    n: int,
) -> (u: Seq<State<T>>)
    requires
        evenly_split(c),
        c.spec_kv_dim() % 2 == 0,
        0 <= pos < c.seq_len,
        layers_run(f, c, w, pos, t),
        0 <= n <= c.n_layers,
        t[0].sized(c),
        o.sized(c),
        o.x == t[0].x,
        same_past(c, 0, pos, t[0].key_cache, o.key_cache),
        same_past(c, 0, pos, t[0].value_cache, o.value_cache),
    ensures
        u.len() == n + 1,
        u[0] == o,
        forall|l: int|
            #![trigger u[l]]
            0 <= l < n ==> layer_run(f, c, w, l, pos, u[l], u[l + 1]),
        t[n].sized(c),
        u[n].sized(c),
        u[n].x == t[n].x,
        same_past(c, n, pos, t[n].key_cache, u[n].key_cache),
        same_past(c, n, pos, t[n].value_cache, u[n].value_cache),
    decreases n,
{
    if n == 0 {
        seq![o]
    } else {
        let k = n - 1;
        let u = lemma_layers_follow(f, c, w, pos, t, o, k);
        assert(layer_run(f, c, w, k, pos, t[k], t[k + 1]));
        let r = lemma_layer_follows(f, c, w, k, pos, t[k], t[n], u[k]);
        let v = u.push(r);
        assert forall|l: int|
            #![trigger v[l]]
            0 <= l < n implies layer_run(f, c, w, l, pos, v[l], v[l + 1]) by {
            if l < k {
                assert(layer_run(f, c, w, l, pos, u[l], u[l + 1]));
            }
        }
        v
    }
}

/// The token, the position and the keys and values of the positions before it decide the result:
/// whatever else the buffers hold, a forward pass can give the same scores, and leaves the same
/// keys and values up to its position.
pub proof fn law_past_decides_result<T, F: Fn(Term<T>) -> T>(
    f: F,
    c: Config,
    w: Weights<T>,
    token: int,
    pos: int,
    a: State<T>,
    b: State<T>,
    o: State<T>,
) -> (r: State<T>)
    requires
        evenly_split(c),
        c.spec_kv_dim() % 2 == 0,
        0 <= token,
        0 <= pos < c.seq_len,
        a.sized(c),
        o.sized(c),
        block_fits(w.data@.len() as int, w.token_embedding_offset as int, token, c.dim as int),
        passed(f, c, w, token, pos, a, b),
        same_past(c, 0, pos, a.key_cache, o.key_cache),
        same_past(c, 0, pos, a.value_cache, o.value_cache),
    ensures
        passed(f, c, w, token, pos, o, r),
        r.sized(c),
        r.logits == b.logits,
        same_past(c, 0, pos + 1, b.key_cache, r.key_cache),
        same_past(c, 0, pos + 1, b.value_cache, r.value_cache),
{
    let n = c.n_layers as int;
    let t = choose|t: Seq<State<T>>|
        {
            &&& #[trigger] layers_run(f, c, w, pos, t)
            &&& embedded(c, w, token, a, t[0])
            &&& classified(f, c, w, t[n], b)
        };
    assert(0 <= token * c.dim) by (nonlinear_arith)
        requires
            0 <= token,
    ;
    let o0 = State { x: t[0].x, ..o };
    assert(embedded(c, w, token, o, o0));
    let u = lemma_layers_follow(f, c, w, pos, t, o0, n);
    assert(layers_run(f, c, w, pos, u));
    let r = State { x: b.x, logits: b.logits, ..u[n] };
    assert(classified(f, c, w, u[n], r));
    assert forall|k: int, p: int|
        0 <= k < c.n_layers && 0 <= p && (p < pos + 1 || p == pos + 1 && k < 0) implies
        #[trigger] same_at(
        c,
        k,
        p,
        b.key_cache,
        r.key_cache,
    ) && same_at(c, k, p, b.value_cache, r.value_cache) by {
        assert(same_at(c, k, p, t[n].key_cache, u[n].key_cache));
        assert(same_at(c, k, p, t[n].value_cache, u[n].value_cache));
    }
    assert(same_past(c, 0, pos + 1, b.value_cache, r.value_cache)) by {
        assert forall|k: int, p: int|
            0 <= k < c.n_layers && 0 <= p && (p < pos + 1 || p == pos + 1 && k < 0) implies
            #[trigger] same_at(
            c,
            k,
            p,
            b.value_cache,
            r.value_cache,
        ) by {
            assert(same_at(c, k, p, b.key_cache, r.key_cache));
        }
    }
    r
}

} // verus!
