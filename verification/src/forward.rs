//! The transformer's forward pass: one token at one position in, one score per token of the
//! vocabulary out.
use vstd::prelude::*;
use vstd::slice::slice_subrange;
use vstd::slice::slice_to_vec;

use crate::math::{accum, copy_into, matmul, rmsnorm, softmax};
use crate::math::{accumulated, multiplied, normalized, softmaxed};
use crate::model::{block, block_fits, law_layout_is_ordered};
use crate::model::{embedding_lookup, Config, Weights};
use crate::scalar::{
    binary, con, dot_expr, evaluates, fold_expr, gives, minus, over, plus, products, times, total,
    unary, val, Expr,
};
use crate::scalar::{dot, BinaryOp, Constant, Term, UnaryOp};
use crate::scalar::{lemma_binary, lemma_fold_push, lemma_unary};

verus! {

/// The buffers of a forward pass, made once and used for every token.
pub struct RunState<T> {
    /// The residual stream, `dim` long.
    pub x: Vec<T>,
    /// Scratch inside a residual branch, `dim` long.
    pub xb: Vec<T>,
    /// More scratch, `dim` long.
    pub xb2: Vec<T>,
    /// The feed-forward network's gated vector, `hidden_dim` long.
    pub hb: Vec<T>,
    /// The feed-forward network's other vector, `hidden_dim` long.
    pub hb2: Vec<T>,
    /// The query, `dim` long.
    pub q: Vec<T>,
    /// Attention weights, `seq_len` for each head.
    pub att: Vec<T>,
    /// The result: a score for each token.
    pub logits: Vec<T>,
    /// The keys of every layer and position, `kv_dim` long each.
    pub key_cache: Vec<T>,
    /// The values of every layer and position, `kv_dim` long each.
    pub value_cache: Vec<T>,
}

/// What the buffers hold.
pub struct State<T> {
    pub x: Seq<T>,
    pub xb: Seq<T>,
    pub xb2: Seq<T>,
    pub hb: Seq<T>,
    pub hb2: Seq<T>,
    pub q: Seq<T>,
    pub att: Seq<T>,
    pub logits: Seq<T>,
    pub key_cache: Seq<T>,
    pub value_cache: Seq<T>,
}

impl<T> View for RunState<T> {
    type V = State<T>;

    open spec fn view(&self) -> State<T> {
        State {
            x: self.x@,
            xb: self.xb@,
            xb2: self.xb2@,
            hb: self.hb@,
            hb2: self.hb2@,
            q: self.q@,
            att: self.att@,
            logits: self.logits@,
            key_cache: self.key_cache@,
            value_cache: self.value_cache@,
        }
    }
}

/// The number of scalars in a cache.
pub open spec fn cache_len(c: Config) -> int {
    c.n_layers * c.seq_len * c.spec_kv_dim()
}

impl<T> State<T> {
    /// Every buffer has the length that the configuration gives it.
    pub open spec fn sized(self, c: Config) -> bool {
        &&& self.x.len() == c.dim
        &&& self.xb.len() == c.dim
        &&& self.xb2.len() == c.dim
        &&& self.hb.len() == c.hidden_dim
        &&& self.hb2.len() == c.hidden_dim
        &&& self.q.len() == c.dim
        &&& self.att.len() == c.n_heads * c.seq_len
        &&& self.logits.len() == c.vocab_size
        &&& self.key_cache.len() == cache_len(c)
        &&& self.value_cache.len() == cache_len(c)
    }
}

/// The lengths of the buffers can be counted in machine words.
pub open spec fn state_fits(c: Config) -> bool {
    &&& c.n_heads > 0
    &&& c.dim * c.n_kv_heads <= usize::MAX
    &&& c.n_heads * c.seq_len <= usize::MAX
    &&& c.n_layers * c.seq_len <= usize::MAX
    &&& cache_len(c) <= usize::MAX
}

fn filled<T: Copy>(n: usize, value: T) -> (r: Vec<T>)
    ensures
        r@ == Seq::new(n as nat, |i: int| value),
{
    let mut r: Vec<T> = Vec::with_capacity(n);
    let mut i: usize = 0;
    while i < n
        invariant
            i <= n,
            r@ =~= Seq::new(i as nat, |k: int| value),
        decreases n - i,
    {
        r.push(value);
        i += 1;
    }
    r
}

impl<T: Copy> RunState<T> {
    /// Buffers of the lengths that the configuration asks for, filled with `zero`.
    pub fn new(cfg: &Config, zero: T) -> (r: RunState<T>)
        requires
            state_fits(*cfg),
        ensures
            r@.sized(*cfg),
            r@ == (State {
                x: Seq::new(cfg.dim as nat, |i: int| zero),
                xb: Seq::new(cfg.dim as nat, |i: int| zero),
                xb2: Seq::new(cfg.dim as nat, |i: int| zero),
                hb: Seq::new(cfg.hidden_dim as nat, |i: int| zero),
                hb2: Seq::new(cfg.hidden_dim as nat, |i: int| zero),
                q: Seq::new(cfg.dim as nat, |i: int| zero),
                att: Seq::new((cfg.n_heads * cfg.seq_len) as nat, |i: int| zero),
                logits: Seq::new(cfg.vocab_size as nat, |i: int| zero),
                key_cache: Seq::new(cache_len(*cfg) as nat, |i: int| zero),
                value_cache: Seq::new(cache_len(*cfg) as nat, |i: int| zero),
            }),
    {
        let kv_dim: usize = cfg.kv_dim();
        let cache: usize = cfg.n_layers * cfg.seq_len * kv_dim;
        RunState {
            x: filled(cfg.dim, zero),
            xb: filled(cfg.dim, zero),
            xb2: filled(cfg.dim, zero),
            hb: filled(cfg.hidden_dim, zero),
            hb2: filled(cfg.hidden_dim, zero),
            q: filled(cfg.dim, zero),
            att: filled(cfg.n_heads * cfg.seq_len, zero),
            logits: filled(cfg.vocab_size, zero),
            key_cache: filled(cache, zero),
            value_cache: filled(cache, zero),
        }
    }
}

/// Where the key and the value of a layer and a position start in the caches.
pub open spec fn slot(c: Config, layer: int, pos: int) -> int {
    layer * c.seq_len * c.spec_kv_dim() + pos * c.spec_kv_dim()
}

/// The residual stream is the token's embedding.
pub open spec fn embedded<T>(
    c: Config,
    w: Weights<T>,
    token: int,
    a: State<T>,
    b: State<T>,
) -> bool {
    &&& b == State { x: b.x, ..a }
    &&& b.x == block(w.data@, w.token_embedding_offset as int, token, c.dim as int)
}

fn embed<T: Copy>(cfg: &Config, weights: &Weights<T>, state: &mut RunState<T>, token: u32)
    requires
        old(state)@.sized(*cfg),
        block_fits(
            weights.data@.len() as int,
            weights.token_embedding_offset as int,
            token as int,
            cfg.dim as int,
        ),
    ensures
        embedded(*cfg, *weights, token as int, old(state)@, final(state)@),
        final(state)@.sized(*cfg),
{
    let row = embedding_lookup(weights, token, cfg.dim);
    assert(0 <= token * cfg.dim) by (nonlinear_arith);
    copy_into(state.x.as_mut_slice(), row);
}

/// `xb` is the residual stream, normalized with the attention weights of layer `l`.
pub open spec fn attention_normed<T, F: Fn(Term<T>) -> T>(
    f: F,
    c: Config,
    w: Weights<T>,
    l: int,
    a: State<T>,
    b: State<T>,
) -> bool {
    &&& b == State { xb: b.xb, ..a }
    &&& normalized(
        f,
        a.x,
        block(w.data@, w.rms_att_offset as int, l, c.dim as int),
        a.xb,
        b.xb,
    )
}

fn attention_norm<T: Copy, F: Fn(Term<T>) -> T>(
    f: &F,
    cfg: &Config,
    weights: &Weights<T>,
    state: &mut RunState<T>,
    l: usize,
)
    requires
        total(*f),
        old(state)@.sized(*cfg),
        weights.covers_layer(*cfg, l as int),
    ensures
        attention_normed(*f, *cfg, *weights, l as int, old(state)@, final(state)@),
        final(state)@.sized(*cfg),
{
    assert(0 <= l * cfg.dim) by (nonlinear_arith);
    rmsnorm(
        f,
        state.xb.as_mut_slice(),
        state.x.as_slice(),
        weights.rms_att_weight(l, cfg.dim),
    );
}

/// `after` is `before` with the `d` scalars from `start` on replaced by the product of the matrix
/// `w` with `x`.
pub open spec fn multiplied_at<T, F: Fn(Term<T>) -> T>(
    f: F,
    x: Seq<T>,
    w: Seq<T>,
    n: int,
    d: int,
    start: int,
    before: Seq<T>,
    after: Seq<T>,
) -> bool {
    &&& after.len() == before.len()
    &&& after.take(start) == before.take(start)
    &&& multiplied(f, x, w, n, d, before.skip(start), after.skip(start))
}

/// The query, and the key and value of this layer and position, are projections of `xb`.
pub open spec fn projected<T, F: Fn(Term<T>) -> T>(
    f: F,
    c: Config,
    w: Weights<T>,
    l: int,
    pos: int,
    a: State<T>,
    b: State<T>,
) -> bool {
    let d = c.dim as int;
    let kvd = c.spec_kv_dim();
    let at = slot(c, l, pos);
    let wk = block(w.data@, w.wk_offset as int, l, d * kvd);
    let wv = block(w.data@, w.wv_offset as int, l, d * kvd);
    &&& b == State { q: b.q, key_cache: b.key_cache, value_cache: b.value_cache, ..a }
    &&& multiplied(f, a.xb, block(w.data@, w.wq_offset as int, l, d * d), d, d, a.q, b.q)
    &&& multiplied_at(f, a.xb, wk, d, kvd, at, a.key_cache, b.key_cache)
    &&& multiplied_at(f, a.xb, wv, d, kvd, at, a.value_cache, b.value_cache)
}

fn matmul_at<T: Copy, F: Fn(Term<T>) -> T>(
    f: &F,
    out: &mut [T],
    start: usize,
    x: &[T],
    w: &[T],
    n: usize,
    d: usize,
)
    requires
        total(*f),
        start + d <= old(out)@.len(),
        d * n <= w@.len(),
    ensures
        multiplied_at(*f, x@, w@, n as int, d as int, start as int, old(out)@, final(out)@),
{
    let (head, tail) = out.split_at_mut(start);
    matmul(f, tail, x, w, n, d);
    assert(out@.take(start as int) =~= old(out)@.take(start as int));
    assert(out@.skip(start as int) =~= tail@);
    assert(old(out)@.skip(start as int) =~= old(out)@.subrange(
        start as int,
        old(out)@.len() as int,
    ));
}

/// A slot lies within the cache, and so do the products on the way to it.
pub proof fn lemma_slot(c: Config, l: int, pos: int)
    requires
        c.n_heads > 0,
        0 <= l < c.n_layers,
        0 <= pos < c.seq_len,
    ensures
        0 <= c.spec_kv_dim(),
        0 <= l * c.seq_len <= c.n_layers * c.seq_len,
        0 <= l * c.seq_len * c.spec_kv_dim(),
        0 <= pos * c.spec_kv_dim(),
        pos * c.spec_kv_dim() + c.spec_kv_dim() <= c.seq_len * c.spec_kv_dim(),
        l * c.seq_len * c.spec_kv_dim() + c.seq_len * c.spec_kv_dim() <= cache_len(c),
        0 <= slot(c, l, pos),
        slot(c, l, pos) + c.spec_kv_dim() <= cache_len(c),
{
    law_layout_is_ordered(c);
    let k = c.spec_kv_dim();
    let s = c.seq_len as int;
    let n = c.n_layers as int;
    assert(0 <= l * s && l * s + s <= n * s) by (nonlinear_arith)
        requires
            0 <= l < n,
            0 <= s,
    ;
    assert(0 <= pos * k && pos * k + k <= s * k) by (nonlinear_arith)
        requires
            0 <= pos < s,
            0 <= k,
    ;
    let ls = l * s;
    let ns = n * s;
    assert(0 <= ls * k && ls * k + s * k <= ns * k) by (nonlinear_arith)
        requires
            0 <= ls,
            ls + s <= ns,
            0 <= k,
    ;
}

fn project<T: Copy, F: Fn(Term<T>) -> T>(
    f: &F,
    cfg: &Config,
    weights: &Weights<T>,
    state: &mut RunState<T>,
    l: usize,
    pos: usize,
)
    requires
        total(*f),
        state_fits(*cfg),
        l < cfg.n_layers,
        pos < cfg.seq_len,
        old(state)@.sized(*cfg),
        weights.covers_layer(*cfg, l as int),
    ensures
        projected(*f, *cfg, *weights, l as int, pos as int, old(state)@, final(state)@),
        final(state)@.sized(*cfg),
{
    let dim: usize = cfg.dim;
    let kv_dim: usize = cfg.kv_dim();
    proof {
        lemma_slot(*cfg, l as int, pos as int);
        lemma_block_start(l as int, dim as int, dim as int);
        lemma_block_start(l as int, dim as int, kv_dim as int);
    }
    let start: usize = l * cfg.seq_len * kv_dim + pos * kv_dim;
    matmul(f, state.q.as_mut_slice(), state.xb.as_slice(), weights.wq(l, dim), dim, dim);
    matmul_at(
        f,
        state.key_cache.as_mut_slice(),
        start,
        state.xb.as_slice(),
        weights.wk(l, dim, kv_dim),
        dim,
        kv_dim,
    );
    matmul_at(
        f,
        state.value_cache.as_mut_slice(),
        start,
        state.xb.as_slice(),
        weights.wv(l, dim, kv_dim),
        dim,
        kv_dim,
    );
}

pub proof fn lemma_block_start(l: int, a: int, b: int)
    requires
        0 <= l,
        0 <= a,
        0 <= b,
    ensures
        0 <= a * b,
        0 <= l * (a * b),
        a * b == b * a,
{
    assert(0 <= a * b) by (nonlinear_arith)
        requires
            0 <= a,
            0 <= b,
    ;
    let m = a * b;
    assert(0 <= l * m) by (nonlinear_arith)
        requires
            0 <= l,
            0 <= m,
    ;
    assert(a * b == b * a) by (nonlinear_arith);
}

/// The angle by which the pair of scalars at `i` turns at position `pos`:
/// `pos * (1 / base ^ ((i mod head_size) / head_size))`.
pub open spec fn angle_expr<T>(c: Config, pos: int, i: int) -> Expr<T> {
    let hs = c.spec_head_size();
    times(
        con(Constant::Count(pos as usize)),
        over(
            con(Constant::One),
            binary(
                BinaryOp::Pow,
                con(Constant::RopeBase),
                over(
                    con(Constant::Count((i % hs) as usize)),
                    con(Constant::Count(hs as usize)),
                ),
            ),
        ),
    )
}

/// `cos` and `sin` are the cosine and the sine of one value of the angle.
pub open spec fn rotation<T, F: Fn(Term<T>) -> T>(
    f: F,
    c: Config,
    pos: int,
    i: int,
    cos: T,
    sin: T,
) -> bool {
    exists|angle: T|
        {
            &&& #[trigger] evaluates(f, angle_expr(c, pos, i), angle)
            &&& gives(f, Term::Unary(UnaryOp::Cos, angle), cos)
            &&& gives(f, Term::Unary(UnaryOp::Sin, angle), sin)
        }
}

/// `(r0, r1)` is `(v0, v1)` turned by the angle with the given cosine and sine.
pub open spec fn turned<T, F: Fn(Term<T>) -> T>(
    f: F,
    cos: T,
    sin: T,
    v0: T,
    v1: T,
    r0: T,
    r1: T,
) -> bool {
    &&& evaluates(f, minus(times(val(v0), val(cos)), times(val(v1), val(sin))), r0)
    &&& evaluates(f, plus(times(val(v0), val(sin)), times(val(v1), val(cos))), r1)
}

/// The pair at `i` of the query, and of the key that starts at `at` where `i` is below `kv_dim`,
/// has turned by the angle of `i`.
pub open spec fn pair_turned<T, F: Fn(Term<T>) -> T>(
    f: F,
    c: Config,
    pos: int,
    at: int,
    i: int,
    a: State<T>,
    b: State<T>,
) -> bool {
    exists|cos: T, sin: T|
        {
            &&& #[trigger] rotation(f, c, pos, i, cos, sin)
            &&& turned(f, cos, sin, a.q[i], a.q[i + 1], b.q[i], b.q[i + 1])
            &&& i < c.spec_kv_dim() ==> turned(
                f,
                cos,
                sin,
                a.key_cache[at + i],
                a.key_cache[at + i + 1],
                b.key_cache[at + i],
                b.key_cache[at + i + 1],
            )
        }
}

/// The scalars of the caches that rotation touches: `kv_dim`, and one more where that is odd.
pub open spec fn turned_len(c: Config) -> int {
    2 * ((c.spec_kv_dim() + 1) / 2)
}

/// The query and this position's key carry the position: their pairs of scalars have turned, and
/// nothing else has changed.
pub open spec fn positioned<T, F: Fn(Term<T>) -> T>(
    f: F,
    c: Config,
    l: int,
    pos: int,
    a: State<T>,
    b: State<T>,
) -> bool {
    let at = slot(c, l, pos);
    &&& b == State { q: b.q, key_cache: b.key_cache, ..a }
    &&& b.q.len() == a.q.len()
    &&& b.key_cache.len() == a.key_cache.len()
    &&& forall|i: int|
        0 <= i < c.dim && i % 2 == 0 ==> #[trigger] pair_turned(f, c, pos, at, i, a, b)
    &&& forall|j: int|
        0 <= j < b.key_cache.len() && !(at <= j < at + turned_len(c)) ==> #[trigger] b.key_cache[j]
            == a.key_cache[j]
}

/// What a configuration and a position must satisfy for a layer to run: the scalars of a vector
/// pair up, every head has a key and a value to read, and the position has a place.
pub open spec fn layer_runs(c: Config, pos: int) -> bool {
    &&& pos < c.seq_len
    &&& 0 < c.n_kv_heads <= c.n_heads
    &&& c.dim % 2 == 0
    &&& c.dim > 0 ==> c.dim >= c.n_heads
    &&& c.spec_kv_dim() % 2 == 1 ==> pos + 1 < c.seq_len
    &&& pos * c.spec_kv_dim() + kv_head(c, c.n_heads - 1) * c.spec_head_size() + c.spec_head_size()
        <= c.seq_len * c.spec_kv_dim()
}

/// The key and value head that head `h` reads: consecutive heads share one.
pub open spec fn kv_head(c: Config, h: int) -> int {
    h / (c.n_heads as int / c.n_kv_heads as int)
}

fn angle<T: Copy, F: Fn(Term<T>) -> T>(f: &F, cfg: &Config, pos: usize, i: usize) -> (r: (T, T))
    requires
        total(*f),
        0 < cfg.n_heads <= cfg.dim,
    ensures
        rotation(*f, *cfg, pos as int, i as int, r.0, r.1),
{
    let head_size: usize = cfg.head_size();
    proof {
        vstd::arithmetic::div_mod::lemma_div_non_zero(cfg.dim as int, cfg.n_heads as int);
    }
    let place = f(Term::Constant(Constant::Count(i % head_size)));
    let size = f(Term::Constant(Constant::Count(head_size)));
    let part = f(Term::Binary(BinaryOp::Div, place, size));
    let base = f(Term::Constant(Constant::RopeBase));
    let power = f(Term::Binary(BinaryOp::Pow, base, part));
    let one = f(Term::Constant(Constant::One));
    let freq = f(Term::Binary(BinaryOp::Div, one, power));
    let position = f(Term::Constant(Constant::Count(pos)));
    let value = f(Term::Binary(BinaryOp::Mul, position, freq));
    let cos = f(Term::Unary(UnaryOp::Cos, value));
    let sin = f(Term::Unary(UnaryOp::Sin, value));
    proof {
        let place_e = con(Constant::Count(i % head_size));
        let size_e = con(Constant::Count(head_size));
        let part_e = over(place_e, size_e);
        let power_e = binary(BinaryOp::Pow, con(Constant::RopeBase), part_e);
        let freq_e = over(con(Constant::One), power_e);
        lemma_binary(*f, BinaryOp::Div, place_e, size_e, place, size, part);
        lemma_binary(*f, BinaryOp::Pow, con(Constant::RopeBase), part_e, base, part, power);
        lemma_binary(*f, BinaryOp::Div, con(Constant::One), power_e, one, power, freq);
        lemma_binary(
            *f,
            BinaryOp::Mul,
            con(Constant::Count(pos)),
            freq_e,
            position,
            freq,
            value,
        );
        assert(evaluates(*f, angle_expr(*cfg, pos as int, i as int), value));
    }
    (cos, sin)
}

fn turn<T: Copy, F: Fn(Term<T>) -> T>(f: &F, cos: T, sin: T, v0: T, v1: T) -> (r: (T, T))
    requires
        total(*f),
    ensures
        turned(*f, cos, sin, v0, v1, r.0, r.1),
{
    let v0_cos = f(Term::Binary(BinaryOp::Mul, v0, cos));
    let v1_sin = f(Term::Binary(BinaryOp::Mul, v1, sin));
    let r0 = f(Term::Binary(BinaryOp::Sub, v0_cos, v1_sin));
    let v0_sin = f(Term::Binary(BinaryOp::Mul, v0, sin));
    let v1_cos = f(Term::Binary(BinaryOp::Mul, v1, cos));
    let r1 = f(Term::Binary(BinaryOp::Add, v0_sin, v1_cos));
    proof {
        lemma_binary(*f, BinaryOp::Mul, val(v0), val(cos), v0, cos, v0_cos);
        lemma_binary(*f, BinaryOp::Mul, val(v1), val(sin), v1, sin, v1_sin);
        lemma_binary(*f, BinaryOp::Mul, val(v0), val(sin), v0, sin, v0_sin);
        lemma_binary(*f, BinaryOp::Mul, val(v1), val(cos), v1, cos, v1_cos);
        lemma_binary(
            *f,
            BinaryOp::Sub,
            times(val(v0), val(cos)),
            times(val(v1), val(sin)),
            v0_cos,
            v1_sin,
            r0,
        );
        lemma_binary(
            *f,
            BinaryOp::Add,
            times(val(v0), val(sin)),
            times(val(v1), val(cos)),
            v0_sin,
            v1_cos,
            r1,
        );
    }
    (r0, r1)
}

fn rotate<T: Copy, F: Fn(Term<T>) -> T>(
    f: &F,
    cfg: &Config,
    state: &mut RunState<T>,
    l: usize,
    pos: usize,
)
    requires
        total(*f),
        state_fits(*cfg),
        l < cfg.n_layers,
        layer_runs(*cfg, pos as int),
        old(state)@.sized(*cfg),
    ensures
        positioned(*f, *cfg, l as int, pos as int, old(state)@, final(state)@),
        final(state)@.sized(*cfg),
{
    let dim: usize = cfg.dim;
    let kv_dim: usize = cfg.kv_dim();
    proof {
        lemma_slot(*cfg, l as int, pos as int);
        if kv_dim % 2 == 1 {
            lemma_slot(*cfg, l as int, pos + 1);
            let k = kv_dim as int;
            assert((pos + 1) * k == pos * k + k) by (nonlinear_arith);
        }
    }
    let at: usize = l * cfg.seq_len * kv_dim + pos * kv_dim;
    let mut i: usize = 0;
    while i < dim
        invariant
            total(*f),
            0 < cfg.n_heads,
            dim == cfg.dim,
            dim > 0 ==> dim >= cfg.n_heads,
            dim % 2 == 0,
            i % 2 == 0,
            i <= dim,
            kv_dim == cfg.spec_kv_dim(),
            at == slot(*cfg, l as int, pos as int),
            at + kv_dim <= cache_len(*cfg),
            kv_dim % 2 == 1 ==> at + kv_dim + 1 <= cache_len(*cfg),
            cache_len(*cfg) <= usize::MAX,
            state@ == (State { q: state@.q, key_cache: state@.key_cache, ..old(state)@ }),
            state@.sized(*cfg),
            old(state)@.sized(*cfg),
            forall|j: int|
                0 <= j < i && j % 2 == 0 ==> #[trigger] pair_turned(
                    *f,
                    *cfg,
                    pos as int,
                    at as int,
                    j,
                    old(state)@,
                    state@,
                ),
            forall|j: int| i <= j < dim ==> #[trigger] state@.q[j] == old(state)@.q[j],
            forall|j: int|
                0 <= j < cache_len(*cfg) && !(at <= j < at + i && j < at + turned_len(*cfg))
                    ==> #[trigger] state@.key_cache[j] == old(state)@.key_cache[j],
        decreases dim - i,
    {
        let ghost before = state@;
        let (cos, sin) = angle(f, cfg, pos, i);
        let (q0, q1) = turn(f, cos, sin, state.q[i], state.q[i + 1]);
        state.q[i] = q0;
        state.q[i + 1] = q1;
        if i < kv_dim {
            let (k0, k1) = turn(
                f,
                cos,
                sin,
                state.key_cache[at + i],
                state.key_cache[at + i + 1],
            );
            state.key_cache[at + i] = k0;
            state.key_cache[at + i + 1] = k1;
        }
        proof {
            let a = old(state)@;
            let b = state@;
            assert(rotation(*f, *cfg, pos as int, i as int, cos, sin));
            assert(pair_turned(*f, *cfg, pos as int, at as int, i as int, a, b));
            assert forall|j: int| 0 <= j < i + 2 && j % 2 == 0 implies #[trigger] pair_turned(
                *f,
                *cfg,
                pos as int,
                at as int,
                j,
                a,
                b,
            ) by {
                if j < i {
                    assert(pair_turned(*f, *cfg, pos as int, at as int, j, a, before));
                    assert(b.q[j] == before.q[j] && b.q[j + 1] == before.q[j + 1]);
                    assert(b.key_cache[at + j] == before.key_cache[at + j]);
                    assert(b.key_cache[at + j + 1] == before.key_cache[at + j + 1]);
                }
            }
        }
        i += 2;
    }
}

/// The part of position `t`'s key or value that a head reads, where the parts of consecutive
/// positions are `stride` apart.
pub open spec fn part<T>(cache: Seq<T>, start: int, stride: int, size: int, t: int) -> Seq<T> {
    cache.subrange(start + t * stride, start + t * stride + size)
}

/// Scalar `i` of such a part, for each of the first `count` positions.
pub open spec fn column<T>(cache: Seq<T>, start: int, stride: int, count: int, i: int) -> Seq<T> {
    Seq::new(count as nat, |t: int| cache[start + t * stride + i])
}

/// How well a query matches a key: their inner product over the square root of their length.
pub open spec fn score_expr<T>(q: Seq<T>, k: Seq<T>) -> Expr<T> {
    over(
        dot_expr(Constant::EmptySum, q, k),
        unary(UnaryOp::Sqrt, con(Constant::Count(q.len() as usize))),
    )
}

/// Where the keys and values that head `h` reads start in the caches.
pub open spec fn head_start(c: Config, l: int, h: int) -> int {
    l * c.seq_len * c.spec_kv_dim() + kv_head(c, h) * c.spec_head_size()
}

/// The part of a vector that belongs to head `h`.
pub open spec fn head_part<T>(v: Seq<T>, c: Config, h: int) -> Seq<T> {
    v.subrange(h * c.spec_head_size(), h * c.spec_head_size() + c.spec_head_size())
}

/// The attention weights of head `h` for the positions from `from` to `to`.
pub open spec fn head_weights<T>(att: Seq<T>, c: Config, h: int, from: int, to: int) -> Seq<T> {
    att.subrange(h * c.seq_len + from, h * c.seq_len + to)
}

/// The scores of head `h` against the positions up to `pos`.
pub open spec fn head_scored<T, F: Fn(Term<T>) -> T>(
    f: F,
    c: Config,
    l: int,
    pos: int,
    h: int,
    a: State<T>,
    scores: Seq<T>,
) -> bool {
    &&& scores.len() == pos + 1
    &&& forall|t: int|
        0 <= t <= pos ==> evaluates(
            f,
            score_expr(
                head_part(a.q, c, h),
                part(a.key_cache, head_start(c, l, h), c.spec_kv_dim(), c.spec_head_size(), t),
            ),
            #[trigger] scores[t],
        )
}

/// Head `h` has read the caches: its attention weights for the positions up to `pos` are the
/// softmax of its scores, and its part of `xb` is the sum of the values of these positions, each
/// times its weight.
pub open spec fn head_attended<T, F: Fn(Term<T>) -> T>(
    f: F,
    c: Config,
    l: int,
    pos: int,
    h: int,
    a: State<T>,
    b: State<T>,
) -> bool {
    let weights = head_weights(b.att, c, h, 0, pos + 1);
    &&& exists|scores: Seq<T>| #[trigger]
        head_scored(f, c, l, pos, h, a, scores) && softmaxed(f, scores, weights)
    &&& forall|i: int|
        0 <= i < c.spec_head_size() ==> evaluates(
            f,
            dot_expr(
                Constant::Zero,
                weights,
                column(a.value_cache, head_start(c, l, h), c.spec_kv_dim(), pos + 1, i),
            ),
            #[trigger] head_part(b.xb, c, h)[i],
        )
    &&& head_weights(b.att, c, h, pos + 1, c.seq_len as int) == head_weights(
        a.att,
        c,
        h,
        pos + 1,
        c.seq_len as int,
    )
}

/// Every head has read the caches of layer `l`. Scalars of `xb` past the last head keep their
/// values.
pub open spec fn attended<T, F: Fn(Term<T>) -> T>(
    f: F,
    c: Config,
    l: int,
    pos: int,
    a: State<T>,
    b: State<T>,
) -> bool {
    &&& b == State { att: b.att, xb: b.xb, ..a }
    &&& b.att.len() == a.att.len()
    &&& b.xb.len() == a.xb.len()
    &&& forall|h: int|
        0 <= h < c.n_heads ==> #[trigger] head_attended(f, c, l, pos, h, a, b)
    &&& forall|j: int|
        c.n_heads * c.spec_head_size() <= j < b.xb.len() ==> #[trigger] b.xb[j] == a.xb[j]
}

proof fn lemma_part_bounds(start: int, stride: int, size: int, count: int, t: int, len: int)
    requires
        0 <= start,
        0 <= stride,
        0 <= size,
        0 <= t < count,
        start + (count - 1) * stride + size <= len,
    ensures
        0 <= t * stride,
        start + t * stride + size <= len,
        t * stride <= len,
{
    assert(0 <= t * stride && t * stride <= (count - 1) * stride) by (nonlinear_arith)
        requires
            0 <= stride,
            0 <= t <= count - 1,
    ;
}

/// The scores of the first `count` positions against the query `q`.
fn score_all<T: Copy, F: Fn(Term<T>) -> T>(
    f: &F,
    q: &[T],
    cache: &[T],
    start: usize,
    stride: usize,
    count: usize,
) -> (r: Vec<T>)
    requires
        total(*f),
        0 < count,
        start + (count - 1) * stride + q@.len() <= cache@.len(),
    ensures
        r@.len() == count,
        forall|t: int|
            0 <= t < count ==> evaluates(
                *f,
                score_expr(q@, part(cache@, start as int, stride as int, q@.len() as int, t)),
                #[trigger] r@[t],
            ),
{
    let size: usize = q.len();
    let mut r: Vec<T> = Vec::with_capacity(count);
    let mut t: usize = 0;
    while t < count
        invariant
            total(*f),
            0 < count,
            size == q@.len(),
            start + (count - 1) * stride + q@.len() <= cache@.len(),
            t <= count,
            r@.len() == t,
            forall|k: int|
                0 <= k < t ==> evaluates(
                    *f,
                    score_expr(q@, part(cache@, start as int, stride as int, q@.len() as int, k)),
                    #[trigger] r@[k],
                ),
        decreases count - t,
    {
        proof {
            assert(cache@.len() == cache.len());
            lemma_part_bounds(
                start as int,
                stride as int,
                size as int,
                count as int,
                t as int,
                cache@.len() as int,
            );
        }
        let from: usize = start + t * stride;
        let k = slice_subrange(cache, from, from + size);
        let product = dot(f, Constant::EmptySum, q, k);
        let length = f(Term::Constant(Constant::Count(size)));
        let root = f(Term::Unary(UnaryOp::Sqrt, length));
        let score = f(Term::Binary(BinaryOp::Div, product, root));
        proof {
            let length_e = con(Constant::Count(size));
            lemma_unary(*f, UnaryOp::Sqrt, length_e, length, root);
            lemma_binary(
                *f,
                BinaryOp::Div,
                dot_expr(Constant::EmptySum, q@, k@),
                unary(UnaryOp::Sqrt, length_e),
                product,
                root,
                score,
            );
        }
        r.push(score);
        t += 1;
    }
    r
}

/// The sum of the parts of the cache, each times its weight.
fn weigh_all<T: Copy, F: Fn(Term<T>) -> T>(
    f: &F,
    weights: &[T],
    cache: &[T],
    start: usize,
    stride: usize,
    size: usize,
) -> (r: Vec<T>)
    requires
        total(*f),
        0 < weights@.len(),
        start + (weights@.len() - 1) * stride + size <= cache@.len(),
    ensures
        r@.len() == size,
        forall|i: int|
            0 <= i < size ==> evaluates(
                *f,
                dot_expr(
                    Constant::Zero,
                    weights@,
                    column(cache@, start as int, stride as int, weights@.len() as int, i),
                ),
                #[trigger] r@[i],
            ),
{
    let zero = f(Term::Constant(Constant::Zero));
    let mut r: Vec<T> = filled(size, zero);
    let count: usize = weights.len();
    let ghost cols = |i: int| column(cache@, start as int, stride as int, count as int, i);
    let mut t: usize = 0;
    assert forall|i: int| 0 <= i < size implies evaluates(
        *f,
        fold_expr(BinaryOp::Add, con(Constant::Zero), products(weights@, cols(i)).take(0)),
        #[trigger] r@[i],
    ) by {
        assert(products(weights@, cols(i)).take(0) =~= Seq::<Expr<T>>::empty());
    }
    while t < count
        invariant
            total(*f),
            0 < count,
            count == weights@.len(),
            start + (count - 1) * stride + size <= cache@.len(),
            t <= count,
            r@.len() == size,
            cols == (|i: int| column(cache@, start as int, stride as int, count as int, i)),
            forall|i: int|
                0 <= i < size ==> evaluates(
                    *f,
                    fold_expr(
                        BinaryOp::Add,
                        con(Constant::Zero),
                        products(weights@, cols(i)).take(t as int),
                    ),
                    #[trigger] r@[i],
                ),
        decreases count - t,
    {
        proof {
            assert(cache@.len() == cache.len());
            lemma_part_bounds(
                start as int,
                stride as int,
                size as int,
                count as int,
                t as int,
                cache@.len() as int,
            );
        }
        let from: usize = start + t * stride;
        let weight = weights[t];
        let mut i: usize = 0;
        while i < size
            invariant
                total(*f),
                count == weights@.len(),
                t < count,
                i <= size,
                from == start + t * stride,
                from + size <= cache@.len(),
                cache@.len() == cache.len(),
                weight == weights@[t as int],
                r@.len() == size,
                cols == (|i: int| column(cache@, start as int, stride as int, count as int, i)),
                forall|k: int|
                    0 <= k < i ==> evaluates(
                        *f,
                        fold_expr(
                            BinaryOp::Add,
                            con(Constant::Zero),
                            products(weights@, cols(k)).take(t + 1),
                        ),
                        #[trigger] r@[k],
                    ),
                forall|k: int|
                    i <= k < size ==> evaluates(
                        *f,
                        fold_expr(
                            BinaryOp::Add,
                            con(Constant::Zero),
                            products(weights@, cols(k)).take(t as int),
                        ),
                        #[trigger] r@[k],
                    ),
            decreases size - i,
        {
            let value = cache[from + i];
            let acc = r[i];
            let product = f(Term::Binary(BinaryOp::Mul, weight, value));
            let next = f(Term::Binary(BinaryOp::Add, acc, product));
            proof {
                let ps = products(weights@, cols(i as int));
                assert(cols(i as int)[t as int] == value);
                lemma_binary(*f, BinaryOp::Mul, val(weight), val(value), weight, value, product);
                lemma_fold_push(
                    *f,
                    BinaryOp::Add,
                    con(Constant::Zero),
                    ps.take(t as int),
                    ps[t as int],
                    acc,
                    product,
                    next,
                );
                assert(ps.take(t as int).push(ps[t as int]) =~= ps.take(t + 1));
            }
            r[i] = next;
            i += 1;
        }
        t += 1;
    }
    assert forall|i: int| 0 <= i < size implies evaluates(
        *f,
        dot_expr(Constant::Zero, weights@, cols(i)),
        #[trigger] r@[i],
    ) by {
        assert(products(weights@, cols(i)).take(count as int) =~= products(weights@, cols(i)));
    }
    r
}

/// `after` is `before` with `src` written over it from `at` on.
pub open spec fn written<T>(before: Seq<T>, at: int, src: Seq<T>, after: Seq<T>) -> bool {
    &&& after.len() == before.len()
    &&& forall|j: int|
        0 <= j < after.len() ==> #[trigger] after[j] == if at <= j < at + src.len() {
            src[j - at]
        } else {
            before[j]
        }
}

fn write_at<T: Copy>(dst: &mut [T], at: usize, src: &[T])
    requires
        at + src@.len() <= old(dst)@.len(),
    ensures
        written(old(dst)@, at as int, src@, final(dst)@),
{
    let mut i: usize = 0;
    assert(dst@.len() == dst.len());
    while i < src.len()
        invariant
            i <= src@.len(),
            dst@.len() == old(dst)@.len(),
            at + src@.len() <= dst@.len(),
            dst@.len() <= usize::MAX,
            forall|j: int|
                0 <= j < dst@.len() ==> #[trigger] dst@[j] == if at <= j < at + i {
                    src@[j - at]
                } else {
                    old(dst)@[j]
                },
        decreases src@.len() - i,
    {
        dst[at + i] = src[i];
        i += 1;
    }
}

/// The bounds of what head `h` reads and writes.
pub proof fn lemma_head_bounds(c: Config, l: int, pos: int, h: int)
    requires
        state_fits(c),
        layer_runs(c, pos),
        0 <= l < c.n_layers,
        0 <= pos,
        0 <= h < c.n_heads,
    ensures
        0 < c.n_heads as int / c.n_kv_heads as int,
        0 <= c.spec_head_size(),
        0 <= kv_head(c, h),
        0 <= kv_head(c, h) * c.spec_head_size(),
        0 <= h * c.spec_head_size(),
        h * c.spec_head_size() + c.spec_head_size() == (h + 1) * c.spec_head_size(),
        (h + 1) * c.spec_head_size() <= c.n_heads * c.spec_head_size(),
        c.n_heads * c.spec_head_size() <= c.dim,
        0 <= h * c.seq_len,
        h * c.seq_len + c.seq_len == (h + 1) * c.seq_len,
        (h + 1) * c.seq_len <= c.n_heads * c.seq_len,
        0 <= l * c.seq_len <= c.n_layers * c.seq_len,
        0 <= l * c.seq_len * c.spec_kv_dim(),
        0 <= c.spec_kv_dim(),
        0 <= pos * c.spec_kv_dim(),
        head_start(c, l, h) + pos * c.spec_kv_dim() + c.spec_head_size() <= cache_len(c),
{
    let n = c.n_heads as int;
    let k = c.n_kv_heads as int;
    let hs = c.spec_head_size();
    let s = c.seq_len as int;
    let mul = n / k;
    law_layout_is_ordered(c);
    lemma_slot(c, l, pos);
    vstd::arithmetic::div_mod::lemma_div_non_zero(n, k);
    vstd::arithmetic::div_mod::lemma_div_pos_is_pos(h, mul);
    vstd::arithmetic::div_mod::lemma_div_is_ordered(h, n - 1, mul);
    vstd::arithmetic::div_mod::lemma_fundamental_div_mod(c.dim as int, n);
    let g = kv_head(c, h);
    let top = kv_head(c, n - 1);
    assert(0 <= g * hs && g * hs <= top * hs) by (nonlinear_arith)
        requires
            0 <= g <= top,
            0 <= hs,
    ;
    assert(0 <= h * hs && h * hs + hs == (h + 1) * hs && (h + 1) * hs <= n * hs)
        by (nonlinear_arith)
        requires
            0 <= h < n,
            0 <= hs,
    ;
    assert(0 <= h * s && h * s + s == (h + 1) * s && (h + 1) * s <= n * s) by (nonlinear_arith)
        requires
            0 <= h < n,
            0 <= s,
    ;
}

/// Parts of different heads do not overlap.
proof fn lemma_heads_apart(g: int, h: int, size: int)
    requires
        0 <= g,
        0 <= h,
        g != h,
        0 <= size,
    ensures
        g * size + size <= h * size || h * size + size <= g * size,
{
    assert(g * size + size <= h * size || h * size + size <= g * size) by (nonlinear_arith)
        requires
            g + 1 <= h || h + 1 <= g,
            0 <= size,
    ;
}

fn attend<T: Copy, F: Fn(Term<T>) -> T>(
    f: &F,
    cfg: &Config,
    state: &mut RunState<T>,
    l: usize,
    pos: usize,
)
    requires
        total(*f),
        state_fits(*cfg),
        l < cfg.n_layers,
        layer_runs(*cfg, pos as int),
        old(state)@.sized(*cfg),
    ensures
        attended(*f, *cfg, l as int, pos as int, old(state)@, final(state)@),
        final(state)@.sized(*cfg),
{
    let head_size: usize = cfg.head_size();
    let kv_dim: usize = cfg.kv_dim();
    let mul: usize = cfg.n_heads / cfg.n_kv_heads;
    let mut h: usize = 0;
    while h < cfg.n_heads
        invariant
            total(*f),
            state_fits(*cfg),
            l < cfg.n_layers,
            layer_runs(*cfg, pos as int),
            head_size == cfg.spec_head_size(),
            kv_dim == cfg.spec_kv_dim(),
            mul == cfg.n_heads as int / cfg.n_kv_heads as int,
            h <= cfg.n_heads,
            state@ == (State { att: state@.att, xb: state@.xb, ..old(state)@ }),
            state@.sized(*cfg),
            old(state)@.sized(*cfg),
            forall|g: int|
                0 <= g < h ==> #[trigger] head_attended(
                    *f,
                    *cfg,
                    l as int,
                    pos as int,
                    g,
                    old(state)@,
                    state@,
                ),
            forall|j: int|
                h * cfg.seq_len <= j < state@.att.len() ==> #[trigger] state@.att[j] == old(
                    state,
                )@.att[j],
            forall|j: int|
                h * head_size <= j < state@.xb.len() ==> #[trigger] state@.xb[j] == old(
                    state,
                )@.xb[j],
        decreases cfg.n_heads - h,
    {
        let ghost before = state@;
        proof {
            lemma_head_bounds(*cfg, l as int, pos as int, h as int);
        }
        let start: usize = l * cfg.seq_len * kv_dim + (h / mul) * head_size;
        let from: usize = h * head_size;
        let mut weights = score_all(
            f,
            slice_subrange(state.q.as_slice(), from, from + head_size),
            state.key_cache.as_slice(),
            start,
            kv_dim,
            pos + 1,
        );
        let ghost scores = weights@;
        softmax(f, weights.as_mut_slice());
        let sums = weigh_all(
            f,
            weights.as_slice(),
            state.value_cache.as_slice(),
            start,
            kv_dim,
            head_size,
        );
        write_at(state.att.as_mut_slice(), h * cfg.seq_len, weights.as_slice());
        write_at(state.xb.as_mut_slice(), from, sums.as_slice());
        proof {
            let c = *cfg;
            let a = old(state)@;
            let b = state@;
            assert(head_scored(*f, c, l as int, pos as int, h as int, a, scores));
            assert(head_weights(b.att, c, h as int, 0, pos + 1) =~= weights@);
            assert(head_part(b.xb, c, h as int) =~= sums@);
            assert(head_weights(b.att, c, h as int, pos + 1, c.seq_len as int) =~= head_weights(
                a.att,
                c,
                h as int,
                pos + 1,
                c.seq_len as int,
            ));
            assert(head_attended(*f, c, l as int, pos as int, h as int, a, b));
            assert forall|g: int| 0 <= g < h + 1 implies #[trigger] head_attended(
                *f,
                c,
                l as int,
                pos as int,
                g,
                a,
                b,
            ) by {
                if g < h {
                    assert(head_attended(*f, c, l as int, pos as int, g, a, before));
                    lemma_head_bounds(c, l as int, pos as int, g);
                    lemma_heads_apart(g, h as int, c.seq_len as int);
                    lemma_heads_apart(g, h as int, head_size as int);
                    assert(head_weights(b.att, c, g, 0, pos + 1) =~= head_weights(
                        before.att,
                        c,
                        g,
                        0,
                        pos + 1,
                    ));
                    assert(head_weights(b.att, c, g, pos + 1, c.seq_len as int) =~= head_weights(
                        before.att,
                        c,
                        g,
                        pos + 1,
                        c.seq_len as int,
                    ));
                    assert(head_part(b.xb, c, g) =~= head_part(before.xb, c, g));
                }
            }
        }
        h += 1;
    }
}

/// The heads' results, projected back, are added to the residual stream.
pub open spec fn attention_added<T, F: Fn(Term<T>) -> T>(
    f: F,
    c: Config,
    w: Weights<T>,
    l: int,
    a: State<T>,
    b: State<T>,
) -> bool {
    let d = c.dim as int;
    &&& b == State { xb2: b.xb2, x: b.x, ..a }
    &&& multiplied(f, a.xb, block(w.data@, w.wo_offset as int, l, d * d), d, d, a.xb2, b.xb2)
    &&& accumulated(f, a.x, b.xb2, b.x)
}

fn add_attention<T: Copy, F: Fn(Term<T>) -> T>(
    f: &F,
    cfg: &Config,
    weights: &Weights<T>,
    state: &mut RunState<T>,
    l: usize,
)
    requires
        total(*f),
        old(state)@.sized(*cfg),
        weights.covers_layer(*cfg, l as int),
    ensures
        attention_added(*f, *cfg, *weights, l as int, old(state)@, final(state)@),
        final(state)@.sized(*cfg),
{
    let dim: usize = cfg.dim;
    proof {
        lemma_block_start(l as int, dim as int, dim as int);
    }
    matmul(f, state.xb2.as_mut_slice(), state.xb.as_slice(), weights.wo(l, dim), dim, dim);
    accum(f, state.x.as_mut_slice(), state.xb2.as_slice());
}

/// `xb` is the residual stream, normalized with the feed-forward weights of layer `l`, and `hb`
/// and `hb2` are its gating and up projections.
pub open spec fn expanded<T, F: Fn(Term<T>) -> T>(
    f: F,
    c: Config,
    w: Weights<T>,
    l: int,
    a: State<T>,
    b: State<T>,
) -> bool {
    let d = c.dim as int;
    let h = c.hidden_dim as int;
    &&& b == State { xb: b.xb, hb: b.hb, hb2: b.hb2, ..a }
    &&& normalized(f, a.x, block(w.data@, w.rms_ffn_offset as int, l, d), a.xb, b.xb)
    &&& multiplied(f, b.xb, block(w.data@, w.w1_offset as int, l, d * h), d, h, a.hb, b.hb)
    &&& multiplied(f, b.xb, block(w.data@, w.w3_offset as int, l, d * h), d, h, a.hb2, b.hb2)
}

fn expand<T: Copy, F: Fn(Term<T>) -> T>(
    f: &F,
    cfg: &Config,
    weights: &Weights<T>,
    state: &mut RunState<T>,
    l: usize,
)
    requires
        total(*f),
        old(state)@.sized(*cfg),
        weights.covers_layer(*cfg, l as int),
    ensures
        expanded(*f, *cfg, *weights, l as int, old(state)@, final(state)@),
        final(state)@.sized(*cfg),
{
    let dim: usize = cfg.dim;
    let hidden: usize = cfg.hidden_dim;
    proof {
        assert(0 <= l * dim) by (nonlinear_arith);
        lemma_block_start(l as int, dim as int, hidden as int);
    }
    rmsnorm(f, state.xb.as_mut_slice(), state.x.as_slice(), weights.rms_ffn_weight(l, dim));
    matmul(
        f,
        state.hb.as_mut_slice(),
        state.xb.as_slice(),
        weights.w1(l, dim, hidden),
        dim,
        hidden,
    );
    matmul(
        f,
        state.hb2.as_mut_slice(),
        state.xb.as_slice(),
        weights.w3(l, dim, hidden),
        dim,
        hidden,
    );
}

/// `v * (1 / (1 + exp(-v))) * u`
pub open spec fn swiglu_expr<T>(v: T, u: T) -> Expr<T> {
    times(
        times(
            val(v),
            over(
                con(Constant::One),
                plus(con(Constant::One), unary(UnaryOp::Exp, unary(UnaryOp::Neg, val(v)))),
            ),
        ),
        val(u),
    )
}

/// `hb` has gone through the sigmoid-weighted unit and been multiplied by `hb2`.
pub open spec fn gated<T, F: Fn(Term<T>) -> T>(f: F, a: State<T>, b: State<T>) -> bool {
    &&& b == State { hb: b.hb, ..a }
    &&& b.hb.len() == a.hb.len()
    &&& forall|i: int|
        0 <= i < b.hb.len() ==> evaluates(f, swiglu_expr(a.hb[i], a.hb2[i]), #[trigger] b.hb[i])
}

fn swiglu<T: Copy, F: Fn(Term<T>) -> T>(f: &F, v: T, u: T) -> (r: T)
    requires
        total(*f),
    ensures
        evaluates(*f, swiglu_expr(v, u), r),
{
    let negated = f(Term::Unary(UnaryOp::Neg, v));
    let e = f(Term::Unary(UnaryOp::Exp, negated));
    let one = f(Term::Constant(Constant::One));
    let below = f(Term::Binary(BinaryOp::Add, one, e));
    let above = f(Term::Constant(Constant::One));
    let sigmoid = f(Term::Binary(BinaryOp::Div, above, below));
    let silu = f(Term::Binary(BinaryOp::Mul, v, sigmoid));
    let r = f(Term::Binary(BinaryOp::Mul, silu, u));
    proof {
        let one_e = con(Constant::One);
        let negated_e = unary(UnaryOp::Neg, val(v));
        let e_e = unary(UnaryOp::Exp, negated_e);
        let below_e = plus(one_e, e_e);
        let sigmoid_e = over(one_e, below_e);
        lemma_unary(*f, UnaryOp::Neg, val(v), v, negated);
        lemma_unary(*f, UnaryOp::Exp, negated_e, negated, e);
        lemma_binary(*f, BinaryOp::Add, one_e, e_e, one, e, below);
        lemma_binary(*f, BinaryOp::Div, one_e, below_e, above, below, sigmoid);
        lemma_binary(*f, BinaryOp::Mul, val(v), sigmoid_e, v, sigmoid, silu);
        lemma_binary(*f, BinaryOp::Mul, times(val(v), sigmoid_e), val(u), silu, u, r);
    }
    r
}

fn gate<T: Copy, F: Fn(Term<T>) -> T>(f: &F, cfg: &Config, state: &mut RunState<T>)
    requires
        total(*f),
        old(state)@.sized(*cfg),
    ensures
        gated(*f, old(state)@, final(state)@),
        final(state)@.sized(*cfg),
{
    let hidden: usize = cfg.hidden_dim;
    let mut i: usize = 0;
    while i < hidden
        invariant
            total(*f),
            i <= hidden,
            hidden == cfg.hidden_dim,
            state@ == (State { hb: state@.hb, ..old(state)@ }),
            state@.sized(*cfg),
            old(state)@.sized(*cfg),
            forall|k: int|
                0 <= k < i ==> evaluates(
                    *f,
                    swiglu_expr(old(state)@.hb[k], old(state)@.hb2[k]),
                    #[trigger] state@.hb[k],
                ),
            forall|k: int| i <= k < hidden ==> #[trigger] state@.hb[k] == old(state)@.hb[k],
        decreases hidden - i,
    {
        let r = swiglu(f, state.hb[i], state.hb2[i]);
        state.hb[i] = r;
        i += 1;
    }
}

/// The gated vector, projected down, is added to the residual stream.
pub open spec fn ffn_added<T, F: Fn(Term<T>) -> T>(
    f: F,
    c: Config,
    w: Weights<T>,
    l: int,
    a: State<T>,
    b: State<T>,
) -> bool {
    let d = c.dim as int;
    let h = c.hidden_dim as int;
    &&& b == State { xb: b.xb, x: b.x, ..a }
    &&& multiplied(f, a.hb, block(w.data@, w.w2_offset as int, l, h * d), h, d, a.xb, b.xb)
    &&& accumulated(f, a.x, b.xb, b.x)
}

fn add_ffn<T: Copy, F: Fn(Term<T>) -> T>(
    f: &F,
    cfg: &Config,
    weights: &Weights<T>,
    state: &mut RunState<T>,
    l: usize,
)
    requires
        total(*f),
        old(state)@.sized(*cfg),
        weights.covers_layer(*cfg, l as int),
    ensures
        ffn_added(*f, *cfg, *weights, l as int, old(state)@, final(state)@),
        final(state)@.sized(*cfg),
{
    let dim: usize = cfg.dim;
    let hidden: usize = cfg.hidden_dim;
    proof {
        lemma_block_start(l as int, hidden as int, dim as int);
    }
    matmul(
        f,
        state.xb.as_mut_slice(),
        state.hb.as_slice(),
        weights.w2(l, hidden, dim),
        hidden,
        dim,
    );
    accum(f, state.x.as_mut_slice(), state.xb.as_slice());
}

/// The states that one layer passes through, from first to last.
pub open spec fn layer_steps<T, F: Fn(Term<T>) -> T>(
    f: F,
    c: Config,
    w: Weights<T>,
    l: int,
    pos: int,
    t: Seq<State<T>>,
) -> bool {
    &&& t.len() == 9
    &&& attention_normed(f, c, w, l, t[0], t[1])
    &&& projected(f, c, w, l, pos, t[1], t[2])
    &&& positioned(f, c, l, pos, t[2], t[3])
    &&& attended(f, c, l, pos, t[3], t[4])
    &&& attention_added(f, c, w, l, t[4], t[5])
    &&& expanded(f, c, w, l, t[5], t[6])
    &&& gated(f, t[6], t[7])
    &&& ffn_added(f, c, w, l, t[7], t[8])
}

/// Layer `l` leads from `a` to `b`: attention with its residual connection, then the feed-forward
/// network with its own.
pub open spec fn layer_run<T, F: Fn(Term<T>) -> T>(
    f: F,
    c: Config,
    w: Weights<T>,
    l: int,
    pos: int,
    a: State<T>,
    b: State<T>,
) -> bool {
    exists|t: Seq<State<T>>| #[trigger]
        layer_steps(f, c, w, l, pos, t) && t[0] == a && t[8] == b
}

fn run_layer<T: Copy, F: Fn(Term<T>) -> T>(
    f: &F,
    cfg: &Config,
    weights: &Weights<T>,
    state: &mut RunState<T>,
    l: usize,
    pos: usize,
)
    requires
        total(*f),
        state_fits(*cfg),
        l < cfg.n_layers,
        layer_runs(*cfg, pos as int),
        old(state)@.sized(*cfg),
        weights.covers_layer(*cfg, l as int),
    ensures
        layer_run(*f, *cfg, *weights, l as int, pos as int, old(state)@, final(state)@),
        final(state)@.sized(*cfg),
{
    let ghost t0 = state@;
    attention_norm(f, cfg, weights, state, l);
    let ghost t1 = state@;
    project(f, cfg, weights, state, l, pos);
    let ghost t2 = state@;
    rotate(f, cfg, state, l, pos);
    let ghost t3 = state@;
    attend(f, cfg, state, l, pos);
    let ghost t4 = state@;
    add_attention(f, cfg, weights, state, l);
    let ghost t5 = state@;
    expand(f, cfg, weights, state, l);
    let ghost t6 = state@;
    gate(f, cfg, state);
    let ghost t7 = state@;
    add_ffn(f, cfg, weights, state, l);
    proof {
        let t = seq![t0, t1, t2, t3, t4, t5, t6, t7, state@];
        assert(layer_steps(*f, *cfg, *weights, l as int, pos as int, t));
    }
}

/// The residual stream is normalized with the final weights, and the logits are its product with
/// the classifier.
pub open spec fn classified<T, F: Fn(Term<T>) -> T>(
    f: F,
    c: Config,
    w: Weights<T>,
    a: State<T>,
    b: State<T>,
) -> bool {
    let d = c.dim as int;
    let v = c.vocab_size as int;
    let final_weight = w.data@.subrange(w.rms_final_offset as int, w.rms_final_offset + d);
    let at = w.classifier_offset() as int;
    &&& b == State { x: b.x, logits: b.logits, ..a }
    &&& normalized(f, a.x, final_weight, a.x, b.x)
    &&& multiplied(f, b.x, w.data@.subrange(at, at + v * d), d, v, a.logits, b.logits)
}

fn classify<T: Copy, F: Fn(Term<T>) -> T>(
    f: &F,
    cfg: &Config,
    weights: &Weights<T>,
    state: &mut RunState<T>,
)
    requires
        total(*f),
        old(state)@.sized(*cfg),
        weights.covers(*cfg),
    ensures
        classified(*f, *cfg, *weights, old(state)@, final(state)@),
        final(state)@.sized(*cfg),
{
    let x = slice_to_vec(state.x.as_slice());
    rmsnorm(f, state.x.as_mut_slice(), x.as_slice(), weights.rms_final_weight(cfg.dim));
    matmul(
        f,
        state.logits.as_mut_slice(),
        state.x.as_slice(),
        weights.wcls(cfg.dim, cfg.vocab_size),
        cfg.dim,
        cfg.vocab_size,
    );
}

/// The states before the first layer and after each layer.
pub open spec fn layers_run<T, F: Fn(Term<T>) -> T>(
    f: F,
    c: Config,
    w: Weights<T>,
    pos: int,
    t: Seq<State<T>>,
) -> bool {
    &&& t.len() == c.n_layers + 1
    &&& forall|l: int|
        #![trigger t[l]]
        0 <= l < c.n_layers ==> layer_run(f, c, w, l, pos, t[l], t[l + 1])
}

/// A forward pass of `token` at `pos` leads from `a` to `b`: the token's embedding goes through
/// every layer in turn and then through the classifier.
pub open spec fn passed<T, F: Fn(Term<T>) -> T>(
    f: F,
    c: Config,
    w: Weights<T>,
    token: int,
    pos: int,
    a: State<T>,
    b: State<T>,
) -> bool {
    exists|t: Seq<State<T>>|
        {
            &&& #[trigger] layers_run(f, c, w, pos, t)
            &&& embedded(c, w, token, a, t[0])
            &&& classified(f, c, w, t[c.n_layers as int], b)
        }
}

/// What a forward pass of `token` at `pos` needs: buffers that can be counted in machine words,
/// weights that hold every matrix and the token's embedding, and layers that run.
pub open spec fn runs<T>(c: Config, w: Weights<T>, token: int, pos: int) -> bool {
    &&& state_fits(c)
    &&& c.n_kv_heads > 0
    &&& w.covers(c)
    &&& block_fits(w.data@.len() as int, w.token_embedding_offset as int, token, c.dim as int)
    &&& c.n_layers > 0 ==> layer_runs(c, pos)
}

/// Whether block `index` of `rows` by `cols` scalars from `offset` on ends within `len` scalars.
fn block_ends_within(len: usize, offset: usize, index: usize, rows: usize, cols: usize) -> (r: bool)
    ensures
        r == block_fits(len as int, offset as int, index as int, rows * cols),
{
    assert(0 <= rows * cols) by (nonlinear_arith);
    let ghost size = rows * cols;
    assert(0 <= index * size) by (nonlinear_arith)
        requires
            0 <= size,
    ;
    match rows.checked_mul(cols) {
        Some(size) => match index.checked_mul(size) {
            Some(before) => match offset.checked_add(before) {
                Some(start) => match start.checked_add(size) {
                    Some(end) => end <= len,
                    None => false,
                },
                None => false,
            },
            None => false,
        },
        None => false,
    }
}

/// Whether the buffers can be counted in machine words.
pub fn can_hold(cfg: &Config) -> (r: bool)
    ensures
        r == state_fits(*cfg),
{
    if cfg.n_heads == 0 || cfg.dim.checked_mul(cfg.n_kv_heads).is_none() {
        return false;
    }
    if cfg.n_heads.checked_mul(cfg.seq_len).is_none() {
        return false;
    }
    proof {
        law_layout_is_ordered(*cfg);
    }
    match cfg.n_layers.checked_mul(cfg.seq_len) {
        Some(n) => n.checked_mul(cfg.kv_dim()).is_some(),
        None => false,
    }
}

/// A block that ends within the scalars has the blocks before it there too.
proof fn lemma_earlier_block_fits(len: int, offset: int, l: int, m: int, size: int)
    requires
        0 <= l <= m,
        0 <= size,
        block_fits(len, offset, m, size),
    ensures
        block_fits(len, offset, l, size),
{
    assert(l * size <= m * size) by (nonlinear_arith)
        requires
            l <= m,
            0 <= size,
    ;
}

/// Where the last layer's matrices lie within the scalars, so do those of every layer.
proof fn lemma_last_layer_covers<T>(w: Weights<T>, c: Config)
    requires
        c.n_heads > 0,
        c.n_layers > 0,
        w.covers_layer(c, c.n_layers - 1),
    ensures
        forall|l: int| 0 <= l < c.n_layers ==> #[trigger] w.covers_layer(c, l),
{
    law_layout_is_ordered(c);
    let len = w.data@.len() as int;
    let d = c.dim as int;
    let h = c.hidden_dim as int;
    let kvd = c.spec_kv_dim();
    let m = c.n_layers - 1;
    assert forall|l: int| 0 <= l < c.n_layers implies #[trigger] w.covers_layer(c, l) by {
        lemma_block_start(l, d, d);
        lemma_block_start(l, d, kvd);
        lemma_block_start(l, d, h);
        lemma_earlier_block_fits(len, w.rms_att_offset as int, l, m, d);
        lemma_earlier_block_fits(len, w.wq_offset as int, l, m, d * d);
        lemma_earlier_block_fits(len, w.wk_offset as int, l, m, d * kvd);
        lemma_earlier_block_fits(len, w.wv_offset as int, l, m, d * kvd);
        lemma_earlier_block_fits(len, w.wo_offset as int, l, m, d * d);
        lemma_earlier_block_fits(len, w.rms_ffn_offset as int, l, m, d);
        lemma_earlier_block_fits(len, w.w1_offset as int, l, m, d * h);
        lemma_earlier_block_fits(len, w.w2_offset as int, l, m, h * d);
        lemma_earlier_block_fits(len, w.w3_offset as int, l, m, d * h);
    }
}

/// Whether the weights hold every matrix that a forward pass reads.
pub fn can_cover<T>(cfg: &Config, w: &Weights<T>) -> (r: bool)
    requires
        state_fits(*cfg),
    ensures
        r == w.covers(*cfg),
{
    let len: usize = w.data.len();
    let d: usize = cfg.dim;
    let h: usize = cfg.hidden_dim;
    let kvd: usize = cfg.kv_dim();
    if !block_ends_within(len, w.rms_final_offset, 0, d, 1) {
        return false;
    }
    let classifier: usize = if w.shared_weights {
        w.token_embedding_offset
    } else {
        w.wcls_offset
    };
    if !block_ends_within(len, classifier, 0, cfg.vocab_size, d) {
        return false;
    }
    if cfg.n_layers == 0 {
        return true;
    }
    let last: usize = cfg.n_layers - 1;
    let held: bool = block_ends_within(len, w.rms_att_offset, last, d, 1)
        && block_ends_within(len, w.wq_offset, last, d, d)
        && block_ends_within(len, w.wk_offset, last, d, kvd)
        && block_ends_within(len, w.wv_offset, last, d, kvd)
        && block_ends_within(len, w.wo_offset, last, d, d)
        && block_ends_within(len, w.rms_ffn_offset, last, d, 1)
        && block_ends_within(len, w.w1_offset, last, d, h)
        && block_ends_within(len, w.w2_offset, last, h, d)
        && block_ends_within(len, w.w3_offset, last, d, h);
    assert(held == w.covers_layer(*cfg, last as int));
    proof {
        if held {
            lemma_last_layer_covers(*w, *cfg);
        }
    }
    held
}

/// Whether a layer runs at position `pos`.
pub fn can_run_layers(cfg: &Config, pos: usize) -> (r: bool)
    requires
        state_fits(*cfg),
        cfg.n_layers > 0,
    ensures
        r == layer_runs(*cfg, pos as int),
{
    if pos >= cfg.seq_len || cfg.n_kv_heads == 0 || cfg.n_kv_heads > cfg.n_heads {
        return false;
    }
    if cfg.dim % 2 != 0 || (cfg.dim > 0 && cfg.dim < cfg.n_heads) {
        return false;
    }
    let kvd: usize = cfg.kv_dim();
    if kvd % 2 == 1 && pos + 1 >= cfg.seq_len {
        return false;
    }
    let head_size: usize = cfg.head_size();
    let mul: usize = cfg.n_heads / cfg.n_kv_heads;
    proof {
        lemma_slot(*cfg, cfg.n_layers - 1, pos as int);
        lemma_last_head(*cfg);
        assert(0 <= (cfg.n_layers - 1) * cfg.seq_len * kvd);
    }
    let head: usize = (cfg.n_heads - 1) / mul;
    let start: usize = pos * kvd;
    match start.checked_add(head * head_size) {
        Some(from) => match from.checked_add(head_size) {
            Some(end) => end <= cfg.seq_len * kvd,
            None => false,
        },
        None => false,
    }
}

/// The place that the last head reads is counted in machine words.
proof fn lemma_last_head(c: Config)
    requires
        0 < c.n_kv_heads <= c.n_heads,
    ensures
        0 < c.n_heads as int / c.n_kv_heads as int,
        0 <= kv_head(c, c.n_heads - 1),
        0 <= c.spec_head_size(),
        0 <= kv_head(c, c.n_heads - 1) * c.spec_head_size() <= c.dim,
{
    let n = c.n_heads as int;
    let k = c.n_kv_heads as int;
    let d = c.dim as int;
    let m = n / k;
    let hs = d / n;
    vstd::arithmetic::div_mod::lemma_div_non_zero(n, k);
    vstd::arithmetic::div_mod::lemma_div_pos_is_pos(d, n);
    vstd::arithmetic::div_mod::lemma_fundamental_div_mod(d, n);
    vstd::arithmetic::div_mod::lemma_div_pos_is_pos(n - 1, m);
    vstd::arithmetic::div_mod::lemma_fundamental_div_mod(n - 1, m);
    let g = (n - 1) / m;
    assert(g <= n - 1) by (nonlinear_arith)
        requires
            n - 1 == m * g + (n - 1) % m,
            0 <= (n - 1) % m,
            0 < m,
            0 <= g,
    ;
    assert(0 <= g * hs && g * hs <= n * hs) by (nonlinear_arith)
        requires
            0 <= g <= n,
            0 <= hs,
    ;
    vstd::arithmetic::div_mod::lemma_mod_bound(d, n);
}

/// Whether a forward pass of `token` at `pos` can run.
pub fn can_run<T>(cfg: &Config, weights: &Weights<T>, token: u32, pos: usize) -> (r: bool)
    ensures
        r == runs(*cfg, *weights, token as int, pos as int),
{
    can_hold(cfg) && cfg.n_kv_heads > 0 && can_cover(cfg, weights) && block_ends_within(
        weights.data.len(),
        weights.token_embedding_offset,
        token as usize,
        cfg.dim,
        1,
    ) && (cfg.n_layers == 0 || can_run_layers(cfg, pos))
}

/// The forward pass for one token at position `pos`. The result, one score for each token of the
/// vocabulary, is also left in `state.logits`.
pub fn forward<'a, T: Copy, F: Fn(Term<T>) -> T>(
    f: &F,
    cfg: &Config,
    weights: &Weights<T>,
    state: &'a mut RunState<T>,
    token: u32,
    pos: usize,
) -> (r: &'a [T])
    requires
        total(*f),
        old(state)@.sized(*cfg),
        runs(*cfg, *weights, token as int, pos as int),
    ensures
        r@ == final(state)@.logits,
        passed(*f, *cfg, *weights, token as int, pos as int, old(state)@, final(state)@),
        final(state)@.sized(*cfg),
{
    embed(cfg, weights, state, token);
    let ghost mut t: Seq<State<T>> = seq![state@];
    let mut l: usize = 0;
    while l < cfg.n_layers
        invariant
            total(*f),
            state_fits(*cfg),
            weights.covers(*cfg),
            cfg.n_layers > 0 ==> layer_runs(*cfg, pos as int),
            l <= cfg.n_layers,
            state@.sized(*cfg),
            t.len() == l + 1,
            t[l as int] == state@,
            embedded(*cfg, *weights, token as int, old(state)@, t[0]),
            forall|k: int|
                #![trigger t[k]]
                0 <= k < l ==> layer_run(*f, *cfg, *weights, k, pos as int, t[k], t[k + 1]),
        decreases cfg.n_layers - l,
    {
        assert(weights.covers_layer(*cfg, l as int));
        run_layer(f, cfg, weights, state, l, pos);
        proof {
            t = t.push(state@);
        }
        l += 1;
    }
    classify(f, cfg, weights, state);
    assert(layers_run(*f, *cfg, *weights, pos as int, t));
    state.logits.as_slice()
}

} // verus!
