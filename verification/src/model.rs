//! The model's configuration, its weights and where they stand in a checkpoint.
use vstd::prelude::*;
use vstd::slice::slice_subrange;

use crate::bytes::{le_i32, le_u32, read_f32, read_i32, ByteReader, LoadError};
use crate::float::Float32;

verus! {

/// The seven numbers that a checkpoint begins with.
#[derive(Clone, Copy, Debug)]
pub struct Config {
    /// Length of an embedding.
    pub dim: usize,
    /// Length of a hidden vector of the feed-forward network.
    pub hidden_dim: usize,
    /// Number of transformer layers.
    pub n_layers: usize,
    /// Number of attention heads.
    pub n_heads: usize,
    /// Number of key and value heads.
    pub n_kv_heads: usize,
    /// Number of tokens in the vocabulary.
    pub vocab_size: usize,
    /// Largest number of positions in a sequence.
    pub seq_len: usize,
}

impl Config {
    /// Length of the part of a query that one head works on.
    pub open spec fn spec_head_size(self) -> int {
        self.dim as int / self.n_heads as int
    }

    /// Length of a key and of a value.
    pub open spec fn spec_kv_dim(self) -> int {
        (self.dim * self.n_kv_heads) / self.n_heads as int
    }

    /// `dim / n_heads`
    pub fn head_size(&self) -> (r: usize)
        requires
            self.n_heads > 0,
        ensures
            r == self.spec_head_size(),
    {
        self.dim / self.n_heads
    }

    /// `dim * n_kv_heads / n_heads`
    pub fn kv_dim(&self) -> (r: usize)
        requires
            self.n_heads > 0,
            self.dim * self.n_kv_heads <= usize::MAX,
        ensures
            r == self.spec_kv_dim(),
    {
        (self.dim * self.n_kv_heads) / self.n_heads
    }
}

/// Where the blocks of weights stand, counted in scalars from the first.
pub struct Layout {
    /// `vocab_size` rows of `dim`.
    pub token_embedding: int,
    /// A row of `dim` for each layer.
    pub rms_att: int,
    /// A `dim` by `dim` matrix for each layer.
    pub wq: int,
    /// A `kv_dim` by `dim` matrix for each layer.
    pub wk: int,
    /// A `kv_dim` by `dim` matrix for each layer.
    pub wv: int,
    /// A `dim` by `dim` matrix for each layer.
    pub wo: int,
    /// A row of `dim` for each layer.
    pub rms_ffn: int,
    /// A `hidden_dim` by `dim` matrix for each layer.
    pub w1: int,
    /// A `dim` by `hidden_dim` matrix for each layer.
    pub w2: int,
    /// A `hidden_dim` by `dim` matrix for each layer.
    pub w3: int,
    /// One row of `dim`.
    pub rms_final: int,
    /// Two tables of rotary frequencies, which nothing reads any more.
    pub rope: int,
    /// What follows the tables: the classifier, where it does not share the embedding's rows.
    pub tail: int,
}

/// The blocks stand one after the other.
pub open spec fn layout(c: Config) -> Layout {
    let d = c.dim as int;
    let h = c.hidden_dim as int;
    let l = c.n_layers as int;
    let kvd = c.spec_kv_dim();
    let token_embedding = 0int;
    let rms_att = token_embedding + c.vocab_size * d;
    let wq = rms_att + l * d;
    let wk = wq + l * d * d;
    let wv = wk + l * d * kvd;
    let wo = wv + l * d * kvd;
    let rms_ffn = wo + l * d * d;
    let w1 = rms_ffn + l * d;
    let w2 = w1 + l * d * h;
    let w3 = w2 + l * h * d;
    let rms_final = w3 + l * d * h;
    let rope = rms_final + d;
    let tail = rope + (c.seq_len * c.spec_head_size()) / 2 + (c.seq_len * c.spec_head_size()) / 2;
    Layout {
        token_embedding,
        rms_att,
        wq,
        wk,
        wv,
        wo,
        rms_ffn,
        w1,
        w2,
        w3,
        rms_final,
        rope,
        tail,
    }
}

/// There is a head, and no product or sum on the way to the layout exceeds a machine word.
pub open spec fn layout_fits(c: Config) -> bool {
    let d = c.dim as int;
    let h = c.hidden_dim as int;
    let l = c.n_layers as int;
    let kvd = c.spec_kv_dim();
    &&& c.n_heads > 0
    &&& c.dim * c.n_kv_heads <= usize::MAX
    &&& c.vocab_size * d <= usize::MAX
    &&& l * d <= usize::MAX
    &&& l * d * d <= usize::MAX
    &&& l * d * kvd <= usize::MAX
    &&& l * d * h <= usize::MAX
    &&& l * h <= usize::MAX
    &&& l * h * d <= usize::MAX
    &&& c.seq_len * c.spec_head_size() <= usize::MAX
    &&& layout(c).tail <= usize::MAX
}

/// All weights in one run, with the place where each matrix starts.
pub struct Weights<T> {
    /// The scalars.
    pub data: Vec<T>,
    /// Start of the `vocab_size` by `dim` embedding table.
    pub token_embedding_offset: usize,
    /// Start of the attention normalization weights.
    pub rms_att_offset: usize,
    /// Start of the query projections.
    pub wq_offset: usize,
    /// Start of the key projections.
    pub wk_offset: usize,
    /// Start of the value projections.
    pub wv_offset: usize,
    /// Start of the attention output projections.
    pub wo_offset: usize,
    /// Start of the feed-forward normalization weights.
    pub rms_ffn_offset: usize,
    /// Start of the gating projections.
    pub w1_offset: usize,
    /// Start of the down projections.
    pub w2_offset: usize,
    /// Start of the up projections.
    pub w3_offset: usize,
    /// Start of the final normalization weights.
    pub rms_final_offset: usize,
    /// Start of the classifier.
    pub wcls_offset: usize,
    /// Whether the classifier is the embedding table.
    pub shared_weights: bool,
}

/// Block `index` of the blocks of `size` scalars that begin at `offset`.
pub open spec fn block<T>(data: Seq<T>, offset: int, index: int, size: int) -> Seq<T> {
    data.subrange(offset + index * size, offset + index * size + size)
}

/// Block `index` ends within `len` scalars.
pub open spec fn block_fits(len: int, offset: int, index: int, size: int) -> bool {
    offset + index * size + size <= len
}

fn block_slice<T>(data: &[T], offset: usize, index: usize, size: usize) -> (r: &[T])
    requires
        block_fits(data@.len() as int, offset as int, index as int, size as int),
    ensures
        r@ == block(data@, offset as int, index as int, size as int),
{
    assert(data@.len() == data.len());
    assert(0 <= index * size) by (nonlinear_arith);
    let start: usize = offset + index * size;
    slice_subrange(data, start, start + size)
}

/// A product of two lengths that a slice has room for is a machine word.
fn area<T>(data: &[T], a: usize, b: usize, Ghost(start): Ghost<int>) -> (r: usize)
    requires
        0 <= start,
        start + a * b <= data@.len(),
    ensures
        r == a * b,
{
    assert(data@.len() == data.len());
    a * b
}

impl<T> Weights<T> {
    /// The whole embedding table.
    pub fn token_embedding(&self, dim: usize, vocab_size: usize) -> (r: &[T])
        requires
            self.token_embedding_offset + vocab_size * dim <= self.data@.len(),
        ensures
            r@ == self.data@.subrange(
                self.token_embedding_offset as int,
                self.token_embedding_offset + vocab_size * dim,
            ),
    {
        let ghost start = self.token_embedding_offset as int;
        let size: usize = area(self.data.as_slice(), vocab_size, dim, Ghost(start));
        assert(self.data@.len() == self.data.len());
        slice_subrange(
            self.data.as_slice(),
            self.token_embedding_offset,
            self.token_embedding_offset + size,
        )
    }

    /// The attention normalization weights of a layer.
    pub fn rms_att_weight(&self, layer: usize, dim: usize) -> (r: &[T])
        requires
            block_fits(
                self.data@.len() as int,
                self.rms_att_offset as int,
                layer as int,
                dim as int,
            ),
        ensures
            r@ == block(self.data@, self.rms_att_offset as int, layer as int, dim as int),
    {
        block_slice(self.data.as_slice(), self.rms_att_offset, layer, dim)
    }

    /// The query projection of a layer.
    pub fn wq(&self, layer: usize, dim: usize) -> (r: &[T])
        requires
            block_fits(
                self.data@.len() as int,
                self.wq_offset as int,
                layer as int,
                dim * dim,
            ),
        ensures
            r@ == block(self.data@, self.wq_offset as int, layer as int, dim * dim),
    {
        assert(0 <= layer * (dim * dim)) by (nonlinear_arith);
        let ghost start = self.wq_offset + layer * (dim * dim);
        let size: usize = area(self.data.as_slice(), dim, dim, Ghost(start));
        block_slice(self.data.as_slice(), self.wq_offset, layer, size)
    }

    /// The key projection of a layer.
    pub fn wk(&self, layer: usize, dim: usize, kv_dim: usize) -> (r: &[T])
        requires
            block_fits(
                self.data@.len() as int,
                self.wk_offset as int,
                layer as int,
                dim * kv_dim,
            ),
        ensures
            r@ == block(self.data@, self.wk_offset as int, layer as int, dim * kv_dim),
    {
        assert(0 <= layer * (dim * kv_dim)) by (nonlinear_arith);
        let ghost start = self.wk_offset + layer * (dim * kv_dim);
        let size: usize = area(self.data.as_slice(), dim, kv_dim, Ghost(start));
        block_slice(self.data.as_slice(), self.wk_offset, layer, size)
    }

    /// The value projection of a layer.
    pub fn wv(&self, layer: usize, dim: usize, kv_dim: usize) -> (r: &[T])
        requires
            block_fits(
                self.data@.len() as int,
                self.wv_offset as int,
                layer as int,
                dim * kv_dim,
            ),
        ensures
            r@ == block(self.data@, self.wv_offset as int, layer as int, dim * kv_dim),
    {
        assert(0 <= layer * (dim * kv_dim)) by (nonlinear_arith);
        let ghost start = self.wv_offset + layer * (dim * kv_dim);
        let size: usize = area(self.data.as_slice(), dim, kv_dim, Ghost(start));
        block_slice(self.data.as_slice(), self.wv_offset, layer, size)
    }

    /// The attention output projection of a layer.
    pub fn wo(&self, layer: usize, dim: usize) -> (r: &[T])
        requires
            block_fits(
                self.data@.len() as int,
                self.wo_offset as int,
                layer as int,
                dim * dim,
            ),
        ensures
            r@ == block(self.data@, self.wo_offset as int, layer as int, dim * dim),
    {
        assert(0 <= layer * (dim * dim)) by (nonlinear_arith);
        let ghost start = self.wo_offset + layer * (dim * dim);
        let size: usize = area(self.data.as_slice(), dim, dim, Ghost(start));
        block_slice(self.data.as_slice(), self.wo_offset, layer, size)
    }

    /// The feed-forward normalization weights of a layer.
    pub fn rms_ffn_weight(&self, layer: usize, dim: usize) -> (r: &[T])
        requires
            block_fits(
                self.data@.len() as int,
                self.rms_ffn_offset as int,
                layer as int,
                dim as int,
            ),
        ensures
            r@ == block(self.data@, self.rms_ffn_offset as int, layer as int, dim as int),
    {
        block_slice(self.data.as_slice(), self.rms_ffn_offset, layer, dim)
    }

    /// The gating projection of a layer.
    pub fn w1(&self, layer: usize, dim: usize, hidden_dim: usize) -> (r: &[T])
        requires
            block_fits(
                self.data@.len() as int,
                self.w1_offset as int,
                layer as int,
                dim * hidden_dim,
            ),
        ensures
            r@ == block(self.data@, self.w1_offset as int, layer as int, dim * hidden_dim),
    {
        assert(0 <= layer * (dim * hidden_dim)) by (nonlinear_arith);
        let ghost start = self.w1_offset + layer * (dim * hidden_dim);
        let size: usize = area(self.data.as_slice(), dim, hidden_dim, Ghost(start));
        block_slice(self.data.as_slice(), self.w1_offset, layer, size)
    }

    /// The down projection of a layer.
    pub fn w2(&self, layer: usize, hidden_dim: usize, dim: usize) -> (r: &[T])
        requires
            block_fits(
                self.data@.len() as int,
                self.w2_offset as int,
                layer as int,
                hidden_dim * dim,
            ),
        ensures
            r@ == block(self.data@, self.w2_offset as int, layer as int, hidden_dim * dim),
    {
        assert(0 <= layer * (hidden_dim * dim)) by (nonlinear_arith);
        let ghost start = self.w2_offset + layer * (hidden_dim * dim);
        let size: usize = area(self.data.as_slice(), hidden_dim, dim, Ghost(start));
        block_slice(self.data.as_slice(), self.w2_offset, layer, size)
    }

    /// The up projection of a layer.
    pub fn w3(&self, layer: usize, dim: usize, hidden_dim: usize) -> (r: &[T])
        requires
            block_fits(
                self.data@.len() as int,
                self.w3_offset as int,
                layer as int,
                dim * hidden_dim,
            ),
        ensures
            r@ == block(self.data@, self.w3_offset as int, layer as int, dim * hidden_dim),
    {
        assert(0 <= layer * (dim * hidden_dim)) by (nonlinear_arith);
        let ghost start = self.w3_offset + layer * (dim * hidden_dim);
        let size: usize = area(self.data.as_slice(), dim, hidden_dim, Ghost(start));
        block_slice(self.data.as_slice(), self.w3_offset, layer, size)
    }

    /// The final normalization weights.
    pub fn rms_final_weight(&self, dim: usize) -> (r: &[T])
        requires
            self.rms_final_offset + dim <= self.data@.len(),
        ensures
            r@ == self.data@.subrange(
                self.rms_final_offset as int,
                self.rms_final_offset + dim,
            ),
    {
        assert(self.data@.len() == self.data.len());
        slice_subrange(
            self.data.as_slice(),
            self.rms_final_offset,
            self.rms_final_offset + dim,
        )
    }

    /// Where the classifier is read from.
    pub open spec fn classifier_offset(&self) -> usize {
        if self.shared_weights {
            self.token_embedding_offset
        } else {
            self.wcls_offset
        }
    }

    /// The classifier: the embedding table where the weights are shared, else its own matrix.
    pub fn wcls(&self, dim: usize, vocab_size: usize) -> (r: &[T])
        requires
            self.classifier_offset() + vocab_size * dim <= self.data@.len(),
        ensures
            r@ == self.data@.subrange(
                self.classifier_offset() as int,
                self.classifier_offset() + vocab_size * dim,
            ),
    {
        let offset: usize = if self.shared_weights {
            self.token_embedding_offset
        } else {
            self.wcls_offset
        };
        let ghost start = offset as int;
        let size: usize = area(self.data.as_slice(), vocab_size, dim, Ghost(start));
        assert(self.data@.len() == self.data.len());
        slice_subrange(self.data.as_slice(), offset, offset + size)
    }
}

/// The embedding of a token: row `token_id` of the embedding table.
pub fn embedding_lookup<T>(weights: &Weights<T>, token_id: u32, dim: usize) -> (r: &[T])
    requires
        block_fits(
            weights.data@.len() as int,
            weights.token_embedding_offset as int,
            token_id as int,
            dim as int,
        ),
    ensures
        r@ == block(
            weights.data@,
            weights.token_embedding_offset as int,
            token_id as int,
            dim as int,
        ),
{
    block_slice(
        weights.data.as_slice(),
        weights.token_embedding_offset,
        token_id as usize,
        dim,
    )
}

/// The length of the configuration at the head of a checkpoint.
pub const HEADER_BYTES: usize = 28;

/// The signed number at place `k` of the header.
pub open spec fn header_field(bytes: Seq<u8>, k: int) -> i32 {
    le_i32(bytes.skip(4 * k)) as i32
}

/// The configuration that a checkpoint's header holds. The sign of the sixth number is not part
/// of the size of the vocabulary.
pub open spec fn header_config(bytes: Seq<u8>) -> Config {
    Config {
        dim: header_field(bytes, 0) as usize,
        hidden_dim: header_field(bytes, 1) as usize,
        n_layers: header_field(bytes, 2) as usize,
        n_heads: header_field(bytes, 3) as usize,
        n_kv_heads: header_field(bytes, 4) as usize,
        vocab_size: if header_field(bytes, 5) >= 0 {
            header_field(bytes, 5) as usize
        } else {
            (-header_field(bytes, 5)) as usize
        },
        seq_len: header_field(bytes, 6) as usize,
    }
}

/// A positive sixth number says that the classifier shares the embedding's weights.
pub open spec fn header_shares(bytes: Seq<u8>) -> bool {
    header_field(bytes, 5) > 0
}

/// The numbers that follow the header, four bytes each; up to three bytes at the end belong to
/// none.
pub open spec fn weight_words(bytes: Seq<u8>) -> Seq<Float32> {
    Seq::new(
        ((bytes.len() - HEADER_BYTES) / 4) as nat,
        |i: int| Float32 { bits: le_u32(bytes.skip(HEADER_BYTES + 4 * i)) as u32 },
    )
}

/// Reads the configuration at the head of a checkpoint, and whether the classifier shares the
/// embedding's weights.
pub fn read_config(bytes: &[u8]) -> (res: Result<(Config, bool), LoadError>)
    ensures
        match res {
            Ok((config, shared)) => {
                &&& HEADER_BYTES <= bytes@.len()
                &&& config == header_config(bytes@)
                &&& shared == header_shares(bytes@)
            },
            Err(LoadError::UnexpectedEof) => bytes@.len() < HEADER_BYTES,
        },
{
    let mut reader = ByteReader::new(bytes);
    assert(reader.rest() =~= bytes@.skip(0));
    let dim: i32 = read_i32(&mut reader)?;
    assert(reader.rest() =~= bytes@.skip(4));
    let hidden_dim: i32 = read_i32(&mut reader)?;
    assert(reader.rest() =~= bytes@.skip(8));
    let n_layers: i32 = read_i32(&mut reader)?;
    assert(reader.rest() =~= bytes@.skip(12));
    let n_heads: i32 = read_i32(&mut reader)?;
    assert(reader.rest() =~= bytes@.skip(16));
    let n_kv_heads: i32 = read_i32(&mut reader)?;
    assert(reader.rest() =~= bytes@.skip(20));
    let vocab_size_raw: i32 = read_i32(&mut reader)?;
    assert(reader.rest() =~= bytes@.skip(24));
    let seq_len: i32 = read_i32(&mut reader)?;
    assert(reader.rest() =~= bytes@.skip(28));
    let vocab_size: usize = if vocab_size_raw >= 0 {
        vocab_size_raw as usize
    } else {
        (-(vocab_size_raw as i64)) as usize
    };
    let config = Config {
        dim: dim as usize,
        hidden_dim: hidden_dim as usize,
        n_layers: n_layers as usize,
        n_heads: n_heads as usize,
        n_kv_heads: n_kv_heads as usize,
        vocab_size,
        seq_len: seq_len as usize,
    };
    Ok((config, vocab_size_raw > 0))
}

/// The model: its configuration and its weights.
pub struct Transformer<T> {
    /// The sizes.
    pub config: Config,
    /// The weights.
    pub weights: Weights<T>,
}

/// The blocks follow one another without a step back.
pub proof fn law_layout_is_ordered(c: Config)
    requires
        c.n_heads > 0,
    ensures
        ({
            let p = layout(c);
            &&& 0 <= c.spec_kv_dim()
            &&& 0 <= c.spec_head_size()
            &&& 0 == p.token_embedding <= p.rms_att <= p.wq <= p.wk <= p.wv <= p.wo <= p.rms_ffn
            &&& p.rms_ffn <= p.w1 <= p.w2 <= p.w3 <= p.rms_final <= p.rope <= p.tail
        }),
{
    let d = c.dim as int;
    let h = c.hidden_dim as int;
    let l = c.n_layers as int;
    let n = c.n_heads as int;
    let k = c.n_kv_heads as int;
    assert(0 <= d * k) by (nonlinear_arith)
        requires
            0 <= d,
            0 <= k,
    ;
    vstd::arithmetic::div_mod::lemma_div_pos_is_pos(d * k, n);
    vstd::arithmetic::div_mod::lemma_div_pos_is_pos(d, n);
    let kvd = c.spec_kv_dim();
    let hs = c.spec_head_size();
    let v = c.vocab_size as int;
    let s = c.seq_len as int;
    assert(0 <= v * d && 0 <= l * d && 0 <= l * h && 0 <= s * hs) by (nonlinear_arith)
        requires
            0 <= d,
            0 <= h,
            0 <= l,
            0 <= v,
            0 <= s,
            0 <= hs,
    ;
    assert(0 <= l * d * d && 0 <= l * d * kvd && 0 <= l * d * h && 0 <= l * h * d)
        by (nonlinear_arith)
        requires
            0 <= l * d,
            0 <= l * h,
            0 <= d,
            0 <= kvd,
            0 <= h,
    ;
}

/// The offsets that `weights` holds are those of the layout.
pub open spec fn placed<T>(weights: Weights<T>, c: Config, shared: bool) -> bool {
    let p = layout(c);
    &&& weights.token_embedding_offset == p.token_embedding
    &&& weights.rms_att_offset == p.rms_att
    &&& weights.wq_offset == p.wq
    &&& weights.wk_offset == p.wk
    &&& weights.wv_offset == p.wv
    &&& weights.wo_offset == p.wo
    &&& weights.rms_ffn_offset == p.rms_ffn
    &&& weights.w1_offset == p.w1
    &&& weights.w2_offset == p.w2
    &&& weights.w3_offset == p.w3
    &&& weights.rms_final_offset == p.rms_final
    &&& weights.wcls_offset == if shared {
        p.token_embedding
    } else {
        p.tail
    }
    &&& weights.shared_weights == shared
}

impl<T> Weights<T> {
    /// Finds the blocks of `data` in the order of the checkpoint format.
    pub fn place(config: &Config, shared_weights: bool, data: Vec<T>) -> (r: Weights<T>)
        requires
            layout_fits(*config),
        ensures
            r.data == data,
            placed(r, *config, shared_weights),
    {
        proof {
            law_layout_is_ordered(*config);
        }
        let d: usize = config.dim;
        let h: usize = config.hidden_dim;
        let l: usize = config.n_layers;
        let v: usize = config.vocab_size;
        let s: usize = config.seq_len;
        let head_size: usize = config.head_size();
        let kv_dim: usize = config.kv_dim();
        let token_embedding_offset: usize = 0;
        let rms_att_offset: usize = token_embedding_offset + v * d;
        let wq_offset: usize = rms_att_offset + l * d;
        let wk_offset: usize = wq_offset + l * d * d;
        let wv_offset: usize = wk_offset + l * d * kv_dim;
        let wo_offset: usize = wv_offset + l * d * kv_dim;
        let rms_ffn_offset: usize = wo_offset + l * d * d;
        let w1_offset: usize = rms_ffn_offset + l * d;
        let w2_offset: usize = w1_offset + l * d * h;
        let w3_offset: usize = w2_offset + l * h * d;
        let rms_final_offset: usize = w3_offset + l * d * h;
        let rope: usize = rms_final_offset + d;
        let tail: usize = rope + s * head_size / 2 + s * head_size / 2;
        let wcls_offset: usize = if shared_weights {
            token_embedding_offset
        } else {
            tail
        };
        Weights {
            data,
            token_embedding_offset,
            rms_att_offset,
            wq_offset,
            wk_offset,
            wv_offset,
            wo_offset,
            rms_ffn_offset,
            w1_offset,
            w2_offset,
            w3_offset,
            rms_final_offset,
            wcls_offset,
            shared_weights,
        }
    }
}

impl Config {
    /// Whether there is a head and the layout of the weights can be counted in machine words.
    pub fn fits(&self) -> (r: bool)
        ensures
            r == layout_fits(*self),
    {
        if self.n_heads == 0 {
            return false;
        }
        proof {
            law_layout_is_ordered(*self);
        }
        let d: usize = self.dim;
        let h: usize = self.hidden_dim;
        let l: usize = self.n_layers;
        if d.checked_mul(self.n_kv_heads).is_none() {
            return false;
        }
        let kv_dim: usize = self.kv_dim();
        let head_size: usize = self.head_size();
        let (Some(vd), Some(ld), Some(lh), Some(sh)) = (
            self.vocab_size.checked_mul(d),
            l.checked_mul(d),
            l.checked_mul(h),
            self.seq_len.checked_mul(head_size),
        ) else {
            return false;
        };
        let (Some(ldd), Some(ldk), Some(ldh), Some(lhd)) = (
            ld.checked_mul(d),
            ld.checked_mul(kv_dim),
            ld.checked_mul(h),
            lh.checked_mul(d),
        ) else {
            return false;
        };
        let sizes: [usize; 13] = [vd, ld, ldd, ldk, ldk, ldd, ld, ldh, lhd, ldh, d, sh / 2, sh / 2];
        let mut end: usize = 0;
        let mut i: usize = 0;
        assert(sum_of(sizes@) == layout(*self).tail) by {
            reveal_with_fuel(sum_of, 14);
        }
        while i < 13
            invariant
                i <= 13,
                sizes@.len() == 13,
                end == sum_of(sizes@.take(i as int)),
                sum_of(sizes@) == layout(*self).tail,
            decreases 13 - i,
        {
            proof {
                assert(sizes@.take(i + 1).drop_last() =~= sizes@.take(i as int));
                lemma_sum_of_grows(sizes@, i + 1);
            }
            match end.checked_add(sizes[i]) {
                Some(next) => {
                    end = next;
                },
                None => {
                    return false;
                },
            }
            i += 1;
        }
        assert(sizes@.take(13) =~= sizes@);
        true
    }
}

spec fn sum_of(xs: Seq<usize>) -> int
    decreases xs.len(),
{
    if xs.len() == 0 {
        0
    } else {
        sum_of(xs.drop_last()) + xs.last()
    }
}

proof fn lemma_sum_of_grows(xs: Seq<usize>, k: int)
    requires
        0 <= k <= xs.len(),
    ensures
        sum_of(xs.take(k)) <= sum_of(xs),
    decreases xs.len(),
{
    if k == xs.len() {
        assert(xs.take(k) =~= xs);
    } else {
        assert(xs.drop_last().take(k) =~= xs.take(k));
        lemma_sum_of_grows(xs.drop_last(), k);
    }
}

impl<T> Weights<T> {
    /// Every matrix of layer `l` lies within the scalars.
    pub open spec fn covers_layer(&self, c: Config, l: int) -> bool {
        let len = self.data@.len() as int;
        let d = c.dim as int;
        let h = c.hidden_dim as int;
        let kvd = c.spec_kv_dim();
        &&& block_fits(len, self.rms_att_offset as int, l, d)
        &&& block_fits(len, self.wq_offset as int, l, d * d)
        &&& block_fits(len, self.wk_offset as int, l, d * kvd)
        &&& block_fits(len, self.wv_offset as int, l, d * kvd)
        &&& block_fits(len, self.wo_offset as int, l, d * d)
        &&& block_fits(len, self.rms_ffn_offset as int, l, d)
        &&& block_fits(len, self.w1_offset as int, l, d * h)
        &&& block_fits(len, self.w2_offset as int, l, h * d)
        &&& block_fits(len, self.w3_offset as int, l, d * h)
    }

    /// Every matrix that a forward pass reads lies within the scalars.
    pub open spec fn covers(&self, c: Config) -> bool {
        &&& forall|l: int| 0 <= l < c.n_layers ==> #[trigger] self.covers_layer(c, l)
        &&& self.rms_final_offset + c.dim <= self.data@.len()
        &&& self.classifier_offset() + c.vocab_size * c.dim <= self.data@.len()
    }
}

/// The scalars that a checkpoint of this configuration holds.
pub open spec fn layout_end(c: Config, shared: bool) -> int {
    if shared {
        layout(c).rope
    } else {
        layout(c).tail + c.vocab_size * c.dim
    }
}

impl Transformer<Float32> {
    /// Reads a checkpoint: the header, then the weights in the order of the layout.
    pub fn from_bytes(bytes: &[u8]) -> (res: Result<Transformer<Float32>, LoadError>)
        requires
            HEADER_BYTES <= bytes@.len() ==> layout_fits(header_config(bytes@)),
        ensures
            match res {
                Ok(t) => {
                    &&& HEADER_BYTES <= bytes@.len()
                    &&& t.config == header_config(bytes@)
                    &&& t.weights.data@ == weight_words(bytes@)
                    &&& placed(t.weights, t.config, header_shares(bytes@))
                },
                Err(LoadError::UnexpectedEof) => bytes@.len() < HEADER_BYTES,
            },
    {
        let (config, shared_weights) = read_config(bytes)?;
        let n: usize = (bytes.len() - HEADER_BYTES) / 4;
        let mut reader = ByteReader::new(
            slice_subrange(bytes, HEADER_BYTES, bytes.len()),
        );
        let mut data: Vec<Float32> = Vec::new();
        let mut i: usize = 0;
        assert(reader.rest() =~= bytes@.skip(HEADER_BYTES as int));
        while i < n
            invariant
                i <= n,
                n == (bytes@.len() - HEADER_BYTES) / 4,
                HEADER_BYTES <= bytes@.len(),
                reader.wf(),
                reader.rest() == bytes@.skip(HEADER_BYTES + 4 * i),
                data@ =~= weight_words(bytes@).take(i as int),
            decreases n - i,
        {
            let word = read_f32(&mut reader)?;
            assert(reader.rest() =~= bytes@.skip(HEADER_BYTES + 4 * (i + 1)));
            data.push(word);
            i += 1;
        }
        assert(data@ =~= weight_words(bytes@));
        let weights = Weights::place(&config, shared_weights, data);
        Ok(Transformer { config, weights })
    }
}

/// The matrices of a layer lie between the places where their block and the next block start:
/// no two matrices overlap.
pub proof fn law_blocks_stay_apart(c: Config, l: int)
    requires
        c.n_heads > 0,
        0 <= l < c.n_layers,
    ensures
        ({
            let p = layout(c);
            let d = c.dim as int;
            let h = c.hidden_dim as int;
            let kvd = c.spec_kv_dim();
            &&& within(p.rms_att, l, d, p.wq)
            &&& within(p.wq, l, d * d, p.wk)
            &&& within(p.wk, l, d * kvd, p.wv)
            &&& within(p.wv, l, d * kvd, p.wo)
            &&& within(p.wo, l, d * d, p.rms_ffn)
            &&& within(p.rms_ffn, l, d, p.w1)
            &&& within(p.w1, l, d * h, p.w2)
            &&& within(p.w2, l, h * d, p.w3)
            &&& within(p.w3, l, d * h, p.rms_final)
        }),
{
    let d = c.dim as int;
    let h = c.hidden_dim as int;
    let kvd = c.spec_kv_dim();
    let n = c.n_layers as int;
    law_layout_is_ordered(c);
    lemma_block_within(l, n, d, 1);
    lemma_block_within(l, n, d, d);
    lemma_block_within(l, n, d, kvd);
    lemma_block_within(l, n, d, h);
    lemma_block_within(l, n, h, d);
}

/// Block `index` of the blocks of `size` scalars from `offset` on ends at `end` or before, and
/// starts where the block before it ends.
pub open spec fn within(offset: int, index: int, size: int, end: int) -> bool {
    &&& offset <= offset + index * size
    &&& offset + index * size + size <= end
    &&& offset + (index + 1) * size == offset + index * size + size
}

proof fn lemma_block_within(l: int, n: int, a: int, b: int)
    requires
        0 <= l < n,
        0 <= a,
        0 <= b,
    ensures
        0 <= l * (a * b),
        l * (a * b) + a * b == (l + 1) * (a * b),
        l * (a * b) + a * b <= n * a * b,
        a * 1 == a,
{
    assert(0 <= a * b) by (nonlinear_arith)
        requires
            0 <= a,
            0 <= b,
    ;
    let m = a * b;
    assert(0 <= l * m && l * m + m == (l + 1) * m && (l + 1) * m <= n * m) by (nonlinear_arith)
        requires
            0 <= l < n,
            0 <= m,
    ;
    assert(n * a * b == n * (a * b)) by (nonlinear_arith);
}

/// A checkpoint that is long enough for its header holds every matrix that a forward pass reads,
/// and the embedding of every token of the vocabulary.
pub proof fn law_long_enough_checkpoint_covers<T>(weights: Weights<T>, c: Config, shared: bool)
    requires
        c.n_heads > 0,
        placed(weights, c, shared),
        layout_end(c, shared) <= weights.data@.len(),
    ensures
        weights.covers(c),
        forall|token: int|
            0 <= token < c.vocab_size ==> #[trigger] block_fits(
                weights.data@.len() as int,
                weights.token_embedding_offset as int,
                token,
                c.dim as int,
            ),
{
    law_layout_is_ordered(c);
    let d = c.dim as int;
    let v = c.vocab_size as int;
    assert(0 <= v * d) by (nonlinear_arith)
        requires
            0 <= v,
            0 <= d,
    ;
    assert forall|l: int| 0 <= l < c.n_layers implies #[trigger] weights.covers_layer(c, l) by {
        law_blocks_stay_apart(c, l);
    }
    assert forall|token: int| 0 <= token < c.vocab_size implies #[trigger] block_fits(
        weights.data@.len() as int,
        weights.token_embedding_offset as int,
        token,
        c.dim as int,
    ) by {
        lemma_block_within(token, v, d, 1);
        assert(v * d * 1 == v * d);
    }
}

} // verus!
