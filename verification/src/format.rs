//! What is written in the two file formats is what is read back.
use vstd::prelude::*;
use vstd::utf8::encode_utf8;

use crate::bytes::{le_i32, le_u32, text_of_bytes};
use crate::float::Float32;
use crate::forward::{state_fits, State};
use crate::model::{
    block, header_config, header_shares, law_layout_is_ordered, layout, layout_fits, placed,
    weight_words, Config, Weights,
};
use crate::tokenizer::{entries, Entry};

verus! {

/// The four bytes from `at` on hold `n`, the lowest byte first, in two's complement where `n` is
/// negative.
pub open spec fn holds(bytes: Seq<u8>, at: int, n: int) -> bool {
    let u = if n < 0 {
        n + 0x1_0000_0000
    } else {
        n
    };
    &&& 0 <= at
    &&& at + 4 <= bytes.len()
    &&& bytes[at] == u % 0x100
    &&& bytes[at + 1] == u / 0x100 % 0x100
    &&& bytes[at + 2] == u / 0x1_0000 % 0x100
    &&& bytes[at + 3] == u / 0x100_0000 % 0x100
}

/// Four bytes, the lowest first, read back as the number they were taken from.
pub proof fn law_number_reads_back(bytes: Seq<u8>, n: int)
    requires
        0 <= n < 0x1_0000_0000,
        bytes.len() >= 4,
        bytes[0] == n % 0x100,
        bytes[1] == n / 0x100 % 0x100,
        bytes[2] == n / 0x1_0000 % 0x100,
        bytes[3] == n / 0x100_0000,
    ensures
        le_u32(bytes) == n,
        n < 0x8000_0000 ==> le_i32(bytes) == n,
        n >= 0x8000_0000 ==> le_i32(bytes) == n - 0x1_0000_0000,
{
}

proof fn lemma_held_number(bytes: Seq<u8>, at: int, n: int)
    requires
        holds(bytes, at, n),
        -0x8000_0000 <= n < 0x1_0000_0000,
    ensures
        n >= 0 ==> le_u32(bytes.skip(at)) == n,
        n < 0x8000_0000 ==> le_i32(bytes.skip(at)) == n,
{
    let b = bytes.skip(at);
    let u = if n < 0 {
        n + 0x1_0000_0000
    } else {
        n
    };
    assert(b[0] == bytes[at] && b[1] == bytes[at + 1] && b[2] == bytes[at + 2] && b[3] == bytes[at
        + 3]);
    law_number_reads_back(b, u);
}

/// Seven numbers at the head of a checkpoint read back as the length of an embedding, that of a
/// hidden vector, the numbers of layers, heads and key heads, the size of the vocabulary and the
/// length of a sequence, in this order. A vocabulary below zero has its own classifier, and one
/// above zero shares the embedding's weights.
pub proof fn law_header_reads_back(
    bytes: Seq<u8>,
    dim: int,
    hidden_dim: int,
    n_layers: int,
    n_heads: int,
    n_kv_heads: int,
    vocab: int,
    seq_len: int,
)
    requires
        0 <= dim < 0x8000_0000,
        0 <= hidden_dim < 0x8000_0000,
        0 <= n_layers < 0x8000_0000,
        0 <= n_heads < 0x8000_0000,
        0 <= n_kv_heads < 0x8000_0000,
        -0x8000_0000 <= vocab < 0x8000_0000,
        0 <= seq_len < 0x8000_0000,
        holds(bytes, 0, dim),
        holds(bytes, 4, hidden_dim),
        holds(bytes, 8, n_layers),
        holds(bytes, 12, n_heads),
        holds(bytes, 16, n_kv_heads),
        holds(bytes, 20, vocab),
        holds(bytes, 24, seq_len),
    ensures
        header_config(bytes).dim == dim,
        header_config(bytes).hidden_dim == hidden_dim,
        header_config(bytes).n_layers == n_layers,
        header_config(bytes).n_heads == n_heads,
        header_config(bytes).n_kv_heads == n_kv_heads,
        vocab >= 0 ==> header_config(bytes).vocab_size == vocab,
        vocab < 0 ==> header_config(bytes).vocab_size == -vocab,
        header_config(bytes).seq_len == seq_len,
        header_shares(bytes) == (vocab > 0),
{
    lemma_held_number(bytes, 0, dim);
    lemma_held_number(bytes, 4, hidden_dim);
    lemma_held_number(bytes, 8, n_layers);
    lemma_held_number(bytes, 12, n_heads);
    lemma_held_number(bytes, 16, n_kv_heads);
    lemma_held_number(bytes, 20, vocab);
    lemma_held_number(bytes, 24, seq_len);
}

/// The numbers that are written after the 28 bytes of the header are the weights, in this order and
/// no others; fewer than four bytes more are none.
pub proof fn law_weights_read_back(bytes: Seq<u8>, words: Seq<u32>)
    requires
        28 + 4 * words.len() <= bytes.len() < 28 + 4 * words.len() + 4,
        forall|i: int|
            0 <= i < words.len() ==> holds(bytes, 28 + 4 * i, #[trigger] words[i] as int),
    ensures
        weight_words(bytes).len() == words.len(),
        forall|i: int|
            0 <= i < words.len() ==> (#[trigger] weight_words(bytes)[i]).bits == words[i],
{
    assert forall|i: int| 0 <= i < words.len() implies (#[trigger] weight_words(bytes)[i]).bits
        == words[i] by {
        assert(holds(bytes, 28 + 4 * i, words[i] as int));
        lemma_held_number(bytes, 28 + 4 * i, words[i] as int);
    }
}

/// The matrices of a model, each kind for all layers together.
pub struct Matrices<T> {
    pub embedding: Seq<T>,
    pub rms_att: Seq<T>,
    pub wq: Seq<T>,
    pub wk: Seq<T>,
    pub wv: Seq<T>,
    pub wo: Seq<T>,
    pub rms_ffn: Seq<T>,
    pub w1: Seq<T>,
    pub w2: Seq<T>,
    pub w3: Seq<T>,
    pub rms_final: Seq<T>,
    pub cos_table: Seq<T>,
    pub sin_table: Seq<T>,
    pub classifier: Seq<T>,
}

/// The matrices have the sizes that the configuration gives them.
pub open spec fn matrices_fit<T>(c: Config, m: Matrices<T>) -> bool {
    let d = c.dim as int;
    let h = c.hidden_dim as int;
    let n = c.n_layers as int;
    let k = (c.dim * c.n_kv_heads) / c.n_heads as int;
    let half = (c.seq_len * (d / c.n_heads as int)) / 2;
    &&& m.embedding.len() == c.vocab_size * d
    &&& m.rms_att.len() == n * d
    &&& m.wq.len() == n * d * d
    &&& m.wk.len() == n * d * k
    &&& m.wv.len() == n * d * k
    &&& m.wo.len() == n * d * d
    &&& m.rms_ffn.len() == n * d
    &&& m.w1.len() == n * d * h
    &&& m.w2.len() == n * h * d
    &&& m.w3.len() == n * d * h
    &&& m.rms_final.len() == d
    &&& m.cos_table.len() == half
    &&& m.sin_table.len() == half
    &&& m.classifier.len() == c.vocab_size * d
}

/// Matrices written one kind after the other are found where they were written.
pub proof fn law_matrices_are_found<T>(
    c: Config,
    w: Weights<T>,
    shared: bool,
    m: Matrices<T>,
    rest: Seq<T>,
    l: int,
)
    requires
        c.n_heads > 0,
        0 <= l < c.n_layers,
        matrices_fit(c, m),
        placed(w, c, shared),
        w.data@ == m.embedding + m.rms_att + m.wq + m.wk + m.wv + m.wo + m.rms_ffn + m.w1 + m.w2
            + m.w3 + m.rms_final + m.cos_table + m.sin_table + m.classifier + rest,
    ensures
        ({
            let d = c.dim as int;
            let h = c.hidden_dim as int;
            let k = (c.dim * c.n_kv_heads) / c.n_heads as int;
            let data = w.data@;
            &&& block(data, w.token_embedding_offset as int, 0, c.vocab_size * d) == m.embedding
            &&& block(data, w.rms_att_offset as int, l, d) == m.rms_att.subrange(l * d, l * d + d)
            &&& block(data, w.wq_offset as int, l, d * d) == m.wq.subrange(
                l * (d * d),
                l * (d * d) + d * d,
            )
            &&& block(data, w.wk_offset as int, l, d * k) == m.wk.subrange(
                l * (d * k),
                l * (d * k) + d * k,
            )
            &&& block(data, w.wv_offset as int, l, d * k) == m.wv.subrange(
                l * (d * k),
                l * (d * k) + d * k,
            )
            &&& block(data, w.wo_offset as int, l, d * d) == m.wo.subrange(
                l * (d * d),
                l * (d * d) + d * d,
            )
            &&& block(data, w.rms_ffn_offset as int, l, d) == m.rms_ffn.subrange(l * d, l * d + d)
            &&& block(data, w.w1_offset as int, l, d * h) == m.w1.subrange(
                l * (d * h),
                l * (d * h) + d * h,
            )
            &&& block(data, w.w2_offset as int, l, h * d) == m.w2.subrange(
                l * (h * d),
                l * (h * d) + h * d,
            )
            &&& block(data, w.w3_offset as int, l, d * h) == m.w3.subrange(
                l * (d * h),
                l * (d * h) + d * h,
            )
            &&& data.subrange(w.rms_final_offset as int, w.rms_final_offset + d) == m.rms_final
            &&& data.subrange(
                w.classifier_offset() as int,
                w.classifier_offset() + c.vocab_size * d,
            ) == if shared {
                m.embedding
            } else {
                m.classifier
            }
        }),
{
    let d = c.dim as int;
    let h = c.hidden_dim as int;
    let n = c.n_layers as int;
    let k = c.spec_kv_dim();
    law_layout_is_ordered(c);
    lemma_within(l, n, d, 1);
    lemma_within(l, n, d, d);
    lemma_within(l, n, d, k);
    lemma_within(l, n, d, h);
    lemma_within(l, n, h, d);
    let p = layout(c);
    let data = w.data@;
    let a1 = m.embedding;
    let a2 = a1 + m.rms_att;
    let a3 = a2 + m.wq;
    let a4 = a3 + m.wk;
    let a5 = a4 + m.wv;
    let a6 = a5 + m.wo;
    let a7 = a6 + m.rms_ffn;
    let a8 = a7 + m.w1;
    let a9 = a8 + m.w2;
    let a10 = a9 + m.w3;
    let a11 = a10 + m.rms_final;
    let a12 = a11 + m.cos_table;
    let a13 = a12 + m.sin_table;
    let a14 = a13 + m.classifier;
    assert(a1.len() == p.rms_att && a2.len() == p.wq && a3.len() == p.wk && a4.len() == p.wv);
    assert(a5.len() == p.wo && a6.len() == p.rms_ffn && a7.len() == p.w1 && a8.len() == p.w2);
    assert(a9.len() == p.w3 && a10.len() == p.rms_final && a11.len() == p.rope);
    assert(a13.len() == p.tail);
    assert(data == a14 + rest);
    assert(data.take(data.len() as int) =~= data);
    lemma_begins(data, a14, rest);
    lemma_begins(data, a13, m.classifier);
    lemma_begins(data, a12, m.sin_table);
    lemma_begins(data, a11, m.cos_table);
    lemma_begins(data, a10, m.rms_final);
    lemma_begins(data, a9, m.w3);
    lemma_begins(data, a8, m.w2);
    lemma_begins(data, a7, m.w1);
    lemma_begins(data, a6, m.rms_ffn);
    lemma_begins(data, a5, m.wo);
    lemma_begins(data, a4, m.wv);
    lemma_begins(data, a3, m.wk);
    lemma_begins(data, a2, m.wq);
    lemma_begins(data, a1, m.rms_att);
    let e = Seq::<T>::empty();
    assert(e + a1 =~= a1);
    lemma_found(data, e, a1, 0, c.vocab_size * d);
    assert(a1.subrange(0, c.vocab_size * d) =~= a1);
    lemma_found(data, a10, m.rms_final, 0, d);
    assert(m.rms_final.subrange(0, d) =~= m.rms_final);
    lemma_found(data, a13, m.classifier, 0, c.vocab_size * d);
    assert(m.classifier.subrange(0, c.vocab_size * d) =~= m.classifier);
    lemma_found(data, a1, m.rms_att, l * d, d);
    lemma_found(data, a2, m.wq, l * (d * d), d * d);
    lemma_found(data, a3, m.wk, l * (d * k), d * k);
    lemma_found(data, a4, m.wv, l * (d * k), d * k);
    lemma_found(data, a5, m.wo, l * (d * d), d * d);
    lemma_found(data, a6, m.rms_ffn, l * d, d);
    lemma_found(data, a7, m.w1, l * (d * h), d * h);
    lemma_found(data, a8, m.w2, l * (h * d), h * d);
    lemma_found(data, a9, m.w3, l * (d * h), d * h);
}

/// `data` begins with `a`.
spec fn begins<T>(data: Seq<T>, a: Seq<T>) -> bool {
    a.len() <= data.len() && a == data.take(a.len() as int)
}

proof fn lemma_begins<T>(data: Seq<T>, a: Seq<T>, b: Seq<T>)
    requires
        begins(data, a + b),
    ensures
        begins(data, a),
{
    assert(a =~= (a + b).take(a.len() as int));
    assert(data.take(a.len() as int) =~= data.take((a + b).len() as int).take(a.len() as int));
}

/// Part of `part`, which stands after `front` in `data`.
proof fn lemma_found<T>(data: Seq<T>, front: Seq<T>, part: Seq<T>, from: int, len: int)
    requires
        0 <= from,
        0 <= len,
        from + len <= part.len(),
        begins(data, front + part),
    ensures
        data.subrange(front.len() + from, front.len() + from + len) == part.subrange(
            from,
            from + len,
        ),
{
    assert forall|i: int| 0 <= i < len implies #[trigger] data.subrange(
        front.len() + from,
        front.len() + from + len,
    )[i] == part.subrange(from, from + len)[i] by {
        assert((front + part)[front.len() + from + i] == part[from + i]);
        assert(data.take((front + part).len() as int)[front.len() + from + i] == data[front.len()
            + from + i]);
    }
    assert(data.subrange(front.len() + from, front.len() + from + len) =~= part.subrange(
        from,
        from + len,
    ));
}

/// Block `l` of `n` blocks of `a` by `b` lies within them.
proof fn lemma_within(l: int, n: int, a: int, b: int)
    requires
        0 <= l < n,
        0 <= a,
        0 <= b,
    ensures
        0 <= a * b,
        0 <= l * (a * b),
        l * (a * b) + a * b <= n * a * b,
{
    let s = a * b;
    assert(0 <= s) by (nonlinear_arith)
        requires
            s == a * b,
            0 <= a,
            0 <= b,
    ;
    assert(n * a * b == n * s) by (nonlinear_arith)
        requires
            s == a * b,
    ;
    assert(0 <= l * s && l * s + s <= n * s) by (nonlinear_arith)
        requires
            0 <= l,
            l + 1 <= n,
            0 <= s,
    ;
}

/// A score, the length of a text in bytes and the text's bytes read back as an entry, and what
/// follows reads as the entries after it.
pub proof fn law_entry_reads_back(bytes: Seq<u8>, score: u32, text: Seq<char>, n: nat)
    requires
        encode_utf8(text).len() < 0x1_0000_0000,
        holds(bytes, 0, score as int),
        holds(bytes, 4, encode_utf8(text).len() as int),
        8 + encode_utf8(text).len() <= bytes.len(),
        bytes.subrange(8, 8 + encode_utf8(text).len() as int) == encode_utf8(text),
    ensures
        ({
            let rest = bytes.skip(8 + encode_utf8(text).len() as int);
            &&& entries(bytes, n + 1) is Some <==> entries(rest, n) is Some
            &&& entries(rest, n) matches Some(es) ==> {
                let all = entries(bytes, n + 1)->0;
                &&& all.len() == es.len() + 1
                &&& all[0].score.bits == score
                &&& all[0].text == text
                &&& all.drop_first() == es
            }
        }),
{
    lemma_held_number(bytes, 0, score as int);
    lemma_held_number(bytes, 4, encode_utf8(text).len() as int);
    assert(bytes.skip(0) =~= bytes);
    vstd::utf8::encode_utf8_valid_utf8(text);
    vstd::utf8::encode_utf8_decode_utf8(text);
    let rest = bytes.skip(8 + encode_utf8(text).len() as int);
    let first = Entry {
        score: Float32 { bits: le_u32(bytes) as u32 },
        text: text_of_bytes(bytes.subrange(8, 8 + encode_utf8(text).len() as int)),
    };
    if let Some(es) = entries(rest, n) {
        assert(entries(bytes, n + 1) == Some(seq![first] + es));
        assert((seq![first] + es).drop_first() =~= es);
    }
}

/// A vocabulary of no texts holds none, and one that ends within an entry cannot be read.
pub proof fn law_short_vocabulary_is_refused(bytes: Seq<u8>, len: int, n: nat)
    ensures
        entries(bytes, 0) == Some(Seq::<Entry>::empty()),
        bytes.len() < 8 ==> entries(bytes, n + 1) is None,
        0 <= len < 0x1_0000_0000 && holds(bytes, 4, len) && bytes.len() < 8 + len ==> entries(
            bytes,
            n + 1,
        ) is None,
{
    if 0 <= len < 0x1_0000_0000 && holds(bytes, 4, len) {
        lemma_held_number(bytes, 4, len);
    }
}

/// The length of a head times their number is the largest such that does not exceed the length of
/// an embedding, and a key has as many times that share as there are key heads.
pub proof fn law_derived_sizes(c: Config)
    requires
        c.n_heads > 0,
    ensures
        c.spec_head_size() * c.n_heads <= c.dim < (c.spec_head_size() + 1) * c.n_heads,
        c.spec_kv_dim() * c.n_heads <= c.dim * c.n_kv_heads < (c.spec_kv_dim() + 1) * c.n_heads,
{
    let n = c.n_heads as int;
    let d = c.dim as int;
    let e = c.dim * c.n_kv_heads;
    vstd::arithmetic::div_mod::lemma_fundamental_div_mod(d, n);
    vstd::arithmetic::div_mod::lemma_fundamental_div_mod(e, n);
    vstd::arithmetic::div_mod::lemma_mod_bound(d, n);
    vstd::arithmetic::div_mod::lemma_mod_bound(e, n);
    let a = d / n;
    let b = e / n;
    assert(a * n <= d && d < (a + 1) * n) by (nonlinear_arith)
        requires
            d == n * a + d % n,
            0 <= d % n < n,
    ;
    assert(b * n <= e && e < (b + 1) * n) by (nonlinear_arith)
        requires
            e == n * b + e % n,
            0 <= e % n < n,
    ;
}

/// The weights can be placed where there is a head and the scalars of all matrices, together with
/// those of the two tables, can be counted in machine words. The sizes of a key, of the layers'
/// hidden vectors and of a table must be countable too.
pub proof fn law_placeable_weights(c: Config)
    requires
        c.n_heads > 0,
    ensures
        layout_fits(c) <==> {
            let d = c.dim as int;
            let h = c.hidden_dim as int;
            let k = (c.dim * c.n_kv_heads) / c.n_heads as int;
            let table = c.seq_len * (c.dim as int / c.n_heads as int);
            &&& c.dim * c.n_kv_heads <= usize::MAX
            &&& c.n_layers * h <= usize::MAX
            &&& table <= usize::MAX
            &&& c.vocab_size * d + c.n_layers * (2 * d + 2 * (d * d) + 2 * (d * k) + 3 * (d * h))
                + d + 2 * (table / 2) <= usize::MAX
        },
{
    let d = c.dim as int;
    let h = c.hidden_dim as int;
    let l = c.n_layers as int;
    let k = c.spec_kv_dim();
    law_layout_is_ordered(c);
    assert(l * (2 * d + 2 * (d * d) + 2 * (d * k) + 3 * (d * h)) == 2 * (l * d) + 2 * (l * d * d)
        + 2 * (l * d * k) + 3 * (l * d * h)) by (nonlinear_arith);
    assert(l * h * d == l * d * h) by (nonlinear_arith);
    assert(0 <= c.vocab_size * d) by (nonlinear_arith)
        requires
            0 <= d,
    ;
    assert(0 <= l * d && 0 <= l * d * d && 0 <= l * d * h) by (nonlinear_arith)
        requires
            0 <= l,
            0 <= d,
            0 <= h,
    ;
    assert(0 <= l * d * k) by (nonlinear_arith)
        requires
            0 <= l * d,
            0 <= k,
    ;
    assert(0 <= c.seq_len * c.spec_head_size()) by (nonlinear_arith)
        requires
            0 <= c.spec_head_size(),
    ;
}

/// The buffers can be held where there is a head and each of them, and the products that their
/// lengths are made of, can be counted in machine words.
pub proof fn law_holdable_buffers<T>(c: Config, s: State<T>)
    requires
        c.n_heads > 0,
        s.sized(c),
    ensures
        state_fits(c) <==> {
            &&& c.dim * c.n_kv_heads <= usize::MAX
            &&& c.n_layers * c.seq_len <= usize::MAX
            &&& s.att.len() <= usize::MAX
            &&& s.key_cache.len() <= usize::MAX
        },
        s.x.len() == c.dim && s.xb.len() == c.dim && s.xb2.len() == c.dim && s.q.len() == c.dim,
        s.hb.len() == c.hidden_dim && s.hb2.len() == c.hidden_dim,
        s.logits.len() == c.vocab_size,
        s.att.len() == c.seq_len * c.n_heads,
        s.key_cache.len() == (c.dim * c.n_kv_heads) / c.n_heads as int * (c.seq_len * c.n_layers),
        s.value_cache.len() == s.key_cache.len(),
{
    let k = c.spec_kv_dim();
    let n = c.n_layers as int;
    let m = c.seq_len as int;
    assert(n * m * k == k * (m * n)) by (nonlinear_arith);
    assert(c.n_heads * c.seq_len == c.seq_len * c.n_heads) by (nonlinear_arith);
}

} // verus!
