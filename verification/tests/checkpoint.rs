use llama_infer::bytes::{
    read_f32, read_i32, read_string, read_u32, ByteReader, LoadError,
};
use llama_infer::model::{embedding_lookup, read_config, Config, Transformer, Weights};

fn header(fields: [i32; 7]) -> Vec<u8> {
    let mut bytes = Vec::new();
    for f in fields.iter() {
        bytes.extend_from_slice(&f.to_le_bytes());
    }
    bytes
}

fn checkpoint(fields: [i32; 7], words: usize) -> Vec<u8> {
    let mut bytes = header(fields);
    for i in 0..words {
        bytes.extend_from_slice(&(i as f32).to_le_bytes());
    }
    bytes
}

fn counting(cfg: &Config, shared: bool, words: usize) -> Weights<u32> {
    Weights::place(cfg, shared, (0..words as u32).collect())
}

fn stories_config() -> Config {
    Config {
        dim: 4,
        hidden_dim: 3,
        n_layers: 2,
        n_heads: 2,
        n_kv_heads: 1,
        vocab_size: 5,
        seq_len: 6,
    }
}

#[test]
fn integers_are_little_endian() {
    let bytes = [1u8, 2, 3, 4, 0xff, 0xff, 0xff, 0xff, 0, 0, 0x80, 0x3f];
    let mut r = ByteReader::new(&bytes);
    assert_eq!(read_u32(&mut r), Ok(0x0403_0201));
    assert_eq!(read_i32(&mut r), Ok(-1));
    assert_eq!(read_f32(&mut r).unwrap().bits, 1.0f32.to_bits());
    assert_eq!(read_u32(&mut r), Err(LoadError::UnexpectedEof));
}

#[test]
fn the_lowest_integer_is_read() {
    let bytes = i32::MIN.to_le_bytes();
    assert_eq!(read_i32(&mut ByteReader::new(&bytes)), Ok(i32::MIN));
}

#[test]
fn a_short_read_takes_nothing() {
    let bytes = [7u8, 0, 0];
    let mut r = ByteReader::new(&bytes);
    assert_eq!(read_i32(&mut r), Err(LoadError::UnexpectedEof));
    assert!(matches!(read_f32(&mut r), Err(LoadError::UnexpectedEof)));
    assert_eq!(r.take(3), Ok(&bytes[..]));
    assert_eq!(r.take(0), Ok(&bytes[..0]));
    assert_eq!(r.take(1), Err(LoadError::UnexpectedEof));
}

#[test]
fn text_is_read_as_utf8() {
    let bytes = "a\u{e9}\u{20ac}z".as_bytes();
    let mut r = ByteReader::new(bytes);
    assert_eq!(read_string(&mut r, 3).unwrap(), "a\u{e9}");
    assert_eq!(read_string(&mut r, 5), Err(LoadError::UnexpectedEof));
    assert_eq!(read_string(&mut r, 4).unwrap(), "\u{20ac}z");
    assert_eq!(read_string(&mut r, 0).unwrap(), "");
}

#[test]
fn bytes_that_are_no_text_are_replaced() {
    let bytes = [b'a', 0xff, b'b', 0xe2, 0x82];
    let mut r = ByteReader::new(&bytes);
    assert_eq!(read_string(&mut r, 5).unwrap(), "a\u{fffd}b\u{fffd}");
}

#[test]
fn derived_sizes() {
    let cfg = stories_config();
    assert_eq!(cfg.head_size(), 2);
    assert_eq!(cfg.kv_dim(), 2);
    assert_eq!(Config { dim: 288, n_heads: 6, n_kv_heads: 6, ..cfg }.kv_dim(), 288);
}

#[test]
fn sizes_round_down() {
    let cfg = Config { dim: 7, n_heads: 2, n_kv_heads: 1, ..stories_config() };
    assert_eq!(cfg.head_size(), 3);
    assert_eq!(cfg.kv_dim(), 3);
}

#[test]
fn a_positive_vocabulary_shares_its_weights() {
    let (cfg, shared) = read_config(&header([4, 3, 2, 2, 1, 5, 6])).unwrap();
    assert!(shared);
    assert_eq!(cfg.dim, 4);
    assert_eq!(cfg.hidden_dim, 3);
    assert_eq!(cfg.n_layers, 2);
    assert_eq!(cfg.n_heads, 2);
    assert_eq!(cfg.n_kv_heads, 1);
    assert_eq!(cfg.vocab_size, 5);
    assert_eq!(cfg.seq_len, 6);
}

#[test]
fn a_negative_vocabulary_has_its_own_classifier() {
    let (cfg, shared) = read_config(&header([4, 3, 2, 2, 1, -5, 6])).unwrap();
    assert!(!shared);
    assert_eq!(cfg.vocab_size, 5);
    let (cfg, shared) = read_config(&header([4, 3, 2, 2, 1, i32::MIN, 6])).unwrap();
    assert!(!shared);
    assert_eq!(cfg.vocab_size, 2147483648);
    let (cfg, shared) = read_config(&header([4, 3, 2, 2, 1, 0, 6])).unwrap();
    assert!(!shared);
    assert_eq!(cfg.vocab_size, 0);
}

#[test]
fn a_short_header_is_an_error() {
    let bytes = header([4, 3, 2, 2, 1, 5, 6]);
    assert!(matches!(read_config(&bytes[..27]), Err(LoadError::UnexpectedEof)));
    assert!(matches!(Transformer::from_bytes(&bytes[..27]), Err(LoadError::UnexpectedEof)));
    assert!(Transformer::from_bytes(&bytes).is_ok());
}

#[test]
fn a_negative_size_does_not_fit() {
    let (cfg, _) = read_config(&header([-4, 3, 2, 2, 1, 5, 6])).unwrap();
    assert_eq!(cfg.dim, (-4i32) as usize);
    assert!(!cfg.fits());
    assert!(!Config { n_heads: 0, ..stories_config() }.fits());
    assert!(stories_config().fits());
}

#[test]
fn the_blocks_follow_the_file_format() {
    let t = Transformer::from_bytes(&checkpoint([4, 3, 2, 2, 1, -5, 6], 200)).unwrap();
    let w = &t.weights;
    assert_eq!(w.token_embedding_offset, 0);
    assert_eq!(w.rms_att_offset, 20);
    assert_eq!(w.wq_offset, 28);
    assert_eq!(w.wk_offset, 60);
    assert_eq!(w.wv_offset, 76);
    assert_eq!(w.wo_offset, 92);
    assert_eq!(w.rms_ffn_offset, 124);
    assert_eq!(w.w1_offset, 132);
    assert_eq!(w.w2_offset, 156);
    assert_eq!(w.w3_offset, 180);
    assert_eq!(w.rms_final_offset, 204);
    assert_eq!(w.wcls_offset, 220);
    assert!(!w.shared_weights);
    assert_eq!(w.data.len(), 200);
    assert_eq!(w.data[7].bits, 7.0f32.to_bits());
}

#[test]
fn shared_weights_point_at_the_embedding() {
    let t = Transformer::from_bytes(&checkpoint([4, 3, 2, 2, 1, 5, 6], 3)).unwrap();
    assert!(t.weights.shared_weights);
    assert_eq!(t.weights.wcls_offset, 0);
}

#[test]
fn bytes_after_the_last_whole_word_are_left_out() {
    let mut bytes = checkpoint([4, 3, 2, 2, 1, 5, 6], 2);
    bytes.extend_from_slice(&[1, 2, 3]);
    let t = Transformer::from_bytes(&bytes).unwrap();
    assert_eq!(t.weights.data.len(), 2);
    assert_eq!(t.weights.data[1].bits, 1.0f32.to_bits());
}

#[test]
fn matrices_are_slices_of_their_blocks() {
    let cfg = stories_config();
    let w = counting(&cfg, false, 240);
    assert_eq!(w.token_embedding(4, 5), (0..20).collect::<Vec<u32>>());
    assert_eq!(w.rms_att_weight(1, 4), [24, 25, 26, 27]);
    assert_eq!(w.wq(1, 4), (44..60).collect::<Vec<u32>>());
    assert_eq!(w.wk(1, 4, 2), (68..76).collect::<Vec<u32>>());
    assert_eq!(w.wv(0, 4, 2), (76..84).collect::<Vec<u32>>());
    assert_eq!(w.wo(1, 4), (108..124).collect::<Vec<u32>>());
    assert_eq!(w.rms_ffn_weight(0, 4), [124, 125, 126, 127]);
    assert_eq!(w.w1(1, 4, 3), (144..156).collect::<Vec<u32>>());
    assert_eq!(w.w2(0, 3, 4), (156..168).collect::<Vec<u32>>());
    assert_eq!(w.w3(1, 4, 3), (192..204).collect::<Vec<u32>>());
    assert_eq!(w.rms_final_weight(4), [204, 205, 206, 207]);
    assert_eq!(w.wcls(4, 5), (220..240).collect::<Vec<u32>>());
    assert_eq!(counting(&cfg, true, 240).wcls(4, 5), (0..20).collect::<Vec<u32>>());
}

#[test]
fn a_token_selects_its_row() {
    let w = counting(&stories_config(), true, 20);
    assert_eq!(embedding_lookup(&w, 0, 4), [0, 1, 2, 3]);
    assert_eq!(embedding_lookup(&w, 3, 4), [12, 13, 14, 15]);
}
