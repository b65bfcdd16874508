use llama_infer::forward::{can_cover, can_hold, can_run, can_run_layers, forward, RunState};
use llama_infer::model::{Config, Weights};
use llama_infer::scalar::{BinaryOp, Constant, Term, UnaryOp};

fn answer(t: Term<f32>) -> f32 {
    match t {
        Term::Constant(Constant::Zero) => 0.0,
        Term::Constant(Constant::EmptySum) => std::iter::empty::<f32>().sum(),
        Term::Constant(Constant::One) => 1.0,
        Term::Constant(Constant::NegInfinity) => f32::NEG_INFINITY,
        Term::Constant(Constant::Epsilon) => 1e-5,
        Term::Constant(Constant::RopeBase) => 10000.0,
        Term::Constant(Constant::Count(n)) => n as f32,
        Term::Unary(UnaryOp::Neg, x) => -x,
        Term::Unary(UnaryOp::Sqrt, x) => x.sqrt(),
        Term::Unary(UnaryOp::Exp, x) => x.exp(),
        Term::Unary(UnaryOp::Sin, x) => x.sin(),
        Term::Unary(UnaryOp::Cos, x) => x.cos(),
        Term::Binary(BinaryOp::Add, x, y) => x + y,
        Term::Binary(BinaryOp::Sub, x, y) => x - y,
        Term::Binary(BinaryOp::Mul, x, y) => x * y,
        Term::Binary(BinaryOp::Div, x, y) => x / y,
        Term::Binary(BinaryOp::Max, x, y) => x.max(y),
        Term::Binary(BinaryOp::Pow, x, y) => x.powf(y),
    }
}

fn small_config() -> Config {
    Config {
        dim: 8,
        hidden_dim: 6,
        n_layers: 2,
        n_heads: 4,
        n_kv_heads: 2,
        vocab_size: 5,
        seq_len: 4,
    }
}

fn small_weights(cfg: &Config, shared: bool) -> Weights<f32> {
    let len = 5 * 8 + 2 * 8 + 2 * 64 + 2 * 32 + 2 * 32 + 2 * 64 + 2 * 8 + 3 * 2 * 48 + 8 + 4 + 4
        + 5 * 8;
    let mut seed = 12345u32;
    let mut data = Vec::new();
    for _ in 0..len {
        seed = seed.wrapping_mul(1664525).wrapping_add(1013904223);
        data.push((seed >> 8) as f32 / 16777216.0 - 0.5);
    }
    Weights::place(cfg, shared, data)
}

struct Plain {
    keys: Vec<Vec<Vec<f32>>>,
    values: Vec<Vec<Vec<f32>>>,
}

fn plain_norm(x: &[f32], w: &[f32]) -> Vec<f32> {
    let mut ss: f32 = x.iter().map(|v| v * v).sum();
    ss /= x.len() as f32;
    ss += 1e-5;
    ss = 1.0 / ss.sqrt();
    x.iter().zip(w).map(|(v, w)| w * (ss * v)).collect()
}

fn plain_product(w: &[f32], x: &[f32], rows: usize) -> Vec<f32> {
    (0..rows)
        .map(|i| w[i * x.len()..(i + 1) * x.len()].iter().zip(x).map(|(a, b)| a * b).sum())
        .collect()
}

fn plain_rotate(v: &mut [f32], pos: usize, head_size: usize) {
    for i in (0..v.len()).step_by(2) {
        let freq = 1.0f32 / 10000f32.powf((i % head_size) as f32 / head_size as f32);
        let angle = pos as f32 * freq;
        let (c, s) = (angle.cos(), angle.sin());
        let (a, b) = (v[i], v[i + 1]);
        v[i] = a * c - b * s;
        v[i + 1] = a * s + b * c;
    }
}

fn plain_softmax(x: &mut [f32]) {
    let max = x.iter().cloned().fold(f32::NEG_INFINITY, f32::max);
    let mut sum = 0.0;
    for v in x.iter_mut() {
        *v = (*v - max).exp();
        sum += *v;
    }
    for v in x.iter_mut() {
        *v /= sum;
    }
}

/// The same network with one vector per key and value.
fn plain_pass(c: &Config, w: &Weights<f32>, p: &mut Plain, token: usize, pos: usize) -> Vec<f32> {
    let (d, h, kvd, hs) = (c.dim, c.hidden_dim, c.kv_dim(), c.head_size());
    let mut x = w.token_embedding(d, c.vocab_size)[token * d..(token + 1) * d].to_vec();
    for l in 0..c.n_layers {
        let xb = plain_norm(&x, w.rms_att_weight(l, d));
        let mut q = plain_product(w.wq(l, d), &xb, d);
        let mut k = plain_product(w.wk(l, d, kvd), &xb, kvd);
        let v = plain_product(w.wv(l, d, kvd), &xb, kvd);
        plain_rotate(&mut q, pos, hs);
        plain_rotate(&mut k, pos, hs);
        p.keys[l].push(k);
        p.values[l].push(v);
        let mut heads = vec![0.0f32; d];
        for head in 0..c.n_heads {
            let own = head * hs..(head + 1) * hs;
            let kv = head / (c.n_heads / c.n_kv_heads) * hs;
            let mut att: Vec<f32> = p.keys[l]
                .iter()
                .map(|k| {
                    let dot: f32 = q[own.clone()].iter().zip(&k[kv..kv + hs]).map(|(a, b)| a * b).sum();
                    dot / (hs as f32).sqrt()
                })
                .collect();
            plain_softmax(&mut att);
            for (a, v) in att.iter().zip(&p.values[l]) {
                for i in 0..hs {
                    heads[head * hs + i] += a * v[kv + i];
                }
            }
        }
        for (x, y) in x.iter_mut().zip(plain_product(w.wo(l, d), &heads, d)) {
            *x += y;
        }
        let xb = plain_norm(&x, w.rms_ffn_weight(l, d));
        let up = plain_product(w.w3(l, d, h), &xb, h);
        let gate: Vec<f32> = plain_product(w.w1(l, d, h), &xb, h)
            .iter()
            .zip(&up)
            .map(|(v, u)| v * (1.0 / (1.0 + (-v).exp())) * u)
            .collect();
        for (x, y) in x.iter_mut().zip(plain_product(w.w2(l, h, d), &gate, d)) {
            *x += y;
        }
    }
    let x = plain_norm(&x, w.rms_final_weight(d));
    plain_product(w.wcls(d, c.vocab_size), &x, c.vocab_size)
}

fn check_against_plain(shared: bool) {
    let cfg = small_config();
    let w = small_weights(&cfg, shared);
    let mut state = RunState::new(&cfg, 0.0f32);
    let mut plain = Plain { keys: vec![vec![]; 2], values: vec![vec![]; 2] };
    for (pos, token) in [3u32, 0, 4, 1].iter().enumerate() {
        assert!(can_run(&cfg, &w, *token, pos));
        let logits = forward(&answer, &cfg, &w, &mut state, *token, pos).to_vec();
        let expected = plain_pass(&cfg, &w, &mut plain, *token as usize, pos);
        assert_eq!(logits, expected);
        assert_eq!(state.logits, expected);
    }
}

#[test]
fn forward_with_its_own_classifier() {
    check_against_plain(false);
}

#[test]
fn forward_with_the_embedding_as_classifier() {
    check_against_plain(true);
}

#[test]
fn run_state_has_the_configured_lengths() {
    let cfg = small_config();
    let s = RunState::new(&cfg, 0.5f32);
    assert_eq!(s.x, vec![0.5; 8]);
    assert_eq!(s.xb, vec![0.5; 8]);
    assert_eq!(s.xb2, vec![0.5; 8]);
    assert_eq!(s.hb, vec![0.5; 6]);
    assert_eq!(s.hb2, vec![0.5; 6]);
    assert_eq!(s.q, vec![0.5; 8]);
    assert_eq!(s.att, vec![0.5; 16]);
    assert_eq!(s.logits, vec![0.5; 5]);
    assert_eq!(s.key_cache, vec![0.5; 32]);
    assert_eq!(s.value_cache, vec![0.5; 32]);
}

#[test]
fn a_pass_keeps_other_positions() {
    let cfg = small_config();
    let w = small_weights(&cfg, true);
    let mut state = RunState::new(&cfg, 0.0f32);
    for (i, v) in state.key_cache.iter_mut().enumerate() {
        *v = i as f32;
    }
    for (i, v) in state.value_cache.iter_mut().enumerate() {
        *v = -(i as f32);
    }
    forward(&answer, &cfg, &w, &mut state, 2, 1);
    for i in 0..32 {
        let own = i % 16 / 4 == 1;
        assert_eq!(state.key_cache[i] == i as f32, !own);
        assert_eq!(state.value_cache[i] == -(i as f32), !own);
    }
}

#[test]
fn scores_depend_on_the_past_alone() {
    let cfg = small_config();
    let w = small_weights(&cfg, true);
    let mut a = RunState::new(&cfg, 0.0f32);
    let mut b = RunState::new(&cfg, 7.0f32);
    forward(&answer, &cfg, &w, &mut a, 1, 0);
    forward(&answer, &cfg, &w, &mut b, 1, 0);
    let x = forward(&answer, &cfg, &w, &mut a, 2, 1).to_vec();
    let y = forward(&answer, &cfg, &w, &mut b, 2, 1).to_vec();
    assert_eq!(x, y);
}

#[test]
fn scores_depend_on_the_past() {
    let cfg = small_config();
    let w = small_weights(&cfg, true);
    let mut a = RunState::new(&cfg, 0.0f32);
    let mut b = RunState::new(&cfg, 0.0f32);
    forward(&answer, &cfg, &w, &mut a, 1, 0);
    forward(&answer, &cfg, &w, &mut b, 4, 0);
    let x = forward(&answer, &cfg, &w, &mut a, 2, 1).to_vec();
    let y = forward(&answer, &cfg, &w, &mut b, 2, 1).to_vec();
    assert_ne!(x, y);
}

#[test]
fn a_model_without_layers_only_classifies() {
    let cfg = Config {
        dim: 2,
        hidden_dim: 1,
        n_layers: 0,
        n_heads: 1,
        n_kv_heads: 1,
        vocab_size: 2,
        seq_len: 1,
    };
    let w = Weights::place(&cfg, true, vec![3.0f32, 4.0, 1.0, 0.0, 1.0, 1.0]);
    let mut state = RunState::new(&cfg, 0.0f32);
    assert!(can_run(&cfg, &w, 0, 0));
    let s = 1.0f32 / (25.0f32 / 2.0 + 1e-5f32).sqrt();
    let x = [1.0 * (s * 3.0), 1.0 * (s * 4.0)];
    let logits = forward(&answer, &cfg, &w, &mut state, 0, 0);
    assert_eq!(logits, [3.0 * x[0] + 4.0 * x[1], 1.0 * x[0] + 0.0 * x[1]]);
}

#[test]
fn what_can_run() {
    let cfg = small_config();
    let mut w = small_weights(&cfg, false);
    assert!(can_hold(&cfg));
    assert!(can_cover(&cfg, &w));
    assert!(can_run_layers(&cfg, 3));
    assert!(!can_run_layers(&cfg, 4));
    assert!(can_run(&cfg, &w, 4, 3));
    assert!(!can_run(&cfg, &w, 1000, 3));
    w.data.pop();
    assert!(!can_cover(&cfg, &w));
    assert!(!can_run(&cfg, &w, 0, 0));
}

#[test]
fn odd_shapes_cannot_run() {
    let cfg = small_config();
    assert!(!can_run_layers(&Config { dim: 7, ..small_config() }, 0));
    assert!(!can_run_layers(&Config { n_kv_heads: 0, ..small_config() }, 0));
    assert!(!can_run_layers(&Config { n_kv_heads: 5, ..small_config() }, 0));
    assert!(!can_run_layers(&Config { dim: 2, ..small_config() }, 0));
    assert!(!can_hold(&Config { n_heads: 0, ..small_config() }));
    assert!(!can_hold(&Config { seq_len: usize::MAX, ..cfg }));
}

#[test]
fn an_odd_key_needs_a_position_after_it() {
    let cfg = Config {
        dim: 2,
        hidden_dim: 1,
        n_layers: 1,
        n_heads: 2,
        n_kv_heads: 1,
        vocab_size: 1,
        seq_len: 3,
    };
    assert!(can_run_layers(&cfg, 1));
    assert!(!can_run_layers(&cfg, 2));
}
