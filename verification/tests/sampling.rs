use llama_infer::float::Float32;
use llama_infer::sampler::{sample_argmax, sample_mult, sample_topp, Sampler};
use llama_infer::scalar::{BinaryOp, Constant, Term, UnaryOp};

fn value(x: Float32) -> f32 {
    f32::from_bits(x.bits)
}

fn pattern(x: f32) -> Float32 {
    Float32 { bits: x.to_bits() }
}

fn patterns(xs: &[f32]) -> Vec<Float32> {
    xs.iter().map(|x| pattern(*x)).collect()
}

fn calculator(t: Term<Float32>) -> Float32 {
    pattern(match t {
        Term::Constant(Constant::Zero) => 0.0,
        Term::Constant(Constant::EmptySum) => std::iter::empty::<f32>().sum(),
        Term::Constant(Constant::One) => 1.0,
        Term::Constant(Constant::NegInfinity) => f32::NEG_INFINITY,
        Term::Constant(Constant::Epsilon) => 1e-5,
        Term::Constant(Constant::RopeBase) => 10000.0,
        Term::Constant(Constant::Count(n)) => n as f32,
        Term::Unary(UnaryOp::Neg, x) => -value(x),
        Term::Unary(UnaryOp::Sqrt, x) => value(x).sqrt(),
        Term::Unary(UnaryOp::Exp, x) => value(x).exp(),
        Term::Unary(UnaryOp::Sin, x) => value(x).sin(),
        Term::Unary(UnaryOp::Cos, x) => value(x).cos(),
        Term::Binary(BinaryOp::Add, x, y) => value(x) + value(y),
        Term::Binary(BinaryOp::Sub, x, y) => value(x) - value(y),
        Term::Binary(BinaryOp::Mul, x, y) => value(x) * value(y),
        Term::Binary(BinaryOp::Div, x, y) => value(x) / value(y),
        Term::Binary(BinaryOp::Max, x, y) => value(x).max(value(y)),
        Term::Binary(BinaryOp::Pow, x, y) => value(x).powf(value(y)),
    })
}

fn sampler(temperature: f32, topp: f32) -> Sampler {
    Sampler::new(4, pattern(temperature), pattern(topp), 42)
}

#[test]
fn the_generator_is_reproducible() {
    let mut s = sampler(1.0, 0.9);
    assert_eq!(s.random_u32(), 1456360119);
    assert_eq!(s.random_u32(), 3359763283);
    assert_eq!(s.random_u32(), 3393612768);
    assert_eq!(s.random_u32(), 4054632243);
}

#[test]
fn a_zero_state_stays_zero() {
    let mut s = Sampler::new(4, pattern(1.0), pattern(0.9), 0);
    assert_eq!(s.random_u32(), 0);
    assert_eq!(s.random_u32(), 0);
}

#[test]
fn a_coin_is_a_fraction() {
    let mut s = sampler(1.0, 0.9);
    let coin = value(s.random_f32(&calculator));
    assert_eq!(coin, (1456360119u32 >> 8) as f32 / 16777216.0);
    for _ in 0..100 {
        let coin = value(s.random_f32(&calculator));
        assert!(0.0 <= coin && coin < 1.0);
    }
}

#[test]
fn the_last_of_the_largest_is_taken() {
    assert_eq!(sample_argmax(&patterns(&[0.1, 0.7, 0.2])), 1);
    assert_eq!(sample_argmax(&patterns(&[0.7, 0.1, 0.7, 0.2])), 2);
    assert_eq!(sample_argmax(&patterns(&[0.0, -0.0])), 1);
    assert_eq!(sample_argmax(&patterns(&[-3.0, -1.0, -2.0])), 1);
    assert_eq!(sample_argmax(&[]), 0);
    assert_eq!(sample_argmax(&patterns(&[f32::NAN])), 0);
}

#[test]
fn the_coin_walks_the_distribution() {
    let probs = patterns(&[0.25, 0.25, 0.5]);
    assert_eq!(sample_mult(&calculator, &probs, pattern(0.0)), 0);
    assert_eq!(sample_mult(&calculator, &probs, pattern(0.25)), 1);
    assert_eq!(sample_mult(&calculator, &probs, pattern(0.49)), 1);
    assert_eq!(sample_mult(&calculator, &probs, pattern(0.5)), 2);
    assert_eq!(sample_mult(&calculator, &probs, pattern(1.0)), 2);
    assert_eq!(sample_mult(&calculator, &probs, pattern(f32::NAN)), 2);
}

#[test]
fn top_p_draws_from_the_likeliest() {
    let probs = patterns(&[0.125, 0.5, 0.125, 0.25]);
    assert_eq!(sample_topp(&calculator, &probs, pattern(0.7), pattern(0.0)), 1);
    assert_eq!(sample_topp(&calculator, &probs, pattern(0.7), pattern(0.5)), 1);
    assert_eq!(sample_topp(&calculator, &probs, pattern(0.7), pattern(0.7)), 3);
    assert_eq!(sample_topp(&calculator, &probs, pattern(0.7), pattern(1.0)), 3);
}

#[test]
fn equals_keep_their_order() {
    let probs = patterns(&[0.25, 0.25, 0.25, 0.25]);
    assert_eq!(sample_topp(&calculator, &probs, pattern(0.6), pattern(0.0)), 0);
    assert_eq!(sample_topp(&calculator, &probs, pattern(0.6), pattern(0.5)), 1);
    assert_eq!(sample_topp(&calculator, &probs, pattern(0.6), pattern(0.9)), 2);
}

#[test]
fn unlikely_tokens_are_never_drawn() {
    let probs = patterns(&[0.9, 0.05, 0.05]);
    assert_eq!(sample_topp(&calculator, &probs, pattern(0.5), pattern(0.99)), 0);
}

#[test]
fn the_likeliest_is_drawn_where_no_token_reaches_the_cutoff() {
    let probs = patterns(&[0.375, 0.625]);
    assert_eq!(sample_topp(&calculator, &probs, pattern(0.25), pattern(0.5)), 1);
    let equal = patterns(&[0.5, 0.5]);
    assert_eq!(sample_topp(&calculator, &equal, pattern(0.25), pattern(0.99)), 0);
    assert_eq!(sample_topp(&calculator, &patterns(&[1.0]), pattern(0.5), pattern(0.0)), 0);
    let nan = patterns(&[f32::NAN, f32::NAN]);
    assert_eq!(sample_topp(&calculator, &nan, pattern(0.5), pattern(0.0)), 0);
}

#[test]
fn zero_temperature_takes_the_best_and_draws_nothing() {
    let mut s = sampler(0.0, 0.9);
    let mut logits = patterns(&[1.0, 5.0, 2.0, 5.0]);
    assert!(s.is_greedy());
    assert_eq!(s.sample(&calculator, &mut logits), 3);
    assert_eq!(logits.iter().map(|x| value(*x)).collect::<Vec<f32>>(), [1.0, 5.0, 2.0, 5.0]);
    assert_eq!(s.random_u32(), 1456360119);
    assert!(sampler(-0.0, 0.9).is_greedy());
    assert!(!sampler(0.5, 0.9).is_greedy());
    assert!(!sampler(f32::NAN, 0.9).is_greedy());
}

#[test]
fn sampling_turns_scores_into_probabilities() {
    let mut s = sampler(2.0, 1.0);
    let mut logits = patterns(&[3.0, 3.0, 3.0, 3.0]);
    assert_eq!(s.sample(&calculator, &mut logits), 1);
    assert_eq!(logits.iter().map(|x| value(*x)).collect::<Vec<f32>>(), [0.25; 4]);
    assert_eq!(s.random_u32(), 3359763283);
}

#[test]
fn temperature_divides_the_scores() {
    let mut s = sampler(0.5, 0.0);
    let mut logits = patterns(&[0.0, 1.0]);
    s.sample(&calculator, &mut logits);
    let e = (0.0f32 / 0.5 - 1.0 / 0.5).exp();
    let sum = 0.0 + e + 1.0;
    assert_eq!(value(logits[0]), e / sum);
    assert_eq!(value(logits[1]), 1.0 / sum);
}

#[test]
fn sampling_with_top_p() {
    let mut s = sampler(1.0, 0.6);
    let mut logits = patterns(&[3.0, 3.0, 3.0, 3.0]);
    assert_eq!(s.sample(&calculator, &mut logits), 1);
    let mut one = patterns(&[3.0]);
    assert_eq!(s.sample(&calculator, &mut one), 0);
}

#[test]
fn the_same_seed_gives_the_same_draws() {
    let mut a = sampler(0.8, 0.9);
    let mut b = Sampler::new(99, pattern(0.8), pattern(0.9), 42);
    for i in 0..50 {
        let mut x = patterns(&[0.1 * i as f32, 1.0, 2.0, 0.5]);
        let mut y = x.clone();
        assert_eq!(a.sample(&calculator, &mut x), b.sample(&calculator, &mut y));
    }
}
