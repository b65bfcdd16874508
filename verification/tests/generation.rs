use llama_infer::float::Float32;
use llama_infer::forward::{can_run, RunState};
use llama_infer::generate::{Generation, Step};
use llama_infer::model::{Config, Weights};
use llama_infer::options::{parse_args, parse_whole, ArgsError};
use llama_infer::sampler::Sampler;
use llama_infer::scalar::{BinaryOp, Constant, Term, UnaryOp};

fn number(x: Float32) -> f32 {
    f32::from_bits(x.bits)
}

fn float(x: f32) -> Float32 {
    Float32 { bits: x.to_bits() }
}

fn evaluate(t: Term<Float32>) -> Float32 {
    float(match t {
        Term::Constant(Constant::Zero) => 0.0,
        Term::Constant(Constant::EmptySum) => std::iter::empty::<f32>().sum(),
        Term::Constant(Constant::One) => 1.0,
        Term::Constant(Constant::NegInfinity) => f32::NEG_INFINITY,
        Term::Constant(Constant::Epsilon) => 1e-5,
        Term::Constant(Constant::RopeBase) => 10000.0,
        Term::Constant(Constant::Count(n)) => n as f32,
        Term::Unary(UnaryOp::Neg, x) => -number(x),
        Term::Unary(UnaryOp::Sqrt, x) => number(x).sqrt(),
        Term::Unary(UnaryOp::Exp, x) => number(x).exp(),
        Term::Unary(UnaryOp::Sin, x) => number(x).sin(),
        Term::Unary(UnaryOp::Cos, x) => number(x).cos(),
        Term::Binary(BinaryOp::Add, x, y) => number(x) + number(y),
        Term::Binary(BinaryOp::Sub, x, y) => number(x) - number(y),
        Term::Binary(BinaryOp::Mul, x, y) => number(x) * number(y),
        Term::Binary(BinaryOp::Div, x, y) => number(x) / number(y),
        Term::Binary(BinaryOp::Max, x, y) => number(x).max(number(y)),
        Term::Binary(BinaryOp::Pow, x, y) => number(x).powf(number(y)),
    })
}

/// A model without layers that always prefers the token after the current one, of four.
fn counting_model() -> (Config, Weights<Float32>) {
    let cfg = Config {
        dim: 4,
        hidden_dim: 1,
        n_layers: 0,
        n_heads: 1,
        n_kv_heads: 1,
        vocab_size: 4,
        seq_len: 6,
    };
    let mut data = vec![0.0f32; 16 + 4 + 24 + 16];
    for i in 0..4 {
        data[i * 4 + i] = 1.0;
        data[16 + i] = 1.0;
        data[44 + (i + 1) % 4 * 4 + i] = 1.0;
    }
    let data = data.iter().map(|x| float(*x)).collect();
    (Config { ..cfg }, Weights::place(&cfg, false, data))
}

fn arguments(words: &[&str]) -> Vec<String> {
    words.iter().map(|w| w.to_string()).collect()
}

#[test]
fn the_prompt_is_fed_and_then_the_model_goes_on() {
    let (cfg, weights) = counting_model();
    let mut state = RunState::new(&cfg, float(0.0));
    let mut sampler = Sampler::new(4, float(0.0), float(0.9), 1);
    let mut g = Generation::new(vec![3, 3], 100, cfg.seq_len);
    let mut steps = Vec::new();
    while g.is_going_on() {
        assert!(can_run(&cfg, &weights, g.current(), g.position()));
        steps.push(g.step(&evaluate, &cfg, &weights, &mut state, &mut sampler));
    }
    assert_eq!(steps, [
        Step::Token { prev: 3, next: 3 },
        Step::Token { prev: 3, next: 0 },
        Step::Token { prev: 0, next: 1 },
        Step::Stopped,
    ]);
    assert_eq!(g.position(), 4);
    assert_eq!(g.current(), 1);
}

#[test]
fn a_generation_ends_at_the_last_position() {
    let (cfg, weights) = counting_model();
    let mut state = RunState::new(&cfg, float(0.0));
    let mut sampler = Sampler::new(4, float(0.0), float(0.9), 1);
    let mut g = Generation::new(vec![3; 10], 100, cfg.seq_len);
    let mut n = 0;
    while g.is_going_on() {
        let step = g.step(&evaluate, &cfg, &weights, &mut state, &mut sampler);
        assert_eq!(step, Step::Token { prev: 3, next: 3 });
        n += 1;
    }
    assert_eq!(n, 6);
    let g = Generation::new(vec![2], 0, 6);
    assert!(!g.is_going_on());
    let g = Generation::new(vec![2], 3, 6);
    assert!(g.is_going_on());
}

#[test]
fn a_prompt_can_stop_a_text() {
    let mut g = Generation::new(vec![5, 2, 6], 9, 9);
    assert_eq!(g.advance(2), Step::Stopped);
    assert!(!g.is_going_on());
    assert_eq!(g.position(), 1);
    assert_eq!(g.current(), 5);
}

#[test]
fn only_the_mark_of_the_end_stops_a_text() {
    let mut g = Generation::new(vec![5], 9, 9);
    assert_eq!(g.advance(1), Step::Token { prev: 5, next: 1 });
    assert!(g.is_going_on());
    assert_eq!(g.advance(2), Step::Stopped);
    assert!(!g.is_going_on());
}

#[test]
fn the_prompt_leaves_the_sampler_alone() {
    let mut sampler = Sampler::new(2, float(1.0), float(1.0), 42);
    let scores = [float(0.0), float(f32::NAN)];
    let g = Generation::new(vec![1, 7], 9, 9);
    assert_eq!(g.choose_next(&evaluate, &mut sampler, &scores), Some(7));
    assert_eq!(sampler.random_u32(), 1456360119);
}

#[test]
fn scores_without_order_leave_no_choice() {
    let mut greedy = Sampler::new(2, float(0.0), float(1.0), 42);
    let g = Generation::new(vec![1], 9, 9);
    assert_eq!(g.choose_next(&evaluate, &mut greedy, &[float(0.0), float(f32::NAN)]), None);
    assert_eq!(g.choose_next(&evaluate, &mut greedy, &[float(f32::NAN)]), Some(0));
    assert_eq!(g.choose_next(&evaluate, &mut greedy, &[]), Some(0));
    let mut drawing = Sampler::new(2, float(1.0), float(1.0), 42);
    assert_eq!(g.choose_next(&evaluate, &mut drawing, &[]), None);
    assert_eq!(drawing.random_u32(), 1456360119);
    let mut strict = Sampler::new(1, float(1.0), float(0.5), 42);
    assert_eq!(g.choose_next(&evaluate, &mut strict, &[float(0.0)]), Some(0));
}

#[test]
fn a_step_without_a_choice_is_stuck() {
    let (cfg, mut weights) = counting_model();
    weights.data[0] = float(f32::NAN);
    let mut state = RunState::new(&cfg, float(0.0));
    let mut sampler = Sampler::new(4, float(0.0), float(0.9), 1);
    let mut g = Generation::new(vec![0], 9, 9);
    assert_eq!(g.step(&evaluate, &cfg, &weights, &mut state, &mut sampler), Step::Stuck);
    assert_eq!(g.position(), 0);
}

#[test]
fn two_paths_are_needed() {
    assert!(matches!(parse_args(&arguments(&[])), Err(ArgsError::Usage)));
    assert!(matches!(parse_args(&arguments(&["run", "model.bin"])), Err(ArgsError::Usage)));
    let o = parse_args(&arguments(&["run", "model.bin", "tokenizer.bin"])).ok().unwrap();
    assert_eq!(o.model, "model.bin");
    assert_eq!(o.tokenizer, "tokenizer.bin");
    assert_eq!(o.prompt, "");
    assert_eq!(o.steps, 256);
    assert_eq!(o.temperature, None);
    assert_eq!(o.topp, None);
    assert_eq!(o.seed, None);
}

#[test]
fn every_option_is_read() {
    let words = ["run", "m", "t", "-i", "Once upon", "-n", "17", "-t", "0.5", "-p", "0.8", "-s", "7"];
    let o = parse_args(&arguments(&words)).ok().unwrap();
    assert_eq!(o.prompt, "Once upon");
    assert_eq!(o.steps, 17);
    assert_eq!(o.temperature, Some("0.5".to_string()));
    assert_eq!(o.topp, Some("0.8".to_string()));
    assert_eq!(o.seed, Some(7));
}

#[test]
fn other_arguments_are_passed_over() {
    let words = ["run", "m", "t", "extra", "-x", "-n", "3", "-v"];
    let o = parse_args(&arguments(&words)).ok().unwrap();
    assert_eq!(o.steps, 3);
    assert_eq!(o.prompt, "");
}

#[test]
fn the_last_value_counts() {
    let words = ["run", "m", "t", "-n", "3", "-i", "a", "-n", "4", "-i", "-n"];
    let o = parse_args(&arguments(&words)).ok().unwrap();
    assert_eq!(o.steps, 4);
    assert_eq!(o.prompt, "-n");
}

#[test]
fn an_option_needs_a_value() {
    for flag in ["-i", "-n", "-t", "-p", "-s"].iter() {
        let words = arguments(&["run", "m", "t", flag]);
        assert!(matches!(parse_args(&words), Err(ArgsError::MissingValue)));
    }
}

#[test]
fn what_is_no_number_has_a_default() {
    let words = ["run", "m", "t", "-n", "many", "-s", "-1"];
    let o = parse_args(&arguments(&words)).ok().unwrap();
    assert_eq!(o.steps, 256);
    assert_eq!(o.seed, Some(42));
}

#[test]
fn whole_numbers_read_like_those_of_the_language() {
    let texts = [
        "0", "7", "+7", "007", "18446744073709551615", "18446744073709551616", "+", "", "-0", "-1",
        "1 ", " 1", "1e3", "1_000", "99999999999999999999999", "\u{664}", "++1",
    ];
    for text in texts.iter() {
        assert_eq!(parse_whole(text, u64::MAX), text.parse::<u64>().ok(), "{}", text);
    }
    assert_eq!(parse_whole("255", 255), Some(255));
    assert_eq!(parse_whole("256", 255), None);
}
