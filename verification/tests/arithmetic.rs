use llama_infer::float::Float32;
use llama_infer::math::{accum, copy_into, matmul, rmsnorm, softmax};
use llama_infer::scalar::{dot, fold, BinaryOp, Constant, Term, UnaryOp};

fn unit(t: Term<f32>) -> f32 {
    match t {
        Term::Constant(Constant::Zero) => 0.0,
        Term::Constant(Constant::EmptySum) => std::iter::empty::<f32>().sum(),
        Term::Constant(Constant::One) => 1.0,
        Term::Constant(Constant::NegInfinity) => f32::NEG_INFINITY,
        Term::Constant(Constant::Epsilon) => 1e-5,
        Term::Constant(Constant::RopeBase) => 10000.0,
        Term::Constant(Constant::Count(n)) => n as f32,
        Term::Unary(UnaryOp::Neg, x) => -x,
        Term::Unary(UnaryOp::Sqrt, x) => x.sqrt(),
        Term::Unary(UnaryOp::Exp, x) => x.exp(),
        Term::Unary(UnaryOp::Sin, x) => x.sin(),
        Term::Unary(UnaryOp::Cos, x) => x.cos(),
        Term::Binary(BinaryOp::Add, x, y) => x + y,
        Term::Binary(BinaryOp::Sub, x, y) => x - y,
        Term::Binary(BinaryOp::Mul, x, y) => x * y,
        Term::Binary(BinaryOp::Div, x, y) => x / y,
        Term::Binary(BinaryOp::Max, x, y) => x.max(y),
        Term::Binary(BinaryOp::Pow, x, y) => x.powf(y),
    }
}

fn bits(x: f32) -> Float32 {
    Float32 { bits: x.to_bits() }
}

#[test]
fn inner_product_adds_from_the_left() {
    assert_eq!(dot(&unit, Constant::Zero, &[1.0, 2.0, 3.0], &[4.0, 5.0, 6.0]), 32.0);
    let big = 16777216.0f32;
    assert_eq!(dot(&unit, Constant::Zero, &[big, 1.0, 1.0], &[1.0, 1.0, 1.0]), big);
}

#[test]
fn inner_product_stops_at_the_shorter() {
    assert_eq!(dot(&unit, Constant::Zero, &[1.0, 2.0, 3.0], &[10.0]), 10.0);
    assert_eq!(dot(&unit, Constant::One, &[], &[10.0]), 1.0);
}

#[test]
fn fold_of_maximum() {
    assert_eq!(fold(&unit, BinaryOp::Max, Constant::NegInfinity, &[1.0, 7.0, -2.0]), 7.0);
    assert_eq!(fold(&unit, BinaryOp::Max, Constant::NegInfinity, &[]), f32::NEG_INFINITY);
}

#[test]
fn rmsnorm_scales_by_root_mean_square() {
    let x = [3.0f32, 4.0];
    let mut out = [0.0f32; 2];
    rmsnorm(&unit, &mut out, &x, &[1.0, 2.0]);
    let s = 1.0f32 / (25.0f32 / 2.0 + 1e-5f32).sqrt();
    assert_eq!(out, [1.0 * (s * 3.0), 2.0 * (s * 4.0)]);
}

#[test]
fn rmsnorm_leaves_what_lies_past_the_input() {
    let mut out = [9.0f32; 3];
    rmsnorm(&unit, &mut out, &[0.0], &[5.0]);
    assert_eq!(out, [0.0, 9.0, 9.0]);
}

#[test]
fn softmax_of_equal_scores_is_even() {
    let mut x = [2.0f32; 4];
    softmax(&unit, &mut x);
    assert_eq!(x, [0.25; 4]);
}

#[test]
fn softmax_keeps_large_scores_finite() {
    let mut x = [1000.0f32, 0.0];
    softmax(&unit, &mut x);
    assert_eq!(x, [1.0, 0.0]);
}

#[test]
fn softmax_ignores_a_shift() {
    let mut x = [0.0f32, 1.0];
    let mut y = [1000.0f32, 1001.0];
    softmax(&unit, &mut x);
    softmax(&unit, &mut y);
    assert_eq!(x, y);
    let below = (-1.0f32).exp();
    assert_eq!(x, [below / (0.0 + below + 1.0), 1.0 / (0.0 + below + 1.0)]);
}

#[test]
fn softmax_of_nothing() {
    let mut x: [f32; 0] = [];
    softmax(&unit, &mut x);
    assert_eq!(x.len(), 0);
}

#[test]
fn matmul_multiplies_rows() {
    let mut out = [0.0f32; 3];
    out[2] = 7.0;
    matmul(&unit, &mut out, &[5.0, 6.0], &[1.0, 2.0, 3.0, 4.0], 2, 2);
    assert_eq!(out, [17.0, 39.0, 7.0]);
}

#[test]
fn accum_adds_in_place() {
    let mut a = [1.0f32, 2.0, 3.0];
    accum(&unit, &mut a, &[10.0, 20.0]);
    assert_eq!(a, [11.0, 22.0, 3.0]);
}

#[test]
fn copy_into_replaces_everything() {
    let mut a = [0.0f32; 2];
    copy_into(&mut a, &[1.0, 2.0]);
    assert_eq!(a, [1.0, 2.0]);
}

#[test]
fn bit_patterns_compare_like_the_numbers() {
    let xs = [
        f32::NEG_INFINITY,
        -2.5,
        -1.0,
        -f32::MIN_POSITIVE,
        -1e-45,
        -0.0,
        0.0,
        1e-45,
        f32::MIN_POSITIVE,
        0.5,
        1.0,
        3.0e38,
        f32::INFINITY,
        f32::NAN,
        -f32::NAN,
    ];
    for &x in xs.iter() {
        assert_eq!(bits(x).is_nan(), x.is_nan());
        for &y in xs.iter() {
            assert_eq!(bits(x).less(bits(y)), x < y, "{} < {}", x, y);
            assert_eq!(bits(x).at_most(bits(y)), x <= y, "{} <= {}", x, y);
            assert_eq!(bits(x).equals(bits(y)), x == y, "{} == {}", x, y);
        }
    }
}
