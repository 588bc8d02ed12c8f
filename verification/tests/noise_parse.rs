use noise::NoiseFn;
use valence_terrain::NoiseBuilder;
use valence_terrain::ParseError;

/// Structural equality of two expression trees.
fn trees_equal(a: &NoiseBuilder, b: &NoiseBuilder) -> bool {
    match (a, b) {
        (NoiseBuilder::Constant(x), NoiseBuilder::Constant(y)) => x == y,
        (NoiseBuilder::Abs(x), NoiseBuilder::Abs(y)) => trees_equal(x, y),
        (NoiseBuilder::Neg(x), NoiseBuilder::Neg(y)) => trees_equal(x, y),
        (NoiseBuilder::Min(x1, x2), NoiseBuilder::Min(y1, y2)) => {
            trees_equal(x1, y1) && trees_equal(x2, y2)
        }
        (NoiseBuilder::Max(x1, x2), NoiseBuilder::Max(y1, y2)) => {
            trees_equal(x1, y1) && trees_equal(x2, y2)
        }
        (NoiseBuilder::Add(x1, x2), NoiseBuilder::Add(y1, y2)) => {
            trees_equal(x1, y1) && trees_equal(x2, y2)
        }
        (NoiseBuilder::Mul(x1, x2), NoiseBuilder::Mul(y1, y2)) => {
            trees_equal(x1, y1) && trees_equal(x2, y2)
        }
        (NoiseBuilder::Pow(x1, x2), NoiseBuilder::Pow(y1, y2)) => {
            trees_equal(x1, y1) && trees_equal(x2, y2)
        }
        (NoiseBuilder::PowI(i, x), NoiseBuilder::PowI(j, y)) => i == j && trees_equal(x, y),
        (NoiseBuilder::ScaleInput(a1, a2, x), NoiseBuilder::ScaleInput(b1, b2, y)) => {
            a1 == b1 && a2 == b2 && trees_equal(x, y)
        }
        (NoiseBuilder::Clamp(a1, a2, x), NoiseBuilder::Clamp(b1, b2, y)) => {
            a1 == b1 && a2 == b2 && trees_equal(x, y)
        }
        (NoiseBuilder::Checkerboard, NoiseBuilder::Checkerboard) => true,
        (NoiseBuilder::Perlin(i), NoiseBuilder::Perlin(j)) => i == j,
        (NoiseBuilder::Simplex(i), NoiseBuilder::Simplex(j)) => i == j,
        _ => false,
    }
}

/// Turn a tree into a runnable noise function, the way a host does.
fn compile(tree: &NoiseBuilder) -> Box<dyn NoiseFn<f64, 2>> {
    match tree {
        NoiseBuilder::Constant(t) => Box::new(noise::Constant::new(t.parse::<f64>().unwrap())),
        NoiseBuilder::Abs(a) => Box::new(noise::Abs::new(compile(a))),
        NoiseBuilder::Neg(a) => Box::new(noise::Negate::new(compile(a))),
        NoiseBuilder::Min(a, b) => Box::new(noise::Min::new(compile(a), compile(b))),
        NoiseBuilder::Max(a, b) => Box::new(noise::Max::new(compile(a), compile(b))),
        NoiseBuilder::Add(a, b) => Box::new(noise::Add::new(compile(a), compile(b))),
        NoiseBuilder::Mul(a, b) => Box::new(noise::Multiply::new(compile(a), compile(b))),
        NoiseBuilder::Pow(a, b) => Box::new(noise::Power::new(compile(a), compile(b))),
        NoiseBuilder::PowI(i, a) => {
            let inner = compile(a);
            let i = *i;
            Box::new(PowI(inner, i))
        }
        NoiseBuilder::ScaleInput(x, y, a) => Box::new(
            noise::ScalePoint::new(compile(a))
                .set_x_scale(x.parse::<f64>().unwrap())
                .set_y_scale(y.parse::<f64>().unwrap()),
        ),
        NoiseBuilder::Clamp(lo, hi, a) => Box::new(
            noise::Clamp::new(compile(a))
                .set_bounds(lo.parse::<f64>().unwrap(), hi.parse::<f64>().unwrap()),
        ),
        NoiseBuilder::Checkerboard => Box::new(noise::Checkerboard::new(0)),
        NoiseBuilder::Perlin(seed) => Box::new(noise::Perlin::new(*seed)),
        NoiseBuilder::Simplex(seed) => Box::new(noise::Simplex::new(*seed)),
    }
}

struct PowI(Box<dyn NoiseFn<f64, 2>>, i32);

impl NoiseFn<f64, 2> for PowI {
    fn get(&self, point: [f64; 2]) -> f64 {
        self.0.get(point).powi(self.1)
    }
}

#[test]
fn parse_constant_tree() {
    let t = NoiseBuilder::parse("c 64").unwrap();
    assert!(trees_equal(&t, &NoiseBuilder::Constant("64".to_owned())));
}

#[test]
fn parse_matches_hand_built_tree() {
    let t = NoiseBuilder::parse("add c 1.5 mul c 2 checkerboard").unwrap();
    let hand = NoiseBuilder::Add(
        Box::new(NoiseBuilder::Constant("1.5".to_owned())),
        Box::new(NoiseBuilder::Mul(
            Box::new(NoiseBuilder::Constant("2".to_owned())),
            Box::new(NoiseBuilder::Checkerboard),
        )),
    );
    assert!(trees_equal(&t, &hand));
}

#[test]
fn parse_then_evaluate_matches_hand_built_evaluation() {
    let src = "max c 3 add powi 2 perlin 7 scalein 0.5 0.5 simplex 9";
    let parsed = NoiseBuilder::parse(src).unwrap();
    let hand = NoiseBuilder::Max(
        Box::new(NoiseBuilder::Constant("3".to_owned())),
        Box::new(NoiseBuilder::Add(
            Box::new(NoiseBuilder::PowI(2, Box::new(NoiseBuilder::Perlin(7)))),
            Box::new(NoiseBuilder::ScaleInput(
                "0.5".to_owned(),
                "0.5".to_owned(),
                Box::new(NoiseBuilder::Simplex(9)),
            )),
        )),
    );
    assert!(trees_equal(&parsed, &hand));
    let f = compile(&parsed);
    let g = compile(&hand);
    for &(x, z) in &[(0.0, 0.0), (1.25, -3.5), (100.0, 42.0), (-7.125, 0.875)] {
        assert_eq!(f.get([x, z]), g.get([x, z]));
    }
}

#[test]
fn parse_all_operators() {
    let src = "clamp 0 100 min neg abs c 5 pow c 2 c 3";
    let t = NoiseBuilder::parse(src).unwrap();
    let hand = NoiseBuilder::Clamp(
        "0".to_owned(),
        "100".to_owned(),
        Box::new(NoiseBuilder::Min(
            Box::new(NoiseBuilder::Neg(Box::new(NoiseBuilder::Abs(Box::new(
                NoiseBuilder::Constant("5".to_owned()),
            ))))),
            Box::new(NoiseBuilder::Pow(
                Box::new(NoiseBuilder::Constant("2".to_owned())),
                Box::new(NoiseBuilder::Constant("3".to_owned())),
            )),
        )),
    );
    assert!(trees_equal(&t, &hand));
}

#[test]
fn parse_tolerates_any_whitespace() {
    let t = NoiseBuilder::parse("  add\n c 1\t c 2 ").unwrap();
    let hand = NoiseBuilder::Add(
        Box::new(NoiseBuilder::Constant("1".to_owned())),
        Box::new(NoiseBuilder::Constant("2".to_owned())),
    );
    assert!(trees_equal(&t, &hand));
}

#[test]
fn parse_rejects_unknown_token() {
    match NoiseBuilder::parse("frobnicate") {
        Err(ParseError::InvalidToken(t)) => assert_eq!(t, "frobnicate"),
        other => panic!("expected an invalid-token error, got {:?}", result_kind(&other)),
    }
}

#[test]
fn parse_rejects_truncated_input() {
    assert!(matches!(
        NoiseBuilder::parse("add c 1"),
        Err(ParseError::NotEnoughTokens)
    ));
    assert!(matches!(
        NoiseBuilder::parse(""),
        Err(ParseError::NotEnoughTokens)
    ));
    assert!(matches!(
        NoiseBuilder::parse("c"),
        Err(ParseError::ExpectedNumber)
    ));
}

#[test]
fn parse_rejects_bad_numeric_literal() {
    match NoiseBuilder::parse("c xyz") {
        Err(ParseError::BadNumber(t)) => assert_eq!(t, "xyz"),
        other => panic!("expected a bad-number error, got {:?}", result_kind(&other)),
    }
    assert!(matches!(
        NoiseBuilder::parse("powi 2.5 c 1"),
        Err(ParseError::BadNumber(_))
    ));
    assert!(matches!(
        NoiseBuilder::parse("perlin -1"),
        Err(ParseError::BadNumber(_))
    ));
    assert!(matches!(
        NoiseBuilder::parse("c 1.2.3"),
        Err(ParseError::BadNumber(_))
    ));
}

#[test]
fn parse_rejects_trailing_tokens() {
    assert!(matches!(
        NoiseBuilder::parse("c 1 c 2"),
        Err(ParseError::TooManyTokens)
    ));
}

#[test]
fn parse_accepts_standard_float_shapes() {
    for tok in ["1", "1.", ".5", "-3.25", "+7", "1e5", "2.5E-3", "inf", "-Infinity", "NaN"] {
        let src = format!("c {}", tok);
        assert!(NoiseBuilder::parse(&src).is_ok(), "rejected {}", tok);
    }
    for tok in ["", ".", "e5", "1e", "--1", "0x10"] {
        let src = format!("c {}", tok);
        assert!(NoiseBuilder::parse(&src).is_err(), "accepted {}", tok);
    }
}

#[test]
fn parse_seed_and_exponent_ranges() {
    // seeds are unsigned 32-bit
    assert!(matches!(
        NoiseBuilder::parse("perlin 4294967295"),
        Ok(NoiseBuilder::Perlin(u32::MAX))
    ));
    assert!(matches!(
        NoiseBuilder::parse("perlin 4294967296"),
        Err(ParseError::BadNumber(_))
    ));
    assert!(matches!(
        NoiseBuilder::parse("simplex +7"),
        Ok(NoiseBuilder::Simplex(7))
    ));
    // integer exponents are signed 32-bit
    assert!(matches!(
        NoiseBuilder::parse("powi -2147483648 c 1"),
        Ok(NoiseBuilder::PowI(i32::MIN, _))
    ));
    assert!(matches!(
        NoiseBuilder::parse("powi 2147483648 c 1"),
        Err(ParseError::BadNumber(_))
    ));
}

fn result_kind(r: &Result<NoiseBuilder, ParseError>) -> String {
    match r {
        Ok(_) => "ok".to_owned(),
        Err(ParseError::InvalidToken(t)) => format!("invalid token {}", t),
        Err(ParseError::BadNumber(t)) => format!("bad number {}", t),
        Err(ParseError::NotEnoughTokens) => "not enough tokens".to_owned(),
        Err(ParseError::ExpectedNumber) => "expected number".to_owned(),
        Err(ParseError::TooManyTokens) => "too many tokens".to_owned(),
    }
}
