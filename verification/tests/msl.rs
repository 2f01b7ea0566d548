use psychedelic::genome::{Expr, PARAM_COUNT};
use psychedelic::motion::MOVER_COUNT;
use psychedelic::msl::emit;
use psychedelic::random::seeded_rng;

const TIME_SCALE: f32 = 0.03;

#[test]
fn every_node_kind_emits_metal() {
    let x = Box::new(Expr::X);
    let y = Box::new(Expr::Y);
    assert_eq!(emit(&Expr::X), "x");
    assert_eq!(emit(&Expr::Y), "y");
    assert_eq!(emit(&Expr::Radius), "radius");
    assert_eq!(emit(&Expr::Theta), "theta");
    assert_eq!(emit(&Expr::Time), format!("(time * {TIME_SCALE:?})"));
    assert_eq!(emit(&Expr::Param(3)), "p[3]");
    assert_eq!(emit(&Expr::Sin(x.clone())), "sin(x)");
    assert_eq!(emit(&Expr::Cos(x.clone())), "cos(x)");
    assert_eq!(emit(&Expr::Neg(x.clone())), "(-x)");
    assert_eq!(emit(&Expr::Add(x.clone(), y.clone())), "(x + y)");
    assert_eq!(emit(&Expr::Sub(x.clone(), y.clone())), "(x - y)");
    assert_eq!(emit(&Expr::Mul(x.clone(), y.clone())), "(x * y)");
    assert_eq!(emit(&Expr::Hypot(x, y)), "length(float2(x, y))");
}

#[test]
fn a_parameter_index_is_kept_inside_the_slot_array() {
    assert_eq!(emit(&Expr::Param(PARAM_COUNT + 5)), "p[5]");
}

#[test]
fn multi_digit_slots_and_wrapped_movers_are_written_in_decimal() {
    assert_eq!(emit(&Expr::Param(17)), "p[17]");
    assert_eq!(emit(&Expr::Param(PARAM_COUNT * 1000 + 23)), "p[23]");
    assert_eq!(emit(&Expr::MoverDistance(6)), "moverDistance2");
    assert_eq!(emit(&Expr::MoverWindow(3)), "moverWindow3");
}

#[test]
fn nested_nodes_emit_nested_text() {
    let tree = Expr::Mul(
        Box::new(Expr::MoverWindow(1)),
        Box::new(Expr::Sin(Box::new(Expr::Add(
            Box::new(Expr::Mul(
                Box::new(Expr::Param(2)),
                Box::new(Expr::MoverDistance(1)),
            )),
            Box::new(Expr::Mul(Box::new(Expr::Param(20)), Box::new(Expr::Time))),
        )))),
    );
    assert_eq!(
        emit(&tree),
        "(moverWindow1 * sin(((p[2] * moverDistance1) + (p[20] * (time * 0.03)))))"
    );
}

fn parentheses_balance(text: &str) -> bool {
    let mut depth: i64 = 0;
    for c in text.chars() {
        if c == '(' {
            depth += 1;
        } else if c == ')' {
            depth -= 1;
            if depth < 0 {
                return false;
            }
        }
    }
    depth == 0
}

#[test]
fn random_fields_emit_balanced_text_with_indices_in_range() {
    let mut rng = seeded_rng(211);
    for _ in 0..20 {
        let field = Expr::random_field(&mut rng);
        let text = emit(&field);
        assert!(!text.is_empty());
        assert!(parentheses_balance(&text));
        for piece in text.split("p[").skip(1) {
            let digits: String = piece.chars().take_while(|c| c.is_ascii_digit()).collect();
            let slot: usize = digits.parse().unwrap();
            assert!(slot < PARAM_COUNT);
        }
        for name in ["moverDistance", "moverWindow"] {
            for piece in text.split(name).skip(1) {
                let digits: String = piece.chars().take_while(|c| c.is_ascii_digit()).collect();
                let mover: usize = digits.parse().unwrap();
                assert!(mover < MOVER_COUNT);
            }
        }
    }
}
