use roll::dice::{parse, roll, roll_expressions, roll_kind};

#[test]
fn test_d6() {
    for _ in 0..1000 {
        let r = roll(&"d6".to_string());
        assert_eq!(r.results().len(), 1);
        assert!(r.results().iter().all(|&x| x >= 1 && x <= 6));
    }
}

#[test]
fn test_4d10() {
    for _ in 0..1000 {
        let r = roll(&"4d10".to_string());
        assert_eq!(r.results().len(), 4);
        assert!(r.results().iter().all(|&x| x >= 1 && x <= 10), "{:?}", r.results());
    }
}

#[test]
fn test_numeric_expression_bounds() {
    for _ in 0..200 {
        let r = roll(&"3d20".to_string());
        assert_eq!(r.results().len(), 3);
        assert!(r.results().iter().all(|&x| x >= 1 && x <= 20));
    }
}

#[test]
fn test_fate_expression() {
    for _ in 0..1000 {
        let r = roll(&"4dF".to_string());
        assert_eq!(r.results().len(), 4);
        assert!(r.results().iter().all(|&x| x >= -1 && x <= 1));
    }
}

#[test]
fn test_single_fate_die() {
    let r = roll(&"dF".to_string());
    assert_eq!(r.results().len(), 1);
    assert!(r.results()[0] >= -1 && r.results()[0] <= 1);
}

#[test]
fn test_bare_numeric_kind() {
    for _ in 0..200 {
        let r = roll(&"20".to_string());
        assert_eq!(r.results().len(), 1);
        assert!(r.results()[0] >= 1 && r.results()[0] <= 20);
    }
}

#[test]
fn test_bare_fate_kind() {
    let r = roll(&"F".to_string());
    assert_eq!(r.results().len(), 1);
    assert!(r.results()[0] >= -1 && r.results()[0] <= 1);
}

#[test]
fn test_malformed_expressions_fall_back() {
    for expr in ["", "d", "1d2d3", "ddd", "1d2d3d4"] {
        for _ in 0..100 {
            let r = roll(&expr.to_string());
            assert_eq!(r.results().len(), 1, "expression {:?}", expr);
            assert!(
                r.results()[0] >= 1 && r.results()[0] <= 6,
                "expression {:?} rolled {:?}",
                expr,
                r.results()
            );
        }
    }
}

#[test]
fn test_unknown_kind_rolls_zero() {
    let r = roll(&"2dx".to_string());
    assert_eq!(*r.results(), vec![0, 0]);
}

#[test]
fn test_zero_faces_roll_zero() {
    let r = roll(&"1d0".to_string());
    assert_eq!(*r.results(), vec![0]);
}

#[test]
fn test_oversized_faces_roll_zero() {
    // Parses as a u32, but past i32::MAX: a degenerate die.
    let r = roll(&"1d3000000000".to_string());
    assert_eq!(*r.results(), vec![0]);
    // Does not parse as a u32 at all: an unknown kind.
    let r = roll(&"1d99999999999".to_string());
    assert_eq!(*r.results(), vec![0]);
}

#[test]
fn test_invalid_quantity_defaults_to_one() {
    let r = roll(&"xd6".to_string());
    assert_eq!(r.results().len(), 1);
    assert!(r.results()[0] >= 1 && r.results()[0] <= 6);
}

#[test]
fn test_zero_quantity() {
    let r = roll(&"0d6".to_string());
    assert_eq!(r.results().len(), 0);
    assert_eq!(r.sum(), 0);
    assert_eq!(r.to_string(), "");
}

#[test]
fn test_parse_two_segments() {
    let d = parse("3d6");
    assert_eq!(d.kind, "6");
    assert_eq!(d.quantity, 3);
}

#[test]
fn test_parse_signed_quantity() {
    let d = parse("+4d6");
    assert_eq!(d.kind, "6");
    assert_eq!(d.quantity, 4);
}

#[test]
fn test_parse_quantity_limits() {
    let d = parse("4294967295d2");
    assert_eq!(d.quantity, 4294967295);
    let d = parse("4294967296d2");
    assert_eq!(d.quantity, 1);
}

#[test]
fn test_parse_bare_kind() {
    let d = parse("F");
    assert_eq!(d.kind, "F");
    assert_eq!(d.quantity, 1);
}

#[test]
fn test_parse_collapses_d_runs() {
    let d = parse("dd2dd6dd");
    assert_eq!(d.kind, "6");
    assert_eq!(d.quantity, 2);
}

#[test]
fn test_roll_kind_ranges() {
    let x = roll_kind(&"6".to_string());
    assert!(x >= 1 && x <= 6);
    let f = roll_kind(&"F".to_string());
    assert!(f >= -1 && f <= 1);
    assert_eq!(roll_kind(&"x".to_string()), 0);
    assert_eq!(roll_kind(&"0".to_string()), 0);
}

#[test]
fn test_one_sided_dice_are_deterministic() {
    let r = roll(&"3d1".to_string());
    assert_eq!(*r.results(), vec![1, 1, 1]);
    assert_eq!(r.sum(), 3);
    assert_eq!(r.to_string(), "1, 1, 1");
}

#[test]
fn test_roll_render_matches_results() {
    for expr in ["4d10", "5dF"] {
        let r = roll(&expr.to_string());
        let rendered: Vec<String> = r.results().iter().map(|x| x.to_string()).collect();
        assert_eq!(r.to_string(), rendered.join(", "));
    }
}

#[test]
fn test_results_vary() {
    // A thousand six-sided dice all landing on the same face is
    // beyond astronomically unlikely.
    let r = roll(&"1000d6".to_string());
    let first = r.results()[0];
    assert!(r.results().iter().any(|&x| x != first));
}

#[test]
fn test_group_order_and_sum() {
    let g = roll_expressions(vec!["2d6".to_string(), "1d20".to_string()]);
    assert_eq!(g.rolls().len(), 2);
    assert_eq!(g.rolls()[0].results().len(), 2);
    assert_eq!(g.rolls()[1].results().len(), 1);
    let mut total: i128 = 0;
    for r in g.rolls() {
        for &x in r.results() {
            total += x as i128;
        }
    }
    assert_eq!(g.sum(), total);
}

#[test]
fn test_group_render() {
    let g = roll_expressions(vec!["2d1".to_string(), "3d1".to_string()]);
    assert_eq!(g.to_string(), "[1, 1]\n[1, 1, 1]");
    assert_eq!(g.sum(), 5);
}

#[test]
fn test_empty_group() {
    let g = roll_expressions(vec![]);
    assert_eq!(g.rolls().len(), 0);
    assert_eq!(g.to_string(), "[]");
    assert_eq!(g.sum(), 0);
}

#[test]
fn test_group_of_empty_rolls() {
    let g = roll_expressions(vec!["0d6".to_string(), "0d6".to_string()]);
    assert_eq!(g.to_string(), "[]\n[]");
    assert_eq!(g.sum(), 0);
}
