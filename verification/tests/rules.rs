use cargo_all_features::rules::expr::{Expr, InfixOp, Literal};
use cargo_all_features::rules::new_rule;
use cargo_all_features::rules::parser::parse_expr;
use cargo_all_features::types::{Feature, FeatureList};

fn feats(names: &[&str]) -> FeatureList {
    FeatureList(names.iter().map(|n| Feature((*n).to_owned())).collect())
}

#[test]
fn lazy_eval_avoids_err() {
    let a = Expr::Literal(Literal::Feature(Feature("A".to_owned())));
    let b = Expr::Literal(Literal::Feature(Feature("B".to_owned())));
    let c = Expr::Literal(Literal::Feature(Feature("C".to_owned())));
    let expr = a.infix(InfixOp::Implies, b.infix(InfixOp::Add, c));
    let ans = expr.eval(&feats(&["B"]));
    assert!(ans.is_ok_and(|a| a));
}

#[test]
fn nonlazy_eval_produces_err() {
    let a = Expr::Literal(Literal::Feature(Feature("A".to_owned())));
    let b = Expr::Literal(Literal::Feature(Feature("B".to_owned())));
    let c = Expr::Literal(Literal::Feature(Feature("C".to_owned())));
    let expr = a.infix(InfixOp::Implies, b.infix(InfixOp::Add, c));
    let ans = expr.eval(&feats(&["A"]));
    assert!(ans.is_err());
    assert_eq!(
        "integer cannot be converted to bool: (A: true) => ((B: false) + (C: false): 0): ERR",
        ans.err().unwrap()
    );
}

#[test]
fn new_implication_rule() {
    let if_all = vec![
        Feature("A".to_owned()),
        Feature("B".to_owned()),
        Feature("C".to_owned()),
    ];
    let then_all = vec![Feature("D".to_owned()), Feature("E".to_owned())];
    let mut all = if_all.clone();
    all.extend(then_all.clone());
    let implication_rule =
        new_rule::implication(&FeatureList(if_all.clone()), &FeatureList(then_all.clone()))
            .unwrap();
    for i in 0..(1 << all.len()) {
        let mut select: Vec<Feature> = Vec::new();
        for (j, a) in all.iter().enumerate() {
            if (i >> j) & 1 == 1 {
                select.push(a.clone());
            }
        }
        let select = FeatureList(select);
        let mut if_all_covered = true;
        for a in if_all.iter() {
            if !select.contains(a) {
                if_all_covered = false;
                break;
            }
        }
        let mut then_all_covered = true;
        for a in then_all.iter() {
            if !select.contains(a) {
                then_all_covered = false;
                break;
            }
        }
        let decision = implication_rule.eval(&select).unwrap();
        if if_all_covered {
            assert!(decision == then_all_covered);
        } else {
            assert!(decision);
        }
    }
}

#[test]
fn parser() {
    let expr = parse_expr("h_a | c4 & (AB => std)").unwrap();
    assert_eq!("h_a | (c4 & (AB => std))", expr.render());
    assert!(!expr.eval(&feats(&[])).unwrap());
    assert!(!expr.eval(&feats(&["AB"])).unwrap());
    assert!(!expr.eval(&feats(&["std"])).unwrap());
    assert!(!expr.eval(&feats(&["c4", "AB"])).unwrap());
    assert!(!expr.eval(&feats(&["AB", "std"])).unwrap());
    assert!(expr.eval(&feats(&["h_a"])).unwrap());
    assert!(expr.eval(&feats(&["c4"])).unwrap());
    assert!(expr.eval(&feats(&["h_a", "c4"])).unwrap());
    assert!(expr.eval(&feats(&["h_a", "AB"])).unwrap());
    assert!(expr.eval(&feats(&["h_a", "std"])).unwrap());
    assert!(expr.eval(&feats(&["c4", "std"])).unwrap());
    assert!(expr.eval(&feats(&["h_a", "c4", "AB"])).unwrap());
    assert!(expr.eval(&feats(&["h_a", "c4", "std"])).unwrap());
    assert!(expr.eval(&feats(&["h_a", "AB", "std"])).unwrap());
    assert!(expr.eval(&feats(&["c4", "AB", "std"])).unwrap());
    assert!(expr.eval(&feats(&["h_a", "c4", "AB", "std"])).unwrap());
}

#[test]
fn parse_infixes() {
    assert_eq!("A <=> B", parse_expr("A <=> B").unwrap().render());
    assert_eq!("A <= B", parse_expr("'A' <= B").unwrap().render());
    assert_eq!("1 & B", parse_expr("1 & B").unwrap().render());
}

#[test]
fn short_circuit_only_for_false_antecedent() {
    // An implication whose left side is false must not raise the type
    // error hiding on its right side.
    let expr = parse_expr("A => (B + C)").unwrap();
    assert_eq!(expr.eval(&feats(&[])), Ok(true));
    // A true antecedent forces the right side, which is an integer.
    assert!(expr.eval(&feats(&["A"])).is_err());
}

#[test]
fn mixed_types_error_references_err() {
    // The left side holds, so the right side is evaluated and mixes an
    // integer with booleans.
    let expr = parse_expr("(B=>A) => (A+B)&A|B").unwrap();
    let ans = expr.eval(&feats(&[]));
    assert!(ans.is_err());
    let message = ans.err().unwrap();
    assert!(message.contains("ERR"));
    assert!(message.contains("integer cannot be converted to bool"));
}

#[test]
fn builders_empty_lists_make_no_rule() {
    assert!(new_rule::all(&feats(&[])).is_none());
    assert!(new_rule::any(&feats(&[])).is_none());
    assert!(new_rule::not_all(&feats(&[])).is_none());
    assert!(new_rule::not_any(&feats(&[])).is_none());
    assert!(new_rule::implication(&feats(&["A"]), &feats(&[])).is_none());
    assert!(new_rule::implication(&feats(&[]), &feats(&["A"])).is_some());
}

#[test]
fn builders_semantics() {
    let not_all = new_rule::not_all(&feats(&["A", "B"])).unwrap();
    assert!(not_all.eval(&feats(&["A"])).unwrap());
    assert!(!not_all.eval(&feats(&["A", "B"])).unwrap());
    let not_any = new_rule::not_any(&feats(&["A", "B"])).unwrap();
    assert!(not_any.eval(&feats(&["C"])).unwrap());
    assert!(!not_any.eval(&feats(&["B"])).unwrap());
    let any = new_rule::any(&feats(&["A", "B"])).unwrap();
    assert!(any.eval(&feats(&["B", "C"])).unwrap());
    assert!(!any.eval(&feats(&[])).unwrap());
}

#[test]
fn integer_top_level_result_is_reported() {
    let expr = parse_expr("1 + 2").unwrap();
    let ans = expr.eval(&feats(&[]));
    assert_eq!(
        "provided rule returned integer 3 instead of a boolean: (1: 1) + (2: 2): 3",
        ans.err().unwrap()
    );
}

#[test]
fn comparisons_coerce_booleans_to_integers() {
    // Presence comparisons go through 0/1 coercion.
    let expr = parse_expr("A == 1").unwrap();
    assert_eq!(expr.eval(&feats(&["A"])), Ok(true));
    assert_eq!(expr.eval(&feats(&[])), Ok(false));
    let expr = parse_expr("A < B + B").unwrap();
    assert_eq!(expr.eval(&feats(&["B"])), Ok(true));
    assert_eq!(expr.eval(&feats(&["A", "B"])), Ok(true));
    assert_eq!(expr.eval(&feats(&["A"])), Ok(false));
}

#[test]
fn quoted_names_and_precedence() {
    let expr = parse_expr("'my-feature' => A").unwrap();
    assert_eq!("my-feature => A", expr.render());
    assert!(expr.eval(&feats(&["A"])).unwrap());
    // Precedence: `&` binds tighter than `|`, `=>` looser than `+`.
    assert_eq!("(A & B) | C", parse_expr("A & B | C").unwrap().render());
    assert_eq!("A | (B & C)", parse_expr("A | B & C").unwrap().render());
}

#[test]
fn rendering_reparses_to_equivalent_expression() {
    // Parsing and re-rendering keeps the meaning: same truth table over
    // every subset of the referenced features, modulo parenthesization.
    let sources = vec![
        "A => B | !C",
        "!A & (B | C)",
        "A ^ B <=> C",
        "-A + B < 2",
        "A == B",
        "!!A | -1 < B - C",
    ];
    let names = vec!["A", "B", "C"];
    for source in sources {
        let parsed = parse_expr(source).unwrap();
        let rendered = parsed.render();
        let reparsed = parse_expr(&rendered).unwrap();
        assert_eq!(rendered, reparsed.render());
        for mask in 0..8u32 {
            let mut selected: Vec<Feature> = Vec::new();
            for (j, n) in names.iter().enumerate() {
                if (mask >> j) & 1 == 1 {
                    selected.push(Feature((*n).to_owned()));
                }
            }
            let set = FeatureList(selected);
            assert_eq!(parsed.eval(&set), reparsed.eval(&set));
        }
    }
}

#[test]
fn parser_rejects_bad_input() {
    assert!(parse_expr("").is_err());
    assert!(parse_expr("A &").is_err());
    assert!(parse_expr("(A").is_err());
    assert!(parse_expr("A ? B").is_err());
    assert!(parse_expr("'unterminated").is_err());
    assert!(parse_expr("99999999999999999999").is_err());
    assert!(parse_expr("A B").is_err());
}
