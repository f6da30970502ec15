use plox::expressions::{Atomic, Expression, ALL, ANY};
use plox::rules::{
    Conflict, EOrderRule, EWarningRule, NearEnd, NearStart, Note, Order, Patch, Requires,
    TWarningRule,
};
use plox::sorter::new_stable_sorter;
use plox::{ESupportedGame, PluginData};

const A: &str = "a.esp";
const B: &str = "b.esp";
const C: &str = "c.esp";
const D: &str = "d.esp";
const E: &str = "e.esp";
const F: &str = "f.esp";
const X: &str = "x.esp";
const Y: &str = "y.esp";

fn e(str: &str) -> Expression {
    Atomic::from(str).into()
}

fn get_mods() -> Vec<PluginData> {
    [A, B, C, D, E, F]
        .iter()
        .map(|e| PluginData::new(e.to_string(), 0))
        .collect()
}

fn names(v: &[&str]) -> Vec<String> {
    v.iter().map(|s| s.to_string()).collect()
}

fn sort(mods: &[PluginData], order_rules: &[EOrderRule]) -> Vec<String> {
    match new_stable_sorter().topo_sort(ESupportedGame::Cyberpunk, mods, order_rules, &[]) {
        Ok(result) => result,
        Err(e) => panic!("Error: {}", e),
    }
}

#[test]
fn test_notes() {
    {
        let mut rule = Note::new("".into(), &[e(A)]);
        assert!(rule.eval(&get_mods()));
    }
    {
        let mut rule = Note::new("".into(), &[e(A), e(B)]);
        assert!(rule.eval(&get_mods()));
    }
    {
        let mut rule = Note::new("".into(), &[e(A), e(X)]);
        assert!(rule.eval(&get_mods()));
    }
    {
        let mut rule = Note::new("".into(), &[e(X)]);
        assert!(!rule.eval(&get_mods()));
    }
    {
        let mut rule = Note::new("".into(), &[e(X), e(Y)]);
        assert!(!rule.eval(&get_mods()));
    }
}

#[test]
fn test_conflicts() {
    {
        let mut rule = Conflict::new("".into(), &[e(A), e(B)]);
        assert!(rule.eval(&get_mods()));
    }
    {
        let mut rule = Conflict::new("".into(), &[e(B), e(A)]);
        assert!(rule.eval(&get_mods()));
    }
    {
        let mut rule = Conflict::new("".into(), &[e(B), e(X)]);
        assert!(!rule.eval(&get_mods()));
    }
    {
        let mut rule = Conflict::new("".into(), &[e(X), e(B)]);
        assert!(!rule.eval(&get_mods()));
    }
    {
        let mut rule = Conflict::new("".into(), &[e(X), e(Y)]);
        assert!(!rule.eval(&get_mods()));
    }
}

#[test]
fn unit_rules_tests_test_requires() {
    {
        let mut rule = Requires::new("".into(), e(A), e(X));
        assert!(rule.eval(&get_mods()));
    }
    {
        let mut rule = Requires::new("".into(), e(X), e(A));
        assert!(!rule.eval(&get_mods()));
    }
    {
        let mut rule = Requires::new("".into(), e(X), e(Y));
        assert!(!rule.eval(&get_mods()));
    }
    {
        let mut rule = Requires::new("".into(), e(A), e(B));
        assert!(!rule.eval(&get_mods()));
    }
}

#[test]
fn unit_rules_tests_test_patch() {
    {
        let mut rule = Patch::new("".into(), e(A), e(X));
        assert!(rule.eval(&get_mods()));
    }
    {
        let mut rule = Patch::new("".into(), e(X), e(A));
        assert!(rule.eval(&get_mods()));
    }
    {
        let mut rule = Patch::new("".into(), e(X), e(Y));
        assert!(!rule.eval(&get_mods()));
    }
    {
        let mut rule = Patch::new("".into(), e(A), e(B));
        assert!(!rule.eval(&get_mods()));
    }
}

#[test]
fn unit_rules_tests_test_nearstart() {
    {
        let order_rules = vec![EOrderRule::NearStart(NearStart::new(names(&[D])))];
        assert_eq!(names(&[D, A, B, C, E, F]), sort(&get_mods(), &order_rules));
    }
    {
        let order_rules = vec![EOrderRule::NearStart(NearStart::new(names(&[B, D])))];
        assert_eq!(names(&[B, D, A, C, E, F]), sort(&get_mods(), &order_rules));
    }
    {
        let order_rules = vec![EOrderRule::NearStart(NearStart::new(names(&[D, B])))];
        assert_eq!(names(&[D, B, A, C, E, F]), sort(&get_mods(), &order_rules));
    }
}

#[test]
fn test_order_case() {
    let mods = vec![
        PluginData::new("a.esp".to_string(), 0),
        PluginData::new("b.ESP".to_string(), 0),
        PluginData::new("c.esp".to_string(), 0),
    ];
    let order: Order = Order::new(vec!["b.esp".to_string(), "a.esp".to_string()]);
    let order_rules: Vec<EOrderRule> = vec![order.into()];
    assert_eq!(
        vec![
            "b.ESP".to_string(),
            "a.esp".to_string(),
            "c.esp".to_string()
        ],
        sort(&mods, &order_rules)
    );
}

#[test]
fn unit_rules_tests_test_order() {
    {
        let order: Order = Order::new(vec![D.to_string(), A.to_string()]);
        let order_rules: Vec<EOrderRule> = vec![order.into()];
        assert_eq!(names(&[D, A, B, C, E, F]), sort(&get_mods(), &order_rules));
    }
    {
        let order: Order = Order::new(vec![D.to_string(), A.to_string()]);
        let order_rules: Vec<EOrderRule> = vec![order.into()];
        assert_ne!(names(&[A, D, B, C, E, F]), sort(&get_mods(), &order_rules));
    }
}

#[test]
fn unit_rules_tests_test_nearend() {
    {
        let order_rules = vec![EOrderRule::NearEnd(NearEnd::new(names(&[D])))];
        assert_eq!(names(&[A, B, C, E, F, D]), sort(&get_mods(), &order_rules));
    }
    {
        let order_rules = vec![EOrderRule::NearEnd(NearEnd::new(names(&[B, D])))];
        assert_eq!(names(&[A, C, E, F, D, B]), sort(&get_mods(), &order_rules));
    }
    {
        let order_rules = vec![EOrderRule::NearEnd(NearEnd::new(names(&[D, B])))];
        assert_eq!(names(&[A, C, E, F, B, D]), sort(&get_mods(), &order_rules));
    }
}

#[test]
fn test_nested() {
    {
        let mut rule = Note::new("".into(), &[ALL::new(vec![e(A), e(B)]).into()]);
        assert!(rule.eval(&get_mods()));
    }
    {
        let mut rule = Note::new("".into(), &[ALL::new(vec![e(A), e(X)]).into()]);
        assert!(!rule.eval(&get_mods()));
    }
    {
        let mut rule = Note::new("".into(), &[ALL::new(vec![e(X), e(A)]).into()]);
        assert!(!rule.eval(&get_mods()));
    }
    {
        let mut rule = Note::new("".into(), &[ALL::new(vec![e(X), e(Y)]).into()]);
        assert!(!rule.eval(&get_mods()));
    }
    {
        let mut rule = Note::new("".into(), &[ANY::new(vec![e(A), e(X)]).into()]);
        assert!(rule.eval(&get_mods()));
    }
    {
        let mut rule = Note::new("".into(), &[ANY::new(vec![e(Y), e(X)]).into()]);
        assert!(!rule.eval(&get_mods()));
    }
}

#[test]
fn rules_record_their_plugins() {
    let mut rule = Conflict::new("clash".into(), &[e(B), e(X), e(A)]);
    assert!(rule.eval(&get_mods()));
    let w: EWarningRule = rule.into();
    assert_eq!(w.get_plugins(), names(&[B, A]));
    assert_eq!(w.get_comment(), "clash");

    let mut rule = Requires::new("needs".into(), e(A), e(X));
    assert!(rule.eval(&get_mods()));
    let w: EWarningRule = rule.into();
    assert_eq!(w.get_plugins(), names(&[A]));
}

#[test]
fn rule_comment_can_be_replaced() {
    let mut rule = Note::new("old".into(), &[e(A)]);
    rule.set_comment("new".to_string());
    assert_eq!(rule.get_comment(), "new");
    assert!(rule.eval(&get_mods()));
    assert_eq!(rule.get_comment(), "new");
}

#[test]
fn order_rules_respected_by_every_sorter() {
    // a chain of order rules through plugins listed the other way round
    let mods: Vec<PluginData> = [F, E, D, C, B, A]
        .iter()
        .map(|n| PluginData::new(n.to_string(), 0))
        .collect();
    let order_rules: Vec<EOrderRule> = vec![
        Order::new(names(&[A, C, E])).into(),
        Order::new(names(&[B, D])).into(),
    ];
    let result = sort(&mods, &order_rules);
    assert!(plox::ordering::check_order(&result, &order_rules));
    assert_eq!(result.len(), 6);
    for n in [A, B, C, D, E, F] {
        assert!(result.contains(&n.to_string()));
    }
}
