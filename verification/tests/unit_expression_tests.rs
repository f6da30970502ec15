use plox::expressions::{
    Atomic, EVerOperator, Expression, TExpression, ALL, ANY, DESC, NOT, SIZE, VER,
};
use plox::PluginData;

const A: &str = "a.esp";
const B: &str = "b.esp";
const C: &str = "c.esp";
const D: &str = "d.esp";
const E: &str = "e.esp";
const F: &str = "f.esp";
const X: &str = "x.esp";
const Y: &str = "y.esp";

fn e(str: &str) -> Expression {
    Atomic::from(str).into()
}

fn get_mods() -> Vec<PluginData> {
    [A, B, C, D, E, F]
        .iter()
        .map(|e| PluginData::new(e.to_string(), 0))
        .collect::<Vec<_>>()
}

#[test]
fn evaluate_all() {
    {
        let expr = ALL::new(vec![e(A), e(B)]);
        assert!(expr.eval(&get_mods()).is_some());
    }
    {
        let expr = ALL::new(vec![e(A), e(X)]);
        assert!(expr.eval(&get_mods()).is_none());
    }
    {
        let expr = ALL::new(vec![e(X), e(A)]);
        assert!(expr.eval(&get_mods()).is_none());
    }
    {
        let expr = ALL::new(vec![e(X), e(Y)]);
        assert!(expr.eval(&get_mods()).is_none());
    }
}

#[test]
fn evaluate_any() {
    {
        let expr = ANY::new(vec![e(A), e(B)]);
        assert!(expr.eval(&get_mods()).is_some());
    }
    {
        let expr = ANY::new(vec![e(A), e(X)]);
        assert!(expr.eval(&get_mods()).is_some());
    }
    {
        let expr = ANY::new(vec![e(X), e(A)]);
        assert!(expr.eval(&get_mods()).is_some());
    }
    {
        let expr = ANY::new(vec![e(X), e(Y)]);
        assert!(expr.eval(&get_mods()).is_none());
    }
}

#[test]
fn evaluate_not() {
    {
        let expr = NOT::new(e(X));
        assert!(expr.eval(&get_mods()).is_some());
    }
    {
        let expr = NOT::new(e(A));
        assert!(expr.eval(&get_mods()).is_none());
    }
}

#[test]
fn evaluate_size() {
    let mods = [A, B, C, D, E, F]
        .iter()
        .enumerate()
        .map(|(i, e)| PluginData::new(e.to_string(), (i + 1) as u64))
        .collect::<Vec<_>>();

    {
        let expr = SIZE::new(Atomic::from(A), 1_u64, false);
        assert!(expr.eval(&mods).is_some());
    }
    {
        let expr = SIZE::new(Atomic::from(A), 2_u64, true);
        assert!(expr.eval(&mods).is_some());
    }
    {
        let expr = SIZE::new(Atomic::from(A), 2_u64, false);
        assert!(expr.eval(&mods).is_none());
    }
}

#[test]
fn evaluate_desc() {
    let mods = [A, B, C, D, E, F]
        .iter()
        .map(|e| PluginData {
            name: e.to_string(),
            size: 0_u64,
            description: Some("description".to_string()),
            version: None,
            masters: None,
        })
        .collect::<Vec<_>>();

    {
        let expr = DESC::new(Atomic::from(A), "description".to_string(), false);
        assert!(expr.eval(&mods).is_some());
    }
    {
        let expr = DESC::new(Atomic::from(A), "des*".to_string(), false);
        assert!(expr.eval(&mods).is_some());
    }
    {
        let expr = DESC::new(Atomic::from(A), "another description".to_string(), false);
        assert!(expr.eval(&mods).is_none());
    }
    {
        let expr = DESC::new(Atomic::from(A), "another description".to_string(), true);
        assert!(expr.eval(&mods).is_some());
    }
    {
        let expr = DESC::new(Atomic::from(A), "description".to_string(), true);
        assert!(expr.eval(&mods).is_none());
    }
}

#[test]
fn evaluate_ver() {
    // the plugin's version is kept as the text of the version read from "1.0"
    let mods = [A, B, C, D, E, F]
        .iter()
        .map(|e| PluginData {
            name: e.to_string(),
            size: 0_u64,
            description: None,
            masters: None,
            version: Some("1.0.0".to_string()),
        })
        .collect::<Vec<_>>();

    {
        let expr = VER::new(Atomic::from(A), EVerOperator::Equal, "1.0.0".to_string());
        assert!(expr.eval(&mods).is_some());
    }
    {
        let expr = VER::new(Atomic::from(A), EVerOperator::Equal, "1.1.0".to_string());
        assert!(expr.eval(&mods).is_none());
    }
    {
        let expr = VER::new(Atomic::from(A), EVerOperator::Greater, "0.1.0".to_string());
        assert!(expr.eval(&mods).is_some());
    }
    {
        let expr = VER::new(Atomic::from(A), EVerOperator::Greater, "1.2.0".to_string());
        assert!(expr.eval(&mods).is_none());
    }
    {
        let expr = VER::new(Atomic::from(A), EVerOperator::Greater, "1.0.0".to_string());
        assert!(expr.eval(&mods).is_none());
    }
    {
        let expr = VER::new(Atomic::from(A), EVerOperator::Less, "1.2.0".to_string());
        assert!(expr.eval(&mods).is_some());
    }
    {
        let expr = VER::new(Atomic::from(A), EVerOperator::Less, "0.1.0".to_string());
        assert!(expr.eval(&mods).is_none());
    }
    {
        let expr = VER::new(Atomic::from(A), EVerOperator::Less, "1.0.0".to_string());
        assert!(expr.eval(&mods).is_none());
    }
}

#[test]
fn evaluate_nested() {
    {
        let nested = ALL::new(vec![e(A), e(X)]);
        let expr = NOT::new(nested.into());
        assert!(expr.eval(&get_mods()).is_some());
    }
    {
        let nested = ALL::new(vec![e(A), e(B)]);
        let expr = NOT::new(nested.into());
        assert!(expr.eval(&get_mods()).is_none());
    }
    {
        let nested1 = ALL::new(vec![e(A), e(B)]);
        let nested2 = NOT::new(ANY::new(vec![e(X), e(Y)]).into());
        let expr = ALL::new(vec![nested1.into(), nested2.into()]);
        assert!(expr.eval(&get_mods()).is_some());
    }
    {
        let nested1 = ALL::new(vec![e(A), e(B)]);
        let nested2 = ANY::new(vec![e(A), e(Y)]);
        let expr = ALL::new(vec![nested1.into(), nested2.into()]);
        assert!(expr.eval(&get_mods()).is_some());
    }
}

#[test]
fn evaluate_returns_matching_plugins() {
    // ANY gives the names of the plugins that made it true, in the order of its children
    let expr = ANY::new(vec![e(B), e(X), e(A)]);
    assert_eq!(
        expr.eval(&get_mods()),
        Some(vec![B.to_string(), A.to_string()])
    );
    // a wildcard names every plugin it matches
    let expr = Expression::from(Atomic::from("?.esp"));
    assert_eq!(expr.eval(&get_mods()).map(|v| v.len()), Some(6));
    // NOT gives its own text when it holds
    let expr = NOT::new(e(X));
    assert_eq!(expr.eval(&get_mods()), Some(vec!["[NOT x.esp]".to_string()]));
}

#[test]
fn expression_text() {
    let expr: Expression = ALL::new(vec![
        e(A),
        NOT::new(e(B)).into(),
        SIZE::new(Atomic::from(C), 12, true).into(),
        VER::new(Atomic::from(D), EVerOperator::Less, "1.2.0".to_string()).into(),
    ])
    .into();
    assert_eq!(
        expr.to_string(),
        "[ALL a.esp\n\t[NOT b.esp]\n\t[SIZE !12 c.esp]\n\t[VER < 1.2.0 d.esp]]"
    );
}

#[test]
fn ver_reads_the_version_in_the_name() {
    let mods = vec![
        PluginData::new("foo 1.2.esp".to_string(), 0),
        PluginData::new("bar 0.9.esp".to_string(), 0),
    ];
    let expr = VER::new(
        Atomic::from("foo <ver>.esp"),
        EVerOperator::Greater,
        "1.0.0".to_string(),
    );
    assert_eq!(expr.eval(&mods), Some(vec!["foo 1.2.esp".to_string()]));
    let expr = VER::new(
        Atomic::from("bar <ver>.esp"),
        EVerOperator::Greater,
        "1.0.0".to_string(),
    );
    assert_eq!(expr.eval(&mods), None);
    let expr = VER::new(Atomic::from("bar <ver>.esp"), EVerOperator::Less, "1.0.0".to_string());
    assert_eq!(expr.eval(&mods), Some(vec!["bar 0.9.esp".to_string()]));
    // the header's version comes first
    let mut with_header = PluginData::new("foo 1.2.esp".to_string(), 0);
    with_header.version = Some("0.5.0".to_string());
    let expr = VER::new(
        Atomic::from("foo <ver>.esp"),
        EVerOperator::Greater,
        "1.0.0".to_string(),
    );
    assert_eq!(expr.eval(&[with_header]), None);
}
