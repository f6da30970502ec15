use plox::expressions::Expression;
use plox::parser::{new_cyberpunk_parser, new_tes3_parser, ParseError};
use plox::parser::TParser;
use plox::rules::{
    conflict, nearend, nearstart, note, order, patch, requires_rule, Conflict, Patch, Requires,
    TWarningRule,
};

fn is_atomic(e: &Expression, expected: &str) -> bool {
    if let Expression::Atomic(b) = e {
        assert_eq!(expected, b.get_item().as_str());
        true
    } else {
        panic!("wrong type");
    }
}

fn is_all(e: &Expression) -> bool {
    if let Expression::ALL(_b) = e {
        true
    } else {
        panic!("wrong type");
    }
}

#[test]
fn unit_parser_tests_test_order() {
    let tokens = [
        ("a.archive", "b.archive", "c.archive"),
        ("a with a whitespace.archive", "b.archive", "c.archive"),
    ];

    for token in tokens {
        let a = token.0;
        let b = token.1;
        let c = token.2;

        let inputs = [
            format!("[Order]{a} {b} {c}"),
            format!("[Order]\n{a}\n{b}\n{c}"),
            format!("[Order]{a}\n{b}\n{c}"),
            format!("[Order]{a}\n{b}\n;\"ignored.esp\"\n{c}"),
            format!("[Order]{a}; with a comment\n{b} {c}"),
            format!("[Order]{a} {b} {c} ; with a comment"),
            format!("[Order]{a}; with a comment\n{b}\n{c}"),
            format!("[Order]; with a comment\n{a}\n{b}\n{c}"),
        ];

        for input in inputs {
            let input = input.to_lowercase();
            let rules = new_cyberpunk_parser()
                .parse_rules_from_reader(&input)
                .expect("Failed to parse rule")
                .into_iter()
                .filter_map(order)
                .collect::<Vec<_>>();
            assert_eq!(1, rules.len(), "{}", input);

            let n = rules.first().expect("No rules found");
            assert_eq!(a, n.names[0]);
            assert_eq!(b, n.names[1]);
            assert_eq!(c, n.names[2]);
        }
    }
}

#[test]
fn unit_parser_tests_test_nearstart() {
    let inputs = [
        "[Nearstart message] a.esp b.esp".to_owned(),
        "[Nearstart message] a.esp\nb.esp".to_owned(),
        "[Nearstart]; with a comment\na.esp\nb.esp".to_owned(),
    ];

    for input in inputs {
        let input = input.to_lowercase();
        let rules = new_tes3_parser()
            .parse_rules_from_reader(&input)
            .expect("Failed to parse rule")
            .into_iter()
            .filter_map(nearstart)
            .collect::<Vec<_>>();
        assert_eq!(1, rules.len());
        let n = rules.first().expect("No rules found");
        assert_eq!(2, n.names.len());
        assert_eq!("a.esp", n.names[0]);
        assert_eq!("b.esp", n.names[1]);
    }
}

#[test]
fn unit_parser_tests_test_nearend() {
    let inputs = [
        "[Nearend message] a.esp b.esp",
        "[Nearend message] a.esp\nb.esp",
        "[Nearend]; with a comment\na.esp\nb.esp",
    ];

    for input in inputs {
        let input = input.to_lowercase();
        let rules = new_tes3_parser()
            .parse_rules_from_reader(&input)
            .expect("Failed to parse rule")
            .into_iter()
            .filter_map(nearend)
            .collect::<Vec<_>>();
        assert_eq!(1, rules.len());
        let n = rules.first().expect("No rules found");
        assert_eq!(2, n.names.len());
        assert_eq!("a.esp", n.names[0]);
        assert_eq!("b.esp", n.names[1]);
    }
}

#[test]
fn test_note() {
    let tokens = [
        ("a.archive", "b.archive", "c.archive"),
        ("a with a whitespace.archive", "b.archive", "c.archive"),
    ];

    for token in tokens {
        let a = token.0;
        let b = token.1;
        let c = token.2;

        let inputs = [
            format!("[Note message]{a} {b} {c}"),
            format!("[Note message]{a}\n{b}\n{c}"),
            format!("[Note message]\n{a}\n{b}\n{c}"),
            format!("[Note message]{a}; with a comment\n{b}\n{c}"),
            format!("[Note message]{a} {b} {c} ; with a comment"),
            format!("[Note message]{a}; with a comment\n{b} {c}"),
            format!("[Note message]; with a comment\n{a}\n{b}\n{c}"),
        ];

        for input in inputs {
            let input = input.to_lowercase();
            let rules = new_cyberpunk_parser()
                .parse_rules_from_reader(&input)
                .expect("Failed to parse rule")
                .into_iter()
                .filter_map(note)
                .collect::<Vec<_>>();
            assert_eq!(1, rules.len(), "{}", input);

            let n = rules.first().expect("No rules found");
            assert_eq!("message", n.get_comment());
            assert_eq!(3, n.expressions.len());

            assert!(is_atomic(&n.expressions[0], a));
            assert!(is_atomic(&n.expressions[1], b));
            assert!(is_atomic(&n.expressions[2], c));
        }
    }
}

#[test]
fn test_note_nested() {
    let input = "[Note]\n[ALL a.archive [NOT b.archive]]".to_lowercase();
    let rules = new_cyberpunk_parser()
        .parse_rules_from_reader(&input)
        .expect("Failed to parse rule")
        .into_iter()
        .filter_map(note)
        .collect::<Vec<_>>();
    assert_eq!(1, rules.len());
    let rule = rules.first().expect("No rules found");
    assert_eq!("", rule.get_comment());
    assert_eq!(1, rule.expressions.len());
}

#[test]
fn test_conflict() {
    let a = "a.archive";
    let b = "b.archive";
    let input = format!("[Conflict] ; some comment\n\tmessage\n{a}\n{b}").to_lowercase();
    let rules = new_cyberpunk_parser()
        .parse_rules_from_reader(&input)
        .expect("Failed to parse rule")
        .into_iter()
        .filter_map(conflict)
        .collect::<Vec<_>>();
    assert_eq!(1, rules.len());
    let n = rules.first().expect("No rules found");
    assert_eq!("message", n.get_comment());

    assert!(is_atomic(&n.expressions[0], a));
    assert!(is_atomic(&n.expressions[1], b));
}

#[test]
fn test_conflict_nested() {
    let input = "[Conflict]\nname a.archive\n[ALL b.archive c name.archive]".to_lowercase();
    let rules = new_cyberpunk_parser()
        .parse_rules_from_reader(&input)
        .expect("Failed to parse rule")
        .into_iter()
        .filter_map(conflict)
        .collect::<Vec<_>>();
    assert_eq!(1, rules.len());
    let n = rules.first().expect("No rules found");
    assert_eq!("", n.get_comment());

    assert!(is_atomic(&n.expressions[0], "name a.archive"));
    assert!(is_all(&n.expressions[1]));
}

#[test]
fn unit_parser_tests_test_requires() {
    let tokens = [
        ("a.archive", "b.archive"),
        ("a with a whitespace.archive", "b.archive"),
    ];

    for (a, b) in tokens {
        let inputs = [
            format!("[Requires message] {a} {b}"),
            format!("[Requires message] {a}\n{b}"),
            format!("[Requires message]{a} {b}"),
            format!("[Requires message]{a}\n{b}"),
            format!("[Requires message]\n{a}\n{b}"),
            format!("[Requires message] {a}; with a comment\n{b}"),
            format!("[Requires message] {a}\n{b}; and comment"),
            format!("[Requires message]{a}; with a comment\n{b}"),
            format!("[Requires message]{a}\n{b}; and comment"),
        ];

        for input in inputs {
            let input = input.to_lowercase();
            let rules = new_cyberpunk_parser()
                .parse_rules_from_reader(&input)
                .expect("Failed to parse rule")
                .into_iter()
                .filter_map(requires_rule)
                .collect::<Vec<_>>();

            assert_eq!(1, rules.len(), "{}", input);
            let n = rules.first().expect("No rules found");
            assert_eq!("message", n.get_comment());

            assert!(n.expression_a.is_some());
            assert!(n.expression_b.is_some());

            assert!(is_atomic(n.expression_a.as_ref().unwrap(), a));
            assert!(is_atomic(n.expression_b.as_ref().unwrap(), b));
        }
    }
}

#[test]
fn unit_parser_tests_test_patch() {
    let tokens = [
        ("a.archive", "b.archive"),
        ("a with a whitespace.archive", "b.archive"),
    ];

    for (a, b) in tokens {
        let inputs = [
            format!("[Patch message] {a} {b}"),
            format!("[Patch message] {a}\n{b}"),
            format!("[Patch message]{a} {b}"),
            format!("[Patch message]{a}\n{b}"),
            format!("[Patch message]\n{a}\n{b}"),
            format!("[Patch message]\n{a}\n{b}"),
            format!("[Patch message] {a}; with a comment\n{b}"),
            format!("[Patch message] {a}\n{b}; and comment"),
        ];

        for input in inputs {
            let input = input.to_lowercase();
            let rules = new_cyberpunk_parser()
                .parse_rules_from_reader(&input)
                .expect("Failed to parse rule")
                .into_iter()
                .filter_map(patch)
                .collect::<Vec<_>>();

            assert_eq!(1, rules.len(), "{}", input);
            let n = rules.first().expect("No rules found");
            assert_eq!("message", n.get_comment());

            assert!(n.expression_a.is_some());
            assert!(n.expression_b.is_some());

            assert!(is_atomic(n.expression_a.as_ref().unwrap(), a));
            assert!(is_atomic(n.expression_b.as_ref().unwrap(), b));
        }
    }
}

fn test_atomic(input: &str, expected: &str) {
    let parser = new_tes3_parser();

    let exprs = parser
        .parse_expressions(input.as_bytes())
        .expect("No expressions parsed");
    assert_eq!(1, exprs.len());

    let e = parser
        .parse_expression(input, false)
        .expect("No expressions parsed");
    assert!(is_atomic(&e, expected));
}

#[test]
fn test_atomic_expr() {
    let inputs = [
        "[]Siege at Firemoth.esp",
        "[Official]Siege at Firemoth.esp",
        "a.esp",
        "a name.esp",
    ];

    for a in inputs {
        test_atomic(a, a);
    }
}

fn test_all(input: &str, expected: Vec<&str>) {
    let parser = new_cyberpunk_parser();
    assert_eq!(
        1,
        parser
            .parse_expressions(input.as_bytes())
            .expect("No expressions parsed")
            .len()
    );
    let expr = parser
        .parse_expression(input, true)
        .expect("No expressions parsed");
    if let Expression::ALL(b) = expr {
        assert_eq!(expected.len(), b.expressions.len());
        for (i, e) in b.expressions.iter().enumerate() {
            assert!(is_atomic(e, expected[i]));
        }
    } else {
        panic!("wrong type");
    }
}

#[test]
fn test_all_expr() {
    let inputs = [
        ("a.archive", "b.archive"),
        ("a.archive", "b with spaces.archive"),
        ("a name.archive", "b.archive"),
    ];

    for (a, b) in inputs {
        test_all(
            format!("[ALL {a} {b}]").to_lowercase().as_str(),
            [a, b].to_vec(),
        );
    }
}

fn test_desc(input: &str, expected: Vec<&str>, negated: bool) {
    let parser = new_cyberpunk_parser();

    assert_eq!(
        1,
        parser
            .parse_expressions(input.as_bytes())
            .expect("No expressions parsed")
            .len()
    );

    let expr = parser
        .parse_expression(input, true)
        .expect("No expressions parsed");

    if let Expression::DESC(e) = expr {
        assert!(is_atomic(&e.expression.into(), expected[1]));
        if negated {
            assert_eq!(format!("!/{}/", e.regex), expected[0]);
        } else {
            assert_eq!(format!("/{}/", e.regex), expected[0]);
        }
        assert_eq!(e.is_negated, negated);
    } else {
        panic!("wrong type");
    }
}

#[test]
fn test_desc_expr() {
    let inputs = [
        ("/regex/", "a.archive"),
        ("/regex with spaces/", "a.archive"),
        ("/regex/", "a some name.archive"),
        ("/regex with spaces/", "a some name.archive"),
    ];
    for (a, b) in inputs {
        test_desc(
            format!("[DESC {a} {b}]").to_lowercase().as_str(),
            [a, b].to_vec(),
            false,
        );
    }

    let inputs = [
        ("!/regex/", "a.archive"),
        ("!/regex with spaces/", "a.archive"),
        ("!/regex/", "a some name.archive"),
        ("!/regex with spaces/", "a some name.archive"),
    ];
    for (a, b) in inputs {
        test_desc(
            format!("[DESC {a} {b}]").to_lowercase().as_str(),
            [a, b].to_vec(),
            true,
        );
    }
}

fn test_size(input: &str, expected: Vec<&str>, negated: bool) {
    let parser = new_cyberpunk_parser();

    assert_eq!(
        1,
        parser
            .parse_expressions(input.as_bytes())
            .expect("No expressions parsed")
            .len()
    );

    let expr = parser
        .parse_expression(input, true)
        .expect("No expressions parsed");

    if let Expression::SIZE(e) = expr {
        if negated {
            assert_eq!(format!("!{}", e.size), expected[0]);
        } else {
            assert_eq!(format!("{}", e.size), expected[0]);
        }
        assert_eq!(e.is_negated, negated);
    } else {
        panic!("wrong type");
    }
}

#[test]
fn test_size_expr() {
    let inputs = [("30881", "a.archive"), ("30881", "a some name.archive")];
    for (a, b) in inputs {
        test_size(
            format!("[SIZE {a} {b}]").to_lowercase().as_str(),
            [a, b].to_vec(),
            false,
        );
    }

    let inputs = [("!30881", "a.archive"), ("!30881", "a some name.archive")];
    for (a, b) in inputs {
        test_size(
            format!("[SIZE {a} {b}]").to_lowercase().as_str(),
            [a, b].to_vec(),
            true,
        );
    }
}

fn test_ver(input: &str, expected: Vec<&str>) {
    let parser = new_cyberpunk_parser();

    assert_eq!(
        1,
        parser
            .parse_expressions(input.as_bytes())
            .expect("No expressions parsed")
            .len()
    );

    let expr = parser
        .parse_expression(input, true)
        .expect("No expressions parsed");

    if let Expression::VER(e) = expr {
        assert_eq!(e.operator.to_string(), expected[0]);
        assert_eq!(format!("{}", e.version), expected[1]);
        assert!(is_atomic(&e.expression.into(), expected[2]));
    } else {
        panic!("wrong type");
    }
}

#[test]
fn test_ver_expr() {
    let inputs = [
        ("<", "1.51", "a.archive"),
        ("<", "1.51", "a some name.archive"),
        (">", "1.51", "a.archive"),
        (">", "1.51", "a some name.archive"),
        ("=", "1.51", "a.archive"),
        ("=", "1.51", "a some name.archive"),
    ];

    for (a, b, c) in inputs {
        test_ver(
            format!("[VER {a} {b} {c}]").to_lowercase().as_str(),
            [a, format!("{b}.0").as_str(), c].to_vec(),
        );
    }
}

#[test]
fn test_multiline_expr() {
    let parser = new_cyberpunk_parser();

    {
        let input = "[ANY [NOT x.archive] archive name.archive\na.archive]".to_lowercase();
        let expr = parser
            .parse_expressions(input.as_bytes())
            .expect("No expressions parsed");
        assert_eq!(1, expr.len());
    }
    {
        let input = "a.archive Assassins Armory - Arrows.archive a.archive c.archive\n[ANY AreaEffectArrows XB Edition.archive\nAreaEffectArrows.archive b.archive\n[NOT x.archive]]".to_lowercase();
        let expr = parser
            .parse_expressions(input.as_bytes())
            .expect("No expressions parsed");
        assert_eq!(5, expr.len());
    }
}

#[test]
fn parse_errors() {
    let parser = new_cyberpunk_parser();
    assert_eq!(
        parser.parse_expression("a.esp", false).err(),
        Some(ParseError::NotAnAtomic)
    );
    assert_eq!(
        parser.parse_expression("a.archive", true).err(),
        Some(ParseError::NotAnExpression)
    );
    assert_eq!(
        parser.parse_expression("[foo a.archive]", true).err(),
        Some(ParseError::UnknownExpression)
    );
    assert_eq!(
        parser
            .parse_expression("[desc /x/ a.archive b.archive]", true)
            .err(),
        Some(ParseError::DescChildCount)
    );
    assert_eq!(
        parser.parse_expression("[size 12 [all a.archive]]", true).err(),
        Some(ParseError::SizeChildAtomic)
    );
}

#[test]
fn parse_several_rules() {
    let text = "; a comment line\n[Order]\na.esp\nb.esp\n\n[Note hello]\nc.esp\n[Requires]\nd.esp\ne.esp\n";
    let rules = new_tes3_parser()
        .parse_rules_from_reader(text)
        .expect("Failed to parse rules");
    assert_eq!(3, rules.len());
    let mut it = rules.into_iter();
    assert_eq!(
        order(it.next().unwrap()).expect("order").names,
        vec!["a.esp".to_string(), "b.esp".to_string()]
    );
    assert_eq!(note(it.next().unwrap()).expect("note").get_comment(), "hello");
    assert!(requires_rule(it.next().unwrap()).is_some());
}

#[test]
fn parse_child_errors() {
    let parser = new_cyberpunk_parser();
    assert_eq!(
        parser.parse_expression("[desc /x/ [all a.archive]]", true).err(),
        Some(ParseError::DescChildAtomic)
    );
    assert_eq!(
        parser
            .parse_expression("[size 12 a.archive b.archive]", true)
            .err(),
        Some(ParseError::SizeChildCount)
    );
    assert_eq!(
        parser
            .parse_expression("[ver < 1.0 a.archive b.archive]", true)
            .err(),
        Some(ParseError::VerChildCount)
    );
    assert_eq!(
        parser.parse_expression("[ver < 1.0 [all a.archive]]", true).err(),
        Some(ParseError::VerChildAtomic)
    );
}

#[test]
fn malformed_rule_bodies() {
    let parser = new_cyberpunk_parser();
    let mut c = Conflict::new(String::new(), &[]);
    assert_eq!(
        TParser::parse(&mut c, "", &parser),
        Err(ParseError::MalformedConflict)
    );
    // a conflict needs two expressions
    assert_eq!(
        TParser::parse(&mut c, "a.archive", &parser),
        Err(ParseError::MalformedConflict)
    );
    assert_eq!(TParser::parse(&mut c, "a.archive b.archive", &parser), Ok(()));
    assert_eq!(c.expressions.len(), 2);
    let mut r = Requires::new(
        String::new(),
        plox::expressions::Atomic::from("x").into(),
        plox::expressions::Atomic::from("y").into(),
    );
    assert_eq!(
        TParser::parse(&mut r, "a.archive b.archive c.archive", &parser),
        Err(ParseError::MalformedRequires)
    );
    let mut p = Patch::new(
        String::new(),
        plox::expressions::Atomic::from("x").into(),
        plox::expressions::Atomic::from("y").into(),
    );
    assert_eq!(
        TParser::parse(&mut p, "a.archive b.archive c.archive", &parser),
        Err(ParseError::MalformedPatch)
    );
}

#[test]
fn size_without_plugin_is_an_error() {
    let parser = new_tes3_parser();
    assert_eq!(
        parser.parse_expression("[size 5]", true).err(),
        Some(ParseError::SizeChildCount)
    );
    assert_eq!(
        parser.parse_expression("[size !5]", true).err(),
        Some(ParseError::SizeChildCount)
    );
    assert_eq!(
        parser.parse_expression("[size", true).err(),
        Some(ParseError::UnknownExpression)
    );
    assert!(parser.parse_expressions("[size 5]".as_bytes()).is_err());
}

#[test]
fn quoted_tokens_keep_their_text() {
    let parser = new_cyberpunk_parser();
    assert_eq!(
        parser.tokenize("\"a.archive b.archive\"".to_string()),
        vec!["a.archive b.archive".to_string()]
    );
    assert_eq!(
        parser.tokenize("x.archive \"a.archive b.archive\" c.archive".to_string()),
        vec![
            "x.archive".to_string(),
            "a.archive b.archive".to_string(),
            "c.archive".to_string()
        ]
    );
}
