use plox::ordering::{check_order, generate_pair_permutations};
use plox::parser::{new_cyberpunk_parser, parse_rule_expression};
use plox::rules::{EOrderRule, Order};
use plox::sorter::{new_stable_sorter, new_unstable_sorter, ESortType, Sorter};
use plox::{wild_contains, ESupportedGame, PluginData};

fn new_stable_full_sorter() -> Sorter {
    Sorter::new(ESortType::StableFull, 1000)
}

fn order2(a: &str, b: &str) -> EOrderRule {
    Order::new(vec![a.to_string(), b.to_string()]).into()
}

fn plugins(names: &[&str]) -> Vec<PluginData> {
    names.iter().map(|n| PluginData::new(n.to_string(), 0)).collect()
}

#[test]
fn test_generate_pair_permutations() {
    {
        let input = ["a".to_owned(), "b".to_owned(), "c".to_owned()];
        let got = generate_pair_permutations(&input);
        let expected = [
            ("a".to_owned(), "b".to_owned()),
            ("a".to_owned(), "c".to_owned()),
            ("b".to_owned(), "c".to_owned()),
        ];
        assert_eq!(got, expected);
    }

    {
        let input = ["a".to_owned(), "b".to_owned()];
        let got = generate_pair_permutations(&input);
        let expected = [("a".to_owned(), "b".to_owned())];
        assert_eq!(got, expected);
    }
}

#[test]
fn test_wildcard_matches_star() {
    let pattern = "Hold it - replacer*.esp".to_lowercase().to_owned();

    {
        let input = "Hold it - replacer.esp".to_lowercase().to_owned();
        assert!(wild_contains(&[input], &pattern).is_some());
    }

    {
        let input = "Hold it - replacerA.esp".to_lowercase().to_owned();
        assert!(wild_contains(&[input], &pattern).is_some());
    }

    {
        let input = "Hold it - replacerAA.esp".to_lowercase().to_owned();
        assert!(wild_contains(&[input], &pattern).is_some());
    }

    {
        let input = "Hold it - replace.esp".to_lowercase().to_owned();
        assert!(wild_contains(&[input], &pattern).is_none());
    }
}

#[test]
fn test_wildcard_matches_questionmark() {
    let pattern = "Rem_LoC?.esp".to_lowercase().to_owned();

    {
        let input = "Rem_LoCA.esp".to_lowercase().to_owned();
        assert!(wild_contains(&[input], &pattern).is_some());
    }

    {
        let input = "Rem_LoC1.esp".to_lowercase().to_owned();
        assert!(wild_contains(&[input], &pattern).is_some());
    }

    {
        let input = "Rem_LoCAA.esp".to_lowercase().to_owned();
        assert!(wild_contains(&[input], &pattern).is_none());
    }

    {
        let input = "Rem_LoC.esp".to_lowercase().to_owned();
        assert!(wild_contains(&[input], &pattern).is_none());
    }
}

#[test]
fn test_wildcard_matches_ver() {
    let pattern = "ADN-GDRv<VER>.esp".to_lowercase().to_owned();

    for ok in [
        "ADN-GDRv1.0.esp",
        "ADN-GDRv1.2.3a.esp",
        "ADN-GDRv1.esp",
        "ADN-GDRv1a.esp",
        "ADN-GDRv1_3a.esp",
        "ADN-GDRv77g.esp",
    ] {
        let input = ok.to_lowercase().to_owned();
        assert!(wild_contains(&[input], &pattern).is_some(), "{}", ok);
    }

    for bad in ["ADN-GDRv1.0_comment.esp", "ADN-GDRv.esp", "ADN-GDRvMyE3.esp"] {
        let input = bad.to_lowercase().to_owned();
        assert!(wild_contains(&[input], &pattern).is_none(), "{}", bad);
    }
}

#[test]
fn test_parse_rule_expression() {
    let inputs = [
        ("NOTE comment] more content.", "NOTE comment]"),
        ("NOTE] more content.", "NOTE]"),
        ("NOTE comment]", "NOTE comment]"),
        ("NOTE with [nested] comment]", "NOTE with [nested] comment]"),
        (
            "NOTE with [nested] comment] and more",
            "NOTE with [nested] comment]",
        ),
    ];

    for (input, expected) in inputs {
        assert_eq!(
            expected.to_owned(),
            parse_rule_expression(input).expect("rule expression").0
        );
    }

    let inputs = ["NOTE comment[]", "NOTE comment[with] [[[[[broken scope]"];
    for input in inputs {
        assert!(parse_rule_expression(input).is_err());
    }
}

#[test]
fn test_tokenize() {
    let parser = new_cyberpunk_parser();

    let inputs = [
        vec!["a.archive", "my e3.archive.archive"],
        vec![" a.archive", "\"mod with spaces.archive\"", "b.archive"],
        vec![" a.archive", "\"mod with spaces.archive\"", "\"c.archive\""],
        vec!["a mod with spaces.archive"],
        vec!["a.archive"],
    ];

    for input_vec in inputs {
        let input = input_vec.join(" ");
        let expected = input_vec
            .iter()
            .map(|f| f.trim().trim_matches('"').trim())
            .collect::<Vec<_>>();
        assert_eq!(expected, parser.tokenize(input.to_owned()).as_slice());
    }
}

#[test]
fn test_cycle() {
    let order = [
        order2("a", "b"),
        order2("b", "c"),
        order2("d", "e"),
        order2("b", "a"),
    ];
    let mods = plugins(&["a", "b", "c", "d", "e", "f", "g"]);

    assert!(
        new_unstable_sorter()
            .topo_sort(ESupportedGame::Morrowind, &mods, &order, &[])
            .is_err(),
        "unstable rules do not contain a cycle"
    );

    assert!(
        new_stable_full_sorter()
            .topo_sort(ESupportedGame::Morrowind, &mods, &order, &[])
            .is_err(),
        "stable(false) rules do not contain a cycle"
    );

    assert!(
        new_stable_sorter()
            .topo_sort(ESupportedGame::Morrowind, &mods, &order, &[])
            .is_err(),
        "stable(true) rules do not contain a cycle"
    );
}

#[test]
fn test_ordering() {
    let order = [
        order2("b", "a"),
        order2("b", "c"),
        order2("d", "e"),
        order2("e", "c"),
        order2("test.archive", "test2.archive"),
    ];
    let mods = plugins(&["d", "e", "f", "g", "a", "b", "c"]);

    match new_unstable_sorter().topo_sort(ESupportedGame::Morrowind, &mods, &order, &[]) {
        Ok(result) => {
            assert!(check_order(&result, &order), "stable(true) order is wrong");
        }
        Err(e) => panic!("Error: {}", e),
    }

    match new_stable_full_sorter().topo_sort(ESupportedGame::Morrowind, &mods, &order, &[]) {
        Ok(result) => {
            assert!(check_order(&result, &order), "stable(true) order is wrong");
        }
        Err(e) => panic!("Error: {}", e),
    }

    match new_stable_sorter().topo_sort(ESupportedGame::Morrowind, &mods, &order, &[]) {
        Ok(result) => {
            assert!(check_order(&result, &order), "stable(true) order is wrong");
        }
        Err(e) => panic!("Error: {}", e),
    }
}
