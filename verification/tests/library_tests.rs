use plox::expressions::{Atomic, Expression, VER};
use plox::load_order::{
    filter_listed, hash_text, is_archive_extension, is_latest, is_omwscripts, is_plugin_extension,
    is_same_order, openmw_cfg_text, plugins_from_lines, redate_times, rules_downloads,
    sort_plugins_by_name, tes3_ini_text, text_less, START_TIME,
};
use plox::ordering::{get_ordering, get_ordering_from_order_rules, position_of};
use plox::parser::{get_parser, lowercase_plugins, parse_desc, parse_size, parse_ver, rules_file_names};
use plox::rules::{EOrderRule, ERule, EWarningRule, NearStart, Note, Order, Requires};
use plox::sorter::{
    finish_sort, get_graph_data, is_master_file_name, new_stable_sorter, new_unstable_sorter,
    ESortType, Sorter,
};
use plox::outcome::load_outcome;
use plox::tes3::{parse_hedr, parse_header_prefix, HeaderError};
use plox::{
    debug_get_mods_from_ordering, detect_game, get_default_rules_dir, log_level_to_str,
    ELoadStatus, ELogLevel, ESupportedGame, PluginData,
};

fn s(v: &[&str]) -> Vec<String> {
    v.iter().map(|x| x.to_string()).collect()
}

fn plugins(v: &[&str]) -> Vec<PluginData> {
    v.iter().map(|n| PluginData::new(n.to_string(), 0)).collect()
}

// ---------------------------------------------------------------- game and names

#[test]
fn game_detection_precedence() {
    assert_eq!(detect_game(true, true, true), Some(ESupportedGame::Morrowind));
    assert_eq!(detect_game(false, true, true), Some(ESupportedGame::OpenMW));
    assert_eq!(detect_game(false, false, true), Some(ESupportedGame::Cyberpunk));
    assert_eq!(detect_game(false, false, false), None);
}

#[test]
fn default_rules_dirs_and_files() {
    assert_eq!(get_default_rules_dir(ESupportedGame::Morrowind), "mlox");
    assert_eq!(get_default_rules_dir(ESupportedGame::OpenMW), "mlox");
    assert_eq!(get_default_rules_dir(ESupportedGame::Cyberpunk), "plox");
    assert_eq!(
        rules_file_names(ESupportedGame::Morrowind),
        s(&["mlox_base.txt", "mlox_user.txt", "mlox_my_rules.txt"])
    );
    assert_eq!(
        rules_file_names(ESupportedGame::Cyberpunk),
        s(&["plox_base.txt", "plox_my_rules.txt"])
    );
    assert_eq!(log_level_to_str(ELogLevel::Debug), "debug");
    assert_eq!(log_level_to_str(ELogLevel::Error), "error");
    assert_eq!(rules_downloads(ESupportedGame::Cyberpunk).len(), 0);
    let d = rules_downloads(ESupportedGame::OpenMW);
    assert_eq!(d.len(), 2);
    assert_eq!(d[0].1, "mlox_base.txt");
    assert_eq!(d[1].1, "mlox_user.txt");
}

// ---------------------------------------------------------------- ordering

#[test]
fn ordering_pairs_of_rules() {
    let rules: Vec<ERule> = vec![
        Order::new(s(&["a", "b", "c"])).into(),
        Note::new("n".into(), &[Atomic::from("x").into()]).into(),
        Order::new(s(&["d"])).into(),
    ];
    assert_eq!(
        get_ordering(&rules),
        vec![
            ("a".to_string(), "b".to_string()),
            ("a".to_string(), "c".to_string()),
            ("b".to_string(), "c".to_string()),
        ]
    );
    let order_rules: Vec<EOrderRule> = vec![
        NearStart::new(s(&["q"])).into(),
        Order::new(s(&["x", "y"])).into(),
    ];
    assert_eq!(
        get_ordering_from_order_rules(&order_rules),
        vec![("x".to_string(), "y".to_string())]
    );
    assert_eq!(position_of(&s(&["a", "b", "b"]), &"b".to_string()), Some(1));
    assert_eq!(position_of(&s(&["a"]), &"z".to_string()), None);
}

#[test]
fn mods_for_debugging_rules() {
    let order = vec![
        ("a*.esp".to_string(), "b?.esp".to_string()),
        ("c<ver>.esp".to_string(), "a*.esp".to_string()),
    ];
    let mods = debug_get_mods_from_ordering(&order);
    let names: Vec<String> = mods.iter().map(|m| m.name.clone()).collect();
    assert_eq!(names, s(&["a.esp", "bx.esp", "c1.0.esp"]));
}

// ---------------------------------------------------------------- sorting

#[test]
fn graph_of_rules_and_masters() {
    let mut mods = plugins(&["A.esm", "b.esp", "c.esp"]);
    mods[2].masters = Some(vec![("a.esm".to_string(), 0)]);
    let rules: Vec<EOrderRule> = vec![Order::new(s(&["c.esp", "b.esp"])).into()];
    let g = get_graph_data(&mods, &rules, &[]);
    assert_eq!(g.index_dict_rev, s(&["a.esm", "b.esp", "c.esp"]));
    assert_eq!(g.index_dict(&"c.esp".to_string()), Some(2));
    assert_eq!(g.index_dict(&"x.esp".to_string()), None);
    assert!(g.edges.contains(&(2, 1)));
    assert!(g.edges.contains(&(0, 2)));
    assert_eq!(g.edges.len(), 2);
}

#[test]
fn stable_sort_keeps_order_when_rules_hold() {
    let mods = plugins(&["a.esp", "b.esp", "c.esp"]);
    let rules: Vec<EOrderRule> = vec![Order::new(s(&["a.esp", "c.esp"])).into()];
    let r = new_stable_sorter()
        .topo_sort(ESupportedGame::Cyberpunk, &mods, &rules, &[])
        .expect("sorted");
    assert_eq!(r, s(&["a.esp", "b.esp", "c.esp"]));
    let r = Sorter::new(ESortType::StableFull, 2)
        .topo_sort(ESupportedGame::Cyberpunk, &mods, &rules, &[])
        .expect("sorted");
    assert_eq!(r, s(&["a.esp", "b.esp", "c.esp"]));
    // a single pass is no room to find that nothing moves
    assert!(Sorter::new(ESortType::StableOpt, 1)
        .topo_sort(ESupportedGame::Cyberpunk, &mods, &rules, &[])
        .is_err());
}

#[test]
fn sorting_without_order_rules_is_an_error() {
    let mods = plugins(&["a.esp"]);
    for mut sorter in [
        new_unstable_sorter(),
        new_stable_sorter(),
        Sorter::new(ESortType::StableFull, 10),
    ] {
        assert!(sorter
            .topo_sort(ESupportedGame::Cyberpunk, &mods, &[], &[])
            .is_err());
    }
}

#[test]
fn sorted_result_is_a_permutation_that_respects_rules() {
    let mods = plugins(&["f.esp", "E.esp", "d.esp", "c.esp", "b.esp", "a.esp"]);
    let rules: Vec<EOrderRule> = vec![
        Order::new(s(&["a.esp", "b.esp", "c.esp"])).into(),
        Order::new(s(&["e.esp", "d.esp"])).into(),
    ];
    for mut sorter in [
        new_unstable_sorter(),
        new_stable_sorter(),
        Sorter::new(ESortType::StableFull, 100),
    ] {
        let r = sorter
            .topo_sort(ESupportedGame::Cyberpunk, &mods, &rules, &[])
            .expect("sorted");
        let mut got = r.clone();
        got.sort();
        let mut want: Vec<String> = mods.iter().map(|m| m.name.clone()).collect();
        want.sort();
        assert_eq!(got, want);
        let pos = |n: &str| r.iter().position(|x| x == n).unwrap();
        assert!(pos("a.esp") < pos("b.esp"));
        assert!(pos("b.esp") < pos("c.esp"));
        assert!(pos("E.esp") < pos("d.esp"));
    }
}

#[test]
fn morrowind_masters_first() {
    assert!(is_master_file_name(&"tribunal.esm".to_string()));
    assert!(is_master_file_name(&"x.omwgame".to_string()));
    assert!(!is_master_file_name(&"x.esp".to_string()));
    let r = finish_sort(
        ESupportedGame::Morrowind,
        s(&["a.esp", "tribunal.esm", "b.esp", "morrowind.esm"]),
    );
    assert_eq!(r, s(&["morrowind.esm", "tribunal.esm", "a.esp", "b.esp"]));
    let r = finish_sort(ESupportedGame::Cyberpunk, s(&["a.esp", "b.esm"]));
    assert_eq!(r, s(&["a.esp", "b.esm"]));
}

#[test]
fn stable_sort_for_morrowind_puts_masters_first() {
    let mods = plugins(&["a.esp", "Tribunal.esm", "Morrowind.esm"]);
    let rules: Vec<EOrderRule> = vec![Order::new(s(&["tribunal.esm", "a.esp"])).into()];
    let r = new_stable_sorter()
        .topo_sort(ESupportedGame::Morrowind, &mods, &rules, &[])
        .expect("sorted");
    assert_eq!(r, s(&["Morrowind.esm", "Tribunal.esm", "a.esp"]));
}

// ---------------------------------------------------------------- parser

#[test]
fn parser_reads_files_and_evaluates() {
    let mut parser = get_parser(ESupportedGame::Morrowind);
    let base = "[Order]\na.esp\nb.esp\n[Note careful]\nb.esp\n[Requires]\nc.esp\nd.esp\n".to_string();
    let user = "[Conflict clash]\na.esp\nc.esp\n".to_string();
    parser.init(&[base, user]).expect("parsed");
    assert_eq!(parser.order_rules.len(), 1);
    assert_eq!(parser.warning_rules.len(), 3);

    let mods = plugins(&["A.esp", "b.esp", "c.esp"]);
    parser.evaluate_plugins(&mods);
    assert_eq!(parser.warnings.len(), 3);
    let names: Vec<String> = parser.warnings.iter().map(|w| w.get_rule_name()).collect();
    assert_eq!(names, s(&["Note", "Requires", "Conflict"]));
    assert_eq!(parser.warnings[0].get_comment(), "careful");
    assert_eq!(parser.warnings[0].get_plugins(), s(&["b.esp"]));
    assert_eq!(parser.warnings[2].get_plugins(), s(&["a.esp", "c.esp"]));
}

#[test]
fn lowercase_plugin_names() {
    let mods = plugins(&["A.ESP", "b.esp"]);
    let l = lowercase_plugins(&mods);
    assert_eq!(l[0].name, "a.esp");
    assert_eq!(l[1].name, "b.esp");
}

#[test]
fn expression_parts() {
    assert_eq!(
        parse_desc("!/some text/ a.esp"),
        Some(("a.esp".to_string(), "some text".to_string(), true))
    );
    assert_eq!(
        parse_size("123 a name.esp"),
        Some(("a name.esp".to_string(), 123, false))
    );
    assert_eq!(parse_size("abc a.esp"), None);
    match parse_ver("> 2.1 a.esp") {
        Some((name, op, v)) => {
            assert_eq!(name, " a.esp");
            assert_eq!(op, plox::expressions::EVerOperator::Greater);
            assert_eq!(v, "2.1.0");
        }
        None => panic!("no version"),
    }
}

#[test]
fn warning_rule_conversions() {
    let rule: EWarningRule = Requires::new("r".into(), Expression::from(Atomic::from("a.esp")), Atomic::from("b.esp").into()).into();
    let erule: ERule = rule.into();
    assert!(plox::rules::requires_rule(erule).is_some());
}

// ---------------------------------------------------------------- TES3 headers

fn hedr_bytes(description: &str, masters: &[(&str, u64)]) -> Vec<u8> {
    let mut b = Vec::new();
    b.extend_from_slice(b"HEDR");
    b.extend_from_slice(&300u32.to_le_bytes());
    b.extend_from_slice(&1.3f32.to_bits().to_le_bytes());
    b.extend_from_slice(&0u32.to_le_bytes());
    b.extend_from_slice(&[0u8; 32]);
    let mut d = [0u8; 256];
    d[..description.len()].copy_from_slice(description.as_bytes());
    b.extend_from_slice(&d);
    b.extend_from_slice(&7u32.to_le_bytes());
    for (name, size) in masters {
        b.extend_from_slice(b"MAST");
        b.extend_from_slice(&((name.len() + 1) as u32).to_le_bytes());
        b.extend_from_slice(name.as_bytes());
        b.push(0);
        b.extend_from_slice(b"DATA");
        b.extend_from_slice(&8u32.to_le_bytes());
        b.extend_from_slice(&size.to_le_bytes());
    }
    b
}

#[test]
fn header_prefix() {
    let mut p = Vec::new();
    p.extend_from_slice(b"TES3");
    p.extend_from_slice(&1234u32.to_le_bytes());
    p.extend_from_slice(&[0u8; 8]);
    assert_eq!(parse_header_prefix(&p), Ok(1234));
    assert_eq!(parse_header_prefix(b"TES"), Err(HeaderError::UnexpectedEof));
    assert_eq!(parse_header_prefix(b"TES4abcd"), Err(HeaderError::NotTes3));
    assert_eq!(parse_header_prefix(b"TES3ab"), Err(HeaderError::UnexpectedEof));
}

#[test]
fn header_record_with_masters() {
    let b = hedr_bytes("The main data file", &[("Morrowind.esm", 79837557), ("Tribunal.esm", 4565686)]);
    let h = parse_hedr(&b, b.len() as u64).expect("header");
    assert_eq!(h.version_bits, 1.3f32.to_bits());
    assert_eq!(h.description, "The main data file");
    assert_eq!(
        h.masters,
        Some(vec![
            ("Morrowind.esm".to_string(), 79837557),
            ("Tribunal.esm".to_string(), 4565686)
        ])
    );

    let b = hedr_bytes("no masters", &[]);
    let h = parse_hedr(&b, b.len() as u64).expect("header");
    assert_eq!(h.masters, None);
    assert_eq!(h.description, "no masters");

    assert!(matches!(parse_hedr(b"HEDR", 4), Err(HeaderError::UnexpectedEof)));
    assert!(matches!(parse_hedr(b"XXXXXXXX", 8), Err(HeaderError::NotTes3)));
    let mut cut = hedr_bytes("x", &[("a.esm", 1)]);
    let n = cut.len() as u64;
    cut.truncate(cut.len() - 4);
    assert!(matches!(parse_hedr(&cut, n), Err(HeaderError::UnexpectedEof)));
}

// ---------------------------------------------------------------- load order files

#[test]
fn plugin_file_kinds() {
    assert!(is_plugin_extension("ESP", false));
    assert!(is_plugin_extension("esm", false));
    assert!(!is_plugin_extension("omwaddon", false));
    assert!(is_plugin_extension("OmwAddon", true));
    assert!(is_omwscripts("My.OMWScripts"));
    assert!(!is_omwscripts("my.esp"));
    assert!(is_archive_extension("ARCHIVE"));
    assert!(!is_archive_extension("esp"));
}

#[test]
fn mod_lists() {
    let mods = plugins_from_lines(&s(&["a.archive", "b.archive"]));
    assert_eq!(mods.len(), 2);
    assert_eq!(mods[1].name, "b.archive");
    assert_eq!(mods[1].size, 0);

    let all = plugins(&["a.esp", "b.esp", "c.esp"]);
    let kept = filter_listed(&all, &s(&["c.esp", "a.esp"]));
    let names: Vec<String> = kept.iter().map(|m| m.name.clone()).collect();
    assert_eq!(names, s(&["a.esp", "c.esp"]));

    assert!(is_same_order(&plugins(&["A.esp", "b.esp"]), &s(&["a.esp", "b.esp"])));
    assert!(!is_same_order(&plugins(&["b.esp", "a.esp"]), &s(&["a.esp", "b.esp"])));
}

#[test]
fn ini_and_cfg_texts() {
    let ini = s(&["[General]", "x=1", "[Game Files]", "GameFile0=old.esp", "[Other]"]);
    assert_eq!(
        tes3_ini_text(&ini, &s(&["Morrowind.esm", "a.esp"])),
        "[General]\nx=1\n[Other]\n[Game Files]\nGameFile0=Morrowind.esm\nGameFile1=a.esp\n"
    );
    let cfg = s(&["data=\"x\"", "content=old.esp", "fallback=y"]);
    assert_eq!(
        openmw_cfg_text(&cfg, &s(&["a.esp", "b.omwaddon"])),
        "data=\"x\"\nfallback=y\ncontent=a.esp\ncontent=b.omwaddon\n"
    );
}

#[test]
fn file_times_follow_the_order() {
    let t = redate_times(&s(&["Morrowind.esm", "a.esp", "Bloodmoon.esm", "b.esp"]));
    assert_eq!(
        t,
        vec![1024695106, 1024695166, 1051807050, 1051807110]
    );
    let t = redate_times(&s(&["a.esp", "b.esp"]));
    assert_eq!(t, vec![START_TIME + 60, START_TIME + 120]);
}

#[test]
fn download_hashes() {
    let body = b"some rules";
    let h = hash_text(body);
    assert_eq!(h, seahash::hash(body).to_string());
    assert_ne!(h, "some rules");
    assert!(is_latest(h.as_bytes(), body));
    assert!(!is_latest(h.as_bytes(), b"other rules"));
    assert!(!is_latest(b"not a number", body));
}

#[test]
fn names_in_string_order() {
    assert!(text_less("a", "b"));
    assert!(text_less("a", "ab"));
    assert!(!text_less("b", "a"));
    assert!(!text_less("a", "a"));
    assert!(text_less("B", "a"));
    let sorted = sort_plugins_by_name(plugins(&["c.esp", "a.esp", "b.esp", "a.esp"]));
    let names: Vec<String> = sorted.iter().map(|m| m.name.clone()).collect();
    assert_eq!(names, s(&["a.esp", "a.esp", "b.esp", "c.esp"]));
}

// ---------------------------------------------------------------- loading outcome

#[test]
fn loading_stops_at_conflicts_unless_ignored() {
    let mut parser = get_parser(ESupportedGame::Cyberpunk);
    let rules = "[Order]\nb.archive\na.archive\n[Conflict clash]\na.archive\nb.archive\n[Note hi]\nb.archive\n".to_string();
    parser.init(&[rules]).expect("parsed");
    let mods = plugins(&["a.archive", "b.archive"]);
    parser.evaluate_plugins(&mods);
    assert_eq!(parser.warnings.len(), 2);

    let warnings = std::mem::take(&mut parser.warnings);
    let d = load_outcome(
        ESupportedGame::Cyberpunk,
        &mods,
        warnings,
        &parser.order_rules,
        &parser.warning_rules,
        false,
    )
    .expect("outcome");
    assert_eq!(d.status, ELoadStatus::Conflicts);
    assert_eq!(d.new_order, s(&["a.archive", "b.archive"]));
    assert_eq!(d.old_order, s(&["a.archive", "b.archive"]));
    assert_eq!(
        d.plugin_warning_map,
        vec![
            ("a.archive".to_string(), 0),
            ("b.archive".to_string(), 0),
            ("b.archive".to_string(), 1)
        ]
    );

    parser.evaluate_plugins(&mods);
    let warnings = std::mem::take(&mut parser.warnings);
    let d = load_outcome(
        ESupportedGame::Cyberpunk,
        &mods,
        warnings,
        &parser.order_rules,
        &parser.warning_rules,
        true,
    )
    .expect("outcome");
    assert_eq!(d.status, ELoadStatus::Success);
    assert_eq!(d.new_order, s(&["b.archive", "a.archive"]));
}

#[test]
fn loading_reports_a_cycle() {
    let mods = plugins(&["a.esp", "b.esp"]);
    let rules: Vec<EOrderRule> = vec![
        Order::new(s(&["a.esp", "b.esp"])).into(),
        Order::new(s(&["b.esp", "a.esp"])).into(),
    ];
    let d = load_outcome(ESupportedGame::Morrowind, &mods, vec![], &rules, &[], false)
        .expect("outcome");
    assert_eq!(d.status, ELoadStatus::Cycle);
    assert_eq!(d.new_order, s(&["a.esp", "b.esp"]));

    let d = load_outcome(ESupportedGame::Morrowind, &mods, vec![], &[], &[], false)
        .expect("outcome");
    assert_eq!(d.status, ELoadStatus::Success);
}

#[test]
fn evaluation_checks_ver_versions_first() {
    let mut parser = get_parser(ESupportedGame::Morrowind);
    let rule: EWarningRule = Note::new(
        "n".into(),
        &[VER::new(
            Atomic::from("a.esp"),
            plox::expressions::EVerOperator::Less,
            "not a version".to_string(),
        )
        .into()],
    )
    .into();
    parser.warning_rules.push(rule);
    let mut mods = plugins(&["a.esp"]);
    mods[0].version = Some("1.0.0".to_string());
    assert!(!parser.try_evaluate_plugins(&mods));
    assert_eq!(parser.warnings.len(), 0);

    let mut parser = get_parser(ESupportedGame::Morrowind);
    parser
        .init(&["[Note n]\n[ver < 2.0 a.esp]\n".to_string()])
        .expect("parsed");
    assert!(parser.try_evaluate_plugins(&mods));
    assert_eq!(parser.warnings.len(), 1);
}

#[test]
fn sorted_result_holds_each_plugin_once() {
    let mods = plugins(&["c.esp", "B.esp", "a.esp", "d.esp"]);
    let rules: Vec<EOrderRule> = vec![Order::new(s(&["a.esp", "b.esp", "c.esp"])).into()];
    for mut sorter in [new_unstable_sorter(), new_stable_sorter()] {
        let mut r = sorter
            .topo_sort(ESupportedGame::Morrowind, &mods, &rules, &[])
            .expect("sorted");
        r.sort();
        assert_eq!(r, s(&["B.esp", "a.esp", "c.esp", "d.esp"]));
    }
}

#[test]
fn graph_edges_are_unique() {
    let mods = plugins(&["a.esp", "b.esp"]);
    let rules: Vec<EOrderRule> = vec![
        Order::new(s(&["a.esp", "b.esp"])).into(),
        Order::new(s(&["a.esp", "b.esp"])).into(),
        Order::new(s(&["a.esp", "a.esp"])).into(),
    ];
    let g = get_graph_data(&mods, &rules, &[]);
    assert_eq!(g.edges, vec![(0, 1)]);
}

#[test]
fn plugin_data_and_names_agree() {
    let mods = plugins(&["a1.esp", "b.esp", "a2.esp"]);
    let names: Vec<String> = mods.iter().map(|m| m.name.clone()).collect();
    for p in ["a?.esp", "b.esp", "x.esp", "*.esp"] {
        let p = p.to_string();
        let by_data = plox::wild_contains_data(&mods, &p)
            .map(|v| v.iter().map(|m| m.name.clone()).collect::<Vec<_>>());
        assert_eq!(by_data, plox::wild_contains(&names, &p));
    }
}

// ---------------------------------------------------------------- later additions

#[test]
fn full_and_edge_checking_sorts_can_part() {
    let mods = plugins(&["a.esp", "b.esp", "c.esp", "d.esp", "e.esp"]);
    let rules: Vec<EOrderRule> = vec![
        Order::new(s(&["e.esp", "a.esp"])).into(),
        Order::new(s(&["e.esp", "d.esp"])).into(),
        Order::new(s(&["d.esp", "a.esp"])).into(),
        Order::new(s(&["b.esp", "d.esp"])).into(),
    ];
    let full = Sorter::new(ESortType::StableFull, 1000)
        .topo_sort(ESupportedGame::Cyberpunk, &mods, &rules, &[])
        .expect("sorted");
    let opt = new_stable_sorter()
        .topo_sort(ESupportedGame::Cyberpunk, &mods, &rules, &[])
        .expect("sorted");
    assert!(plox::ordering::check_order(&full, &rules));
    assert!(plox::ordering::check_order(&opt, &rules));
    assert_eq!(full, s(&["b.esp", "e.esp", "d.esp", "a.esp", "c.esp"]));
    assert_eq!(opt, s(&["e.esp", "b.esp", "d.esp", "a.esp", "c.esp"]));
}

#[test]
fn atomic_from_borrowed_and_owned_text() {
    assert_eq!(Atomic::from("a.esp").get_item(), "a.esp".to_string());
    assert_eq!(Atomic::from("a.esp".to_string()).get_item(), "a.esp".to_string());
    let a: Atomic = "B.esm".into();
    assert_eq!(a.get_item(), "B.esm");
}

#[test]
fn lowercase_of_ascii_names() {
    assert_eq!(plox::text::to_lowercase("AbC.ESP"), "abc.esp");
    assert_eq!(plox::text::to_lowercase("x-1_Y.esm"), "x-1_y.esm");
}

#[test]
fn parsed_warning_rules_start_without_plugins() {
    let mut parser = get_parser(ESupportedGame::Morrowind);
    parser
        .init(&["[Note n]\na.esp\n[Requires]\nb.esp\nc.esp\n".to_string()])
        .expect("parsed");
    assert_eq!(parser.warning_rules.len(), 2);
    for w in parser.warning_rules.iter() {
        assert!(w.get_plugins().is_empty());
    }
    parser
        .init_from_file("[Conflict]\na.esp\nb.esp\n")
        .expect("parsed");
    assert_eq!(parser.warning_rules.len(), 3);
    assert!(parser.warning_rules[2].get_plugins().is_empty());
}

#[test]
fn mixed_case_names_sort_by_their_lowercase() {
    let mods = plugins(&["C.esp", "b.ESP", "A.esp"]);
    let rules: Vec<EOrderRule> = vec![Order::new(s(&["a.esp", "b.esp", "c.esp"])).into()];
    for mut sorter in [
        new_unstable_sorter(),
        new_stable_sorter(),
        Sorter::new(ESortType::StableFull, 100),
    ] {
        let r = sorter
            .topo_sort(ESupportedGame::Cyberpunk, &mods, &rules, &[])
            .expect("sorted");
        assert_eq!(r, s(&["A.esp", "b.ESP", "C.esp"]));
        let lower: Vec<String> = r.iter().map(|x| x.to_lowercase()).collect();
        assert!(plox::ordering::check_order(&lower, &rules));
    }
}

#[test]
fn redating_keeps_fixed_times_and_steps_a_minute() {
    let t = redate_times(&s(&["Tribunal.esm", "x.esp"]));
    assert_eq!(t, vec![1035940926, 1035940926 + 60]);
}
