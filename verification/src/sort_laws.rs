//! What a sorted load order promises of the order rules: every plugin that the first
//! name of an ordering pair refers to comes no later than every plugin that the second
//! refers to.
use vstd::prelude::*;

use crate::ordering::{lemma_position_bounds, order_followed, ordering_of, pair_followed, position};
use crate::rules::EOrderRule;
use crate::sorter::{
    all_named, edges_between, finish_order, is_master_file, masters_first, morrowind_first, names_back, edges_from, edges_to, follows_edges, graph_edges, is_node_order,
    last_index, lc_names, lemma_last_index, lemma_stable_order, master_edges_of, masters_edges, node,
    order_edges, push_unique, respects, stable_order, ESortType,
};
use crate::sorter::{
    breaks, full_pass, lemma_sort_by_first, near_end, near_start, nearend_names, nearstart_names,
    opt_pass, scan, sort_by_first, sort_loop, sort_pass, violation,
};
use crate::wildcard::{is_wild, wild_contains_spec, wild_regex};
use crate::text::lowercase;
use crate::{ESupportedGame, PluginView};

verus! {

/// Every edge of `a` is an edge of `b`.
pub open spec fn keeps(a: Seq<(usize, usize)>, b: Seq<(usize, usize)>) -> bool {
    forall|e: (usize, usize)| #[trigger] a.contains(e) ==> b.contains(e)
}

/// The edges hold one from each plugin that `a` refers to, to each other plugin that
/// `b` refers to.
pub open spec fn pair_edges(
    names: Seq<Seq<char>>,
    es: Seq<(usize, usize)>,
    a: Seq<char>,
    b: Seq<char>,
) -> bool {
    match (wild_contains_spec(names, a), wild_contains_spec(names, b)) {
        (Some(ra), Some(rb)) => forall|i: Seq<char>, j: Seq<char>|
            #![trigger ra.contains(i), rb.contains(j)]
            ra.contains(i) && rb.contains(j) && i != j ==> es.contains((node(names, i), node(names, j))),
        _ => true,
    }
}

proof fn lemma_push_unique_keeps(es: Seq<(usize, usize)>, e: (usize, usize))
    ensures
        keeps(es, push_unique(es, e)),
        push_unique(es, e).contains(e),
{
    if !es.contains(e) {
        let r = es.push(e);
        assert(r[es.len() as int] == e);
        assert forall|x: (usize, usize)| #[trigger] es.contains(x) implies r.contains(x) by {
            let k = choose|k: int| 0 <= k < es.len() && es[k] == x;
            assert(r[k] == x);
        }
    }
}

proof fn lemma_drop_last_contains(s: Seq<Seq<char>>, x: Seq<char>)
    requires
        s.len() > 0,
        s.contains(x),
        x != s.last(),
    ensures
        s.drop_last().contains(x),
{
    let k = choose|k: int| 0 <= k < s.len() && s[k] == x;
    assert(k != s.len() - 1);
    assert(s.drop_last()[k] == x);
}

proof fn lemma_edges_from(es: Seq<(usize, usize)>, names: Seq<Seq<char>>, i: Seq<char>, rb: Seq<Seq<char>>)
    ensures
        keeps(es, edges_from(es, names, i, rb)),
        forall|j: Seq<char>|
            #[trigger] rb.contains(j) && j != i ==> edges_from(es, names, i, rb).contains(
                (node(names, i), node(names, j)),
            ),
    decreases rb.len(),
{
    if rb.len() > 0 {
        let d = rb.drop_last();
        let prev = edges_from(es, names, i, d);
        lemma_edges_from(es, names, i, d);
        let r = edges_from(es, names, i, rb);
        if i != rb.last() {
            lemma_push_unique_keeps(prev, (node(names, i), node(names, rb.last())));
        }
        assert forall|j: Seq<char>| #[trigger] rb.contains(j) && j != i implies r.contains(
            (node(names, i), node(names, j)),
        ) by {
            if j != rb.last() {
                lemma_drop_last_contains(rb, j);
            }
        }
    }
}

proof fn lemma_edges_between(
    es: Seq<(usize, usize)>,
    names: Seq<Seq<char>>,
    ra: Seq<Seq<char>>,
    rb: Seq<Seq<char>>,
)
    ensures
        keeps(es, edges_between(es, names, ra, rb)),
        forall|i: Seq<char>, j: Seq<char>|
            #![trigger ra.contains(i), rb.contains(j)]
            ra.contains(i) && rb.contains(j) && i != j ==> edges_between(es, names, ra, rb).contains(
                (node(names, i), node(names, j)),
            ),
    decreases ra.len(),
{
    if ra.len() > 0 {
        let d = ra.drop_last();
        let prev = edges_between(es, names, d, rb);
        lemma_edges_between(es, names, d, rb);
        lemma_edges_from(prev, names, ra.last(), rb);
        let r = edges_between(es, names, ra, rb);
        assert forall|i: Seq<char>, j: Seq<char>|
            #![trigger ra.contains(i), rb.contains(j)]
            ra.contains(i) && rb.contains(j) && i != j implies r.contains(
                (node(names, i), node(names, j)),
            ) by {
            if i != ra.last() {
                lemma_drop_last_contains(ra, i);
                assert(d.contains(i) && rb.contains(j));
                assert(prev.contains((node(names, i), node(names, j))));
            }
        }
    }
}

proof fn lemma_pair_edges_keep(
    names: Seq<Seq<char>>,
    a: Seq<(usize, usize)>,
    b: Seq<(usize, usize)>,
    x: Seq<char>,
    y: Seq<char>,
)
    requires
        keeps(a, b),
        pair_edges(names, a, x, y),
    ensures
        pair_edges(names, b, x, y),
{
}

proof fn lemma_order_edges(names: Seq<Seq<char>>, pairs: Seq<(Seq<char>, Seq<char>)>)
    ensures
        forall|k: int|
            0 <= k < pairs.len() ==> pair_edges(
                names,
                order_edges(names, pairs),
                (#[trigger] pairs[k]).0,
                pairs[k].1,
            ),
    decreases pairs.len(),
{
    if pairs.len() > 0 {
        let d = pairs.drop_last();
        let prev = order_edges(names, d);
        let r = order_edges(names, pairs);
        lemma_order_edges(names, d);
        let ra = wild_contains_spec(names, pairs.last().0);
        let rb = wild_contains_spec(names, pairs.last().1);
        if ra is Some && rb is Some {
            lemma_edges_between(prev, names, ra->0, rb->0);
        }
        assert(keeps(prev, r));
        assert forall|k: int| 0 <= k < pairs.len() implies pair_edges(
            names,
            r,
            (#[trigger] pairs[k]).0,
            pairs[k].1,
        ) by {
            if k < pairs.len() - 1 {
                assert(d[k] == pairs[k]);
                lemma_pair_edges_keep(names, prev, r, pairs[k].0, pairs[k].1);
            }
        }
    }
}

proof fn lemma_edges_to_keeps(es: Seq<(usize, usize)>, names: Seq<Seq<char>>, target: usize, rs: Seq<Seq<char>>)
    ensures
        keeps(es, edges_to(es, names, target, rs)),
    decreases rs.len(),
{
    if rs.len() > 0 {
        let prev = edges_to(es, names, target, rs.drop_last());
        lemma_edges_to_keeps(es, names, target, rs.drop_last());
        lemma_push_unique_keeps(prev, (node(names, rs.last()), target));
    }
}

proof fn lemma_master_edges_keeps(
    es: Seq<(usize, usize)>,
    names: Seq<Seq<char>>,
    target: usize,
    masters: Seq<(Seq<char>, u64)>,
)
    ensures
        keeps(es, master_edges_of(es, names, target, masters)),
    decreases masters.len(),
{
    if masters.len() > 0 {
        let prev = master_edges_of(es, names, target, masters.drop_last());
        lemma_master_edges_keeps(es, names, target, masters.drop_last());
        let rs = wild_contains_spec(names, crate::text::lowercase(masters.last().0));
        if rs is Some {
            lemma_edges_to_keeps(prev, names, target, rs->0);
        }
    }
}

proof fn lemma_masters_edges_keeps(es: Seq<(usize, usize)>, names: Seq<Seq<char>>, plugins: Seq<PluginView>)
    ensures
        keeps(es, masters_edges(es, names, plugins)),
    decreases plugins.len(),
{
    if plugins.len() > 0 {
        let prev = masters_edges(es, names, plugins.drop_last());
        lemma_masters_edges_keeps(es, names, plugins.drop_last());
        let p = plugins.last();
        if p.masters is Some {
            lemma_master_edges_keeps(
                prev,
                names,
                node(names, crate::text::lowercase(p.name)),
                p.masters->0,
            );
        }
    }
}

/// What a name refers to among some of the names, it refers to among all of them.
proof fn lemma_wild_subset(m: Seq<Seq<char>>, names: Seq<Seq<char>>, a: Seq<char>)
    requires
        all_named(names, m),
        wild_contains_spec(m, a) is Some,
    ensures
        wild_contains_spec(names, a) is Some,
        forall|x: Seq<char>|
            #[trigger] wild_contains_spec(m, a)->0.contains(x) ==> wild_contains_spec(names, a)->0.contains(x),
{
    let rm = wild_contains_spec(m, a)->0;
    if is_wild(a) {
        let pred = |x: Seq<char>| crate::wildcard::regex_is_match(wild_regex(a), x);
        assert(rm == m.filter(pred));
        broadcast use vstd::seq_lib::group_filter_ensures;

        assert forall|x: Seq<char>| #[trigger] rm.contains(x) implies names.filter(pred).contains(x) by {
            m.lemma_filter_contains_rev(pred, x);
            let i = choose|i: int| 0 <= i < rm.len() && rm[i] == x;
            assert(pred(rm[i]));
            let k = choose|k: int| 0 <= k < m.len() && m[k] == x;
            assert(names.contains(m[k]));
            let j = choose|j: int| 0 <= j < names.len() && names[j] == x;
            assert(pred(names[j]));
        }
        assert(rm.contains(rm[0]));
        assert(names.filter(pred).contains(rm[0]));
    } else {
        assert(m.contains(a));
        let k = choose|k: int| 0 <= k < m.len() && m[k] == a;
        assert(names.contains(m[k]));
        assert forall|x: Seq<char>| #[trigger] rm.contains(x) implies wild_contains_spec(names, a)->0.contains(
            x,
        ) by {
            assert(wild_contains_spec(names, a)->0[0] == a);
        }
    }
}

/// An order of the names that puts the first plugin of each edge of the graph no later
/// than the second follows every ordering pair of the rules.
proof fn lemma_respects_followed(plugins: Seq<PluginView>, rules: Seq<EOrderRule>, m: Seq<Seq<char>>)
    requires
        plugins.len() <= usize::MAX,
        respects(graph_edges(plugins, rules), lc_names(plugins), m),
        all_named(lc_names(plugins), m),
    ensures
        order_followed(m, rules),
{
    let names = lc_names(plugins);
    let pairs = ordering_of(rules);
    let oe = order_edges(names, pairs);
    let es = graph_edges(plugins, rules);
    lemma_order_edges(names, pairs);
    lemma_masters_edges_keeps(oe, names, plugins);
    assert forall|k: int| 0 <= k < pairs.len() implies pair_followed(
        m,
        (#[trigger] pairs[k]).0,
        pairs[k].1,
    ) by {
        let a = pairs[k].0;
        let b = pairs[k].1;
        assert(pair_edges(names, oe, a, b));
        lemma_pair_edges_keep(names, oe, es, a, b);
        if wild_contains_spec(m, a) is Some && wild_contains_spec(m, b) is Some {
            let rma = wild_contains_spec(m, a)->0;
            let rmb = wild_contains_spec(m, b)->0;
            lemma_wild_subset(m, names, a);
            lemma_wild_subset(m, names, b);
            let rna = wild_contains_spec(names, a)->0;
            let rnb = wild_contains_spec(names, b)->0;
            assert forall|x: int, y: int|
                0 <= x < rma.len() && 0 <= y < rmb.len() implies position(m, #[trigger] rma[x])
                <= position(m, #[trigger] rmb[y]) by {
                let p = rma[x];
                let q = rmb[y];
                if p != q {
                    assert(rma.contains(p));
                    assert(rmb.contains(q));
                    assert(rna.contains(p));
                    assert(rnb.contains(q));
                    assert(es.contains((node(names, p), node(names, q))));
                    let e = choose|e: int| 0 <= e < es.len() && es[e] == (node(names, p), node(names, q));
                    assert(position(m, names[es[e].0 as int]) <= position(m, names[es[e].1 as int]));
                    let ip = choose|i: int| 0 <= i < rna.len() && rna[i] == p;
                    let iq = choose|i: int| 0 <= i < rnb.len() && rnb[i] == q;
                    crate::ordering::lemma_wild_in_list(names, a, rna);
                    crate::ordering::lemma_wild_in_list(names, b, rnb);
                    assert(names.contains(rna[ip]));
                    assert(names.contains(rnb[iq]));
                    lemma_last_index(names, p);
                    lemma_last_index(names, q);
                    assert(node(names, p) as int == last_index(names, p));
                    assert(node(names, q) as int == last_index(names, q));
                    assert(names[es[e].0 as int] == p);
                    assert(names[es[e].1 as int] == q);
                }
            }
        }
    }
}

/// Law: the order that the stable sort reaches follows every ordering pair of the
/// rules: each plugin that the first name refers to comes no later than each plugin
/// that the second refers to.
pub proof fn lemma_stable_order_follows_rules(
    sort_type: ESortType,
    max_iterations: usize,
    plugins: Seq<PluginView>,
    rules: Seq<EOrderRule>,
)
    requires
        sort_type != ESortType::Unstable,
        plugins.len() <= usize::MAX,
    ensures
        stable_order(sort_type, max_iterations, plugins, rules) matches Some(m) ==> order_followed(
            m,
            rules,
        ),
{
    broadcast use vstd::seq_lib::group_to_multiset_ensures;

    lemma_stable_order(sort_type, max_iterations, plugins, rules);
    if let Some(m) = stable_order(sort_type, max_iterations, plugins, rules) {
        let names = lc_names(plugins);
        assert forall|k: int| 0 <= k < m.len() implies names.contains(#[trigger] m[k]) by {
            assert(m.contains(m[k]));
            assert(m.to_multiset().count(m[k]) > 0);
            assert(names.to_multiset().count(m[k]) > 0);
        }
        lemma_respects_followed(plugins, rules, m);
    }
}

/// The lowercase names of an order of the nodes.
pub open spec fn node_names(v: Seq<usize>, names: Seq<Seq<char>>) -> Seq<Seq<char>> {
    v.map_values(|i: usize| names[i as int])
}

/// Law: an order of the nodes that follows the edges of the graph, with no two plugins
/// of the same lowercase name, follows every ordering pair of the rules.
pub proof fn lemma_node_order_follows_rules(
    plugins: Seq<PluginView>,
    rules: Seq<EOrderRule>,
    v: Seq<usize>,
)
    requires
        plugins.len() <= usize::MAX,
        is_node_order(v, plugins.len() as int),
        follows_edges(v, graph_edges(plugins, rules)),
        lc_names(plugins).no_duplicates(),
    ensures
        order_followed(node_names(v, lc_names(plugins)), rules),
{
    let names = lc_names(plugins);
    let m = node_names(v, names);
    let es = graph_edges(plugins, rules);
    crate::sorter::lemma_graph_edges_canonical(plugins, rules);
    assert forall|k: int| 0 <= k < m.len() implies names.contains(#[trigger] m[k]) by {
        assert(names[v[k] as int] == m[k]);
    }
    assert forall|k: int| 0 <= k < es.len() implies position(m, names[(#[trigger] es[k]).0 as int])
        <= position(m, names[es[k].1 as int]) by {
        let a = es[k].0;
        let b = es[k].1;
        assert(v.contains(a));
        assert(v.contains(b));
        let i = choose|i: int| 0 <= i < v.len() && v[i] == a;
        let j = choose|j: int| 0 <= j < v.len() && v[j] == b;
        lemma_node_position(v, names, i);
        lemma_node_position(v, names, j);
        if i != j {
            assert(i < j);
        }
    }
    lemma_respects_followed(plugins, rules, m);
}

/// With distinct names, the name of the node at `i` is first found at `i`.
proof fn lemma_node_position(v: Seq<usize>, names: Seq<Seq<char>>, i: int)
    requires
        is_node_order(v, names.len() as int),
        names.no_duplicates(),
        0 <= i < v.len(),
    ensures
        position(node_names(v, names), names[v[i] as int]) == i,
{
    let m = node_names(v, names);
    assert forall|k: int| 0 <= k < i implies m[k] != names[v[i] as int] by {
        assert(v[k] != v[i]);
        assert(v[k] < names.len());
    }
    crate::ordering::lemma_position(m, names[v[i] as int], i);
}

/// Every plugin's name is already in lowercase.
pub open spec fn lowercase_named(plugins: Seq<PluginView>) -> bool {
    forall|k: int| 0 <= k < plugins.len() ==> lowercase(#[trigger] plugins[k].name) == plugins[k].name
}

/// No plugin is a master file.
pub open spec fn no_master_files(plugins: Seq<PluginView>) -> bool {
    forall|k: int| 0 <= k < plugins.len() ==> !is_master_file(lowercase(#[trigger] plugins[k].name))
}

proof fn lemma_filter_all(s: Seq<Seq<char>>, p: spec_fn(Seq<char>) -> bool)
    requires
        forall|i: int| 0 <= i < s.len() ==> p(#[trigger] s[i]),
    ensures
        s.filter(p) == s,
    decreases s.len(),
{
    reveal_with_fuel(Seq::<_>::filter, 1);
    if s.len() > 0 {
        let d = s.drop_last();
        assert forall|i: int| 0 <= i < d.len() implies p(#[trigger] d[i]) by {
            assert(d[i] == s[i]);
        }
        lemma_filter_all(d, p);
        assert(p(s[s.len() - 1]));
        assert(d.push(s.last()) =~= s);
    } else {
        assert(s.filter(p) =~= s);
    }
}

proof fn lemma_filter_none(s: Seq<Seq<char>>, p: spec_fn(Seq<char>) -> bool)
    requires
        forall|i: int| 0 <= i < s.len() ==> !p(#[trigger] s[i]),
    ensures
        s.filter(p) == Seq::<Seq<char>>::empty(),
    decreases s.len(),
{
    reveal_with_fuel(Seq::<_>::filter, 1);
    if s.len() > 0 {
        let d = s.drop_last();
        assert forall|i: int| 0 <= i < d.len() implies !p(#[trigger] d[i]) by {
            assert(d[i] == s[i]);
        }
        lemma_filter_none(d, p);
        assert(!p(s[s.len() - 1]));
    } else {
        assert(s.filter(p) =~= Seq::<Seq<char>>::empty());
    }
}

/// Where the names are the plugins' own and no master file is moved, the last step of
/// the stable sort gives back the order it reached.
pub proof fn lemma_finish_unchanged(game: ESupportedGame, plugins: Seq<PluginView>, m: Seq<Seq<char>>)
    requires
        lowercase_named(plugins),
        all_named(lc_names(plugins), m),
        game == ESupportedGame::Cyberpunk || no_master_files(plugins),
    ensures
        names_back(plugins, finish_order(game, m)) == m,
{
    lemma_finish_moves_nothing(game, plugins, m);
    lemma_names_back_same(plugins, m);
}

proof fn lemma_names_back_same(plugins: Seq<PluginView>, m: Seq<Seq<char>>)
    requires
        lowercase_named(plugins),
        all_named(lc_names(plugins), m),
    ensures
        names_back(plugins, m) == m,
{
    let names = lc_names(plugins);
    assert forall|i: int| 0 <= i < m.len() implies #[trigger] names_back(plugins, m)[i] == m[i] by {
        let x = m[i];
        assert(names.contains(x));
        lemma_last_index(names, x);
        let li = last_index(names, x);
        assert(names[li] == lowercase(plugins[li].name));
        assert(lowercase(plugins[li].name) == plugins[li].name);
    }
    assert(names_back(plugins, m) =~= m);
}

/// Where no master file is moved, the last step of the stable sort moves nothing.
pub proof fn lemma_finish_moves_nothing(game: ESupportedGame, plugins: Seq<PluginView>, m: Seq<Seq<char>>)
    requires
        all_named(lc_names(plugins), m),
        game == ESupportedGame::Cyberpunk || no_master_files(plugins),
    ensures
        finish_order(game, m) == m,
{
    let names = lc_names(plugins);
    if game != ESupportedGame::Cyberpunk {
        assert forall|i: int| 0 <= i < m.len() implies !is_master_file(#[trigger] m[i]) by {
            assert(names.contains(m[i]));
            let k = choose|k: int| 0 <= k < names.len() && names[k] == m[i];
            assert(names[k] == lowercase(plugins[k].name));
        }
        lemma_filter_none(m, |x: Seq<char>| is_master_file(x));
        lemma_filter_all(m, |x: Seq<char>| !is_master_file(x));
        assert(masters_first(m) =~= m);
        assert(!m.contains("morrowind.esm"@)) by {
            reveal_strlit("morrowind.esm");
            reveal_strlit(".esm");
            assert(crate::text::ends_with("morrowind.esm"@, ".esm"@)) by {
                assert("morrowind.esm"@.subrange(9, 13) =~= ".esm"@);
            }
            if m.contains("morrowind.esm"@) {
                let i = choose|i: int| 0 <= i < m.len() && m[i] == "morrowind.esm"@;
                assert(!is_master_file(m[i]));
            }
        }
        assert(morrowind_first(m) == m);
    }
}

/// Each name in lowercase.
pub open spec fn lower_all(s: Seq<Seq<char>>) -> Seq<Seq<char>> {
    s.map_values(|x: Seq<char>| lowercase(x))
}

/// The plugins' own names for lowercase names give those names back in lowercase.
pub proof fn lemma_lower_names_back(plugins: Seq<PluginView>, m: Seq<Seq<char>>)
    requires
        all_named(lc_names(plugins), m),
    ensures
        lower_all(names_back(plugins, m)) == m,
{
    let names = lc_names(plugins);
    assert forall|i: int| 0 <= i < m.len() implies #[trigger] lower_all(names_back(plugins, m))[i] == m[i] by {
        let x = m[i];
        assert(names.contains(x));
        lemma_last_index(names, x);
        let li = last_index(names, x);
        assert(names[li] == lowercase(plugins[li].name));
    }
    assert(lower_all(names_back(plugins, m)) =~= m);
}

/// An edge-checking pass over edges that the order already respects moves nothing.
proof fn lemma_opt_pass_still(
    es: Seq<(usize, usize)>,
    names: Seq<Seq<char>>,
    mods: Seq<Seq<char>>,
    last: usize,
)
    requires
        respects(es, names, mods),
    ensures
        opt_pass(es, names, mods, last) == (mods, false, last),
    decreases es.len(),
{
    if es.len() > 0 {
        let d = es.drop_last();
        assert(respects(d, names, mods)) by {
            assert forall|k: int| 0 <= k < d.len() implies position(
                mods,
                names[(#[trigger] d[k]).0 as int],
            ) <= position(mods, names[d[k].1 as int]) by {
                assert(d[k] == es[k]);
            }
        }
        lemma_opt_pass_still(d, names, mods, last);
        assert(es[es.len() - 1] == es.last());
        assert(!breaks(es, names, mods, es.last()));
    }
}

/// With distinct names, the full sort's scan finds no plugin that must go before an
/// earlier one where the order already respects the edges.
proof fn lemma_scan_none(
    n: int,
    es: Seq<(usize, usize)>,
    names: Seq<Seq<char>>,
    i: int,
    j: int,
)
    requires
        respects(es, names, names),
        names.no_duplicates(),
        n <= names.len(),
        names.len() <= usize::MAX,
        0 <= j,
    ensures
        scan(n, es, names, names, i, j) is None,
    decreases n - i, i - j,
{
    if i >= n || j < 0 || i < 0 {
    } else if j >= i {
        lemma_scan_none(n, es, names, i + 1, 0);
    } else {
        if violation(es, names, names, i, j) {
            let e = (node(names, names[i]), node(names, names[j]));
            let k = choose|k: int| 0 <= k < es.len() && es[k] == e;
            assert(names.contains(names[i]));
            assert(names.contains(names[j]));
            lemma_last_index(names, names[i]);
            lemma_last_index(names, names[j]);
            assert(node(names, names[i]) as int == last_index(names, names[i]));
            assert(node(names, names[j]) as int == last_index(names, names[j]));
            assert(names[es[k].0 as int] == names[i]);
            assert(names[es[k].1 as int] == names[j]);
            lemma_distinct_position(names, i);
            lemma_distinct_position(names, j);
            assert(false);
        }
        lemma_scan_none(n, es, names, i, j + 1);
    }
}

proof fn lemma_distinct_position(names: Seq<Seq<char>>, i: int)
    requires
        names.no_duplicates(),
        0 <= i < names.len(),
    ensures
        position(names, names[i]) == i,
{
    assert forall|k: int| 0 <= k < i implies names[k] != names[i] by {}
    crate::ordering::lemma_position(names, names[i], i);
}

/// Law: the stable sort leaves a load order as it is where no [NearStart] or [NearEnd]
/// rule moves plugins and the order already puts the first plugin of every edge of the
/// graph no later than the second (for the full sort, with no two plugins of the same
/// lowercase name).
pub proof fn lemma_stable_keeps_sorted(
    sort_type: ESortType,
    max_iterations: usize,
    plugins: Seq<PluginView>,
    rules: Seq<EOrderRule>,
)
    requires
        sort_type != ESortType::Unstable,
        max_iterations >= 2,
        plugins.len() <= usize::MAX,
        nearstart_names(rules).len() == 0,
        nearend_names(rules).len() == 0,
        respects(graph_edges(plugins, rules), lc_names(plugins), lc_names(plugins)),
        sort_type == ESortType::StableFull ==> lc_names(plugins).no_duplicates(),
    ensures
        stable_order(sort_type, max_iterations, plugins, rules) == Some(lc_names(plugins)),
{
    let names = lc_names(plugins);
    let es = graph_edges(plugins, rules);
    let sorted = sort_by_first(es);
    lemma_sort_by_first(es);
    assert(respects(sorted, names, names)) by {
        assert forall|k: int| 0 <= k < sorted.len() implies position(
            names,
            names[(#[trigger] sorted[k]).0 as int],
        ) <= position(names, names[sorted[k].1 as int]) by {
            assert(sorted.contains(sorted[k]));
            let m = choose|m: int| 0 <= m < es.len() && es[m] == sorted[k];
            assert(position(names, names[es[m].0 as int]) <= position(names, names[es[m].1 as int]));
        }
    }
    assert(near_start(names, nearstart_names(rules)) == names);
    assert(near_end(names, nearend_names(rules)) == names);
    let n = plugins.len() as int;
    if sort_type == ESortType::StableFull {
        lemma_scan_none(n, sorted, names, 0, 0);
        assert(full_pass(n, sorted, names, names, 0) == (names, false, 0usize));
    } else {
        lemma_opt_pass_still(sorted, names, names, 0);
    }
    assert(sort_pass(sort_type, n, sorted, names, names, 0).1 == false);
    let iters: nat = (max_iterations - 1) as nat;
    assert(sort_loop(sort_type, n, sorted, names, names, 0, iters) == Some(names));
}

////////////////////////////////////////////////////////////////////////
// THE SORTED ORDER HOLDS EACH PLUGIN ONCE
////////////////////////////////////////////////////////////////////////

/// The plugins' own names, in order.
pub open spec fn plugin_names(ps: Seq<PluginView>) -> Seq<Seq<char>> {
    ps.map_values(|p: PluginView| p.name)
}

/// Sequences with the same items keep the same items through a map.
pub proof fn lemma_map_multiset<A, B>(a: Seq<A>, b: Seq<A>, f: spec_fn(A) -> B)
    requires
        a.to_multiset() == b.to_multiset(),
    ensures
        a.map_values(f).to_multiset() == b.map_values(f).to_multiset(),
    decreases a.len(),
{
    broadcast use vstd::seq_lib::group_to_multiset_ensures;
    broadcast use vstd::multiset::group_multiset_axioms;

    vstd::seq_lib::to_multiset_len(a);
    vstd::seq_lib::to_multiset_len(b);
    if a.len() == 0 {
        assert(b.len() == 0);
        assert(a.map_values(f) =~= Seq::<B>::empty());
        assert(b.map_values(f) =~= Seq::<B>::empty());
    } else {
        let x = a.last();
        let d = a.drop_last();
        assert(d.push(x) =~= a);
        assert(a.to_multiset().count(x) > 0);
        assert(b.to_multiset().count(x) > 0);
        assert(b.contains(x));
        let j = choose|j: int| 0 <= j < b.len() && b[j] == x;
        let b2 = b.remove(j);
        vstd::seq_lib::to_multiset_remove(b, j);
        assert(d.to_multiset() =~= b2.to_multiset());
        lemma_map_multiset(d, b2, f);
        assert(a.map_values(f) =~= d.map_values(f).push(f(x)));
        assert(b.map_values(f) =~= b2.map_values(f).insert(j, f(x)));
        vstd::seq_lib::to_multiset_insert(b2.map_values(f), j, f(x));
        vstd::seq_lib::to_multiset_build(d.map_values(f), f(x));
    }
}

proof fn lemma_filter_split(s: Seq<Seq<char>>, p: spec_fn(Seq<char>) -> bool)
    ensures
        (s.filter(p) + s.filter(|x: Seq<char>| !p(x))).to_multiset() == s.to_multiset(),
    decreases s.len(),
{
    broadcast use vstd::seq_lib::group_to_multiset_ensures;
    broadcast use vstd::multiset::group_multiset_axioms;

    let q = |x: Seq<char>| !p(x);
    reveal_with_fuel(Seq::<_>::filter, 1);
    if s.len() == 0 {
        assert(s.filter(p) + s.filter(q) =~= s);
    } else {
        let d = s.drop_last();
        lemma_filter_split(d, p);
        vstd::seq_lib::lemma_multiset_commutative(d.filter(p), d.filter(q));
        vstd::seq_lib::lemma_multiset_commutative(s.filter(p), s.filter(q));
        assert(d.push(s.last()) =~= s);
        if p(s.last()) {
            assert(s.filter(p) =~= d.filter(p).push(s.last()));
            assert(s.filter(q) =~= d.filter(q));
        } else {
            assert(s.filter(p) =~= d.filter(p));
            assert(s.filter(q) =~= d.filter(q).push(s.last()));
        }
    }
}

/// The last step of the stable sort keeps the names and their number.
proof fn lemma_finish_multiset(game: ESupportedGame, m: Seq<Seq<char>>)
    ensures
        finish_order(game, m).to_multiset() == m.to_multiset(),
{
    if game == ESupportedGame::Morrowind || game == ESupportedGame::OpenMW {
        let mf = masters_first(m);
        lemma_filter_split(m, |x: Seq<char>| is_master_file(x));
        assert((|x: Seq<char>| !is_master_file(x)) =~= (|x: Seq<char>| !(|y: Seq<char>| is_master_file(y))(x)));
        assert(mf.to_multiset() == m.to_multiset());
        if mf.contains("morrowind.esm"@) {
            lemma_position_bounds(mf, "morrowind.esm"@);
            crate::sorter::lemma_move_item(mf, position(mf, "morrowind.esm"@), 0);
        }
    }
}

/// With distinct lowercase names, giving a rearrangement of them their plugins' own names
/// gives a rearrangement of those names.
proof fn lemma_names_back_multiset(plugins: Seq<PluginView>, m: Seq<Seq<char>>)
    requires
        lc_names(plugins).no_duplicates(),
        m.to_multiset() == lc_names(plugins).to_multiset(),
        plugins.len() <= usize::MAX,
    ensures
        names_back(plugins, m).to_multiset() == plugin_names(plugins).to_multiset(),
{
    let names = lc_names(plugins);
    let f = |x: Seq<char>| plugins[last_index(lc_names(plugins), x)].name;
    lemma_map_multiset(m, names, f);
    assert(names_back(plugins, m) =~= m.map_values(f));
    assert forall|i: int| 0 <= i < names.len() implies #[trigger] names.map_values(f)[i] == plugin_names(plugins)[i] by {
        assert(names.contains(names[i]));
        lemma_last_index(names, names[i]);
        let li = last_index(names, names[i]);
        assert(names[li] == names[i]);
    }
    assert(names.map_values(f) =~= plugin_names(plugins));
}

/// Law: with distinct lowercase names, the stable sort gives each plugin's own name
/// once.
pub proof fn lemma_stable_result_multiset(
    sort_type: ESortType,
    max_iterations: usize,
    game: ESupportedGame,
    plugins: Seq<PluginView>,
    rules: Seq<EOrderRule>,
)
    requires
        sort_type != ESortType::Unstable,
        plugins.len() <= usize::MAX,
        lc_names(plugins).no_duplicates(),
    ensures
        stable_order(sort_type, max_iterations, plugins, rules) matches Some(m) ==> names_back(
            plugins,
            finish_order(game, m),
        ).to_multiset() == plugin_names(plugins).to_multiset(),
{
    lemma_stable_order(sort_type, max_iterations, plugins, rules);
    if let Some(m) = stable_order(sort_type, max_iterations, plugins, rules) {
        lemma_finish_multiset(game, m);
        lemma_names_back_multiset(plugins, finish_order(game, m));
    }
}

/// Law: an order of the nodes gives each plugin's own name once.
pub proof fn lemma_node_order_multiset(plugins: Seq<PluginView>, v: Seq<usize>)
    requires
        is_node_order(v, plugins.len() as int),
        plugins.len() <= usize::MAX,
    ensures
        v.map_values(|k: usize| plugins[k as int].name).to_multiset() == plugin_names(
            plugins,
        ).to_multiset(),
{
    broadcast use vstd::seq_lib::group_to_multiset_ensures;
    broadcast use vstd::multiset::group_multiset_axioms;

    let n = plugins.len() as int;
    let ids = Seq::new(n as nat, |i: int| i as usize);
    assert forall|i: int| 0 <= i < ids.len() implies #[trigger] ids[i] as int == i by {}
    assert(ids.no_duplicates()) by {
        assert forall|i: int, j: int| 0 <= i < ids.len() && 0 <= j < ids.len() && i != j implies ids[i]
            != ids[j] by {
            assert(ids[i] as int == i);
            assert(ids[j] as int == j);
        }
    }
    assert(v.no_duplicates());
    v.lemma_multiset_has_no_duplicates();
    ids.lemma_multiset_has_no_duplicates();
    assert forall|x: usize| v.to_multiset().count(x) == ids.to_multiset().count(x) by {
        if x < n {
            assert(v.contains(x));
            assert(ids[x as int] == x);
            assert(ids.contains(x));
        } else {
            if v.contains(x) {
                let i = choose|i: int| 0 <= i < v.len() && v[i] == x;
                assert(v[i] < n);
            }
            if ids.contains(x) {
                let i = choose|i: int| 0 <= i < ids.len() && ids[i] == x;
            }
        }
    }
    assert(v.to_multiset() =~= ids.to_multiset());
    let f = |k: usize| plugins[k as int].name;
    lemma_map_multiset(v, ids, f);
    assert forall|i: int| 0 <= i < ids.len() implies #[trigger] ids.map_values(f)[i] == plugin_names(
        plugins,
    )[i] by {
        assert(ids[i] as int == i);
    }
    assert(ids.map_values(f) =~= plugin_names(plugins));
}

////////////////////////////////////////////////////////////////////////
// WHAT THE GRAPH HOLDS
////////////////////////////////////////////////////////////////////////

/// The plugins that a master of a plugin refers to each have an edge to the plugin.
pub open spec fn master_present(
    names: Seq<Seq<char>>,
    es: Seq<(usize, usize)>,
    target: usize,
    m: (Seq<char>, u64),
) -> bool {
    match wild_contains_spec(names, lowercase(m.0)) {
        Some(rs) => forall|x: Seq<char>| #[trigger] rs.contains(x) ==> es.contains((node(names, x), target)),
        None => true,
    }
}

/// Each master of the plugin gives its edges.
pub open spec fn plugin_master_edges(names: Seq<Seq<char>>, es: Seq<(usize, usize)>, p: PluginView) -> bool {
    p.masters is Some ==> forall|j: int|
        0 <= j < p.masters->0.len() ==> #[trigger] master_present(
            names,
            es,
            node(names, lowercase(p.name)),
            p.masters->0[j],
        )
}

proof fn lemma_push_unique_nodup(es: Seq<(usize, usize)>, e: (usize, usize))
    requires
        es.no_duplicates(),
    ensures
        push_unique(es, e).no_duplicates(),
{
    if !es.contains(e) {
        let r = es.push(e);
        assert forall|i: int, j: int| 0 <= i < r.len() && 0 <= j < r.len() && i != j implies r[i] != r[j] by {
            if i < es.len() && j < es.len() {
                assert(r[i] == es[i] && r[j] == es[j]);
            } else if i < es.len() {
                assert(r[i] == es[i]);
            } else {
                assert(r[j] == es[j]);
            }
        }
    }
}

proof fn lemma_edges_from_nodup(es: Seq<(usize, usize)>, names: Seq<Seq<char>>, i: Seq<char>, rb: Seq<Seq<char>>)
    requires
        es.no_duplicates(),
    ensures
        edges_from(es, names, i, rb).no_duplicates(),
    decreases rb.len(),
{
    if rb.len() > 0 {
        lemma_edges_from_nodup(es, names, i, rb.drop_last());
        if i != rb.last() {
            lemma_push_unique_nodup(
                edges_from(es, names, i, rb.drop_last()),
                (node(names, i), node(names, rb.last())),
            );
        }
    }
}

proof fn lemma_edges_between_nodup(
    es: Seq<(usize, usize)>,
    names: Seq<Seq<char>>,
    ra: Seq<Seq<char>>,
    rb: Seq<Seq<char>>,
)
    requires
        es.no_duplicates(),
    ensures
        edges_between(es, names, ra, rb).no_duplicates(),
    decreases ra.len(),
{
    if ra.len() > 0 {
        lemma_edges_between_nodup(es, names, ra.drop_last(), rb);
        lemma_edges_from_nodup(edges_between(es, names, ra.drop_last(), rb), names, ra.last(), rb);
    }
}

proof fn lemma_order_edges_nodup(names: Seq<Seq<char>>, pairs: Seq<(Seq<char>, Seq<char>)>)
    ensures
        order_edges(names, pairs).no_duplicates(),
    decreases pairs.len(),
{
    if pairs.len() > 0 {
        lemma_order_edges_nodup(names, pairs.drop_last());
        let ra = wild_contains_spec(names, pairs.last().0);
        let rb = wild_contains_spec(names, pairs.last().1);
        if ra is Some && rb is Some {
            lemma_edges_between_nodup(order_edges(names, pairs.drop_last()), names, ra->0, rb->0);
        }
    }
}

proof fn lemma_edges_to_has(es: Seq<(usize, usize)>, names: Seq<Seq<char>>, target: usize, rs: Seq<Seq<char>>)
    ensures
        es.no_duplicates() ==> edges_to(es, names, target, rs).no_duplicates(),
        forall|x: Seq<char>| #[trigger] rs.contains(x) ==> edges_to(es, names, target, rs).contains(
            (node(names, x), target),
        ),
    decreases rs.len(),
{
    if rs.len() > 0 {
        let d = rs.drop_last();
        let prev = edges_to(es, names, target, d);
        lemma_edges_to_has(es, names, target, d);
        lemma_push_unique_keeps(prev, (node(names, rs.last()), target));
        if es.no_duplicates() {
            lemma_push_unique_nodup(prev, (node(names, rs.last()), target));
        }
        assert forall|x: Seq<char>| #[trigger] rs.contains(x) implies edges_to(es, names, target, rs).contains(
            (node(names, x), target),
        ) by {
            if x != rs.last() {
                lemma_drop_last_contains(rs, x);
            }
        }
    }
}

proof fn lemma_master_edges_has(
    es: Seq<(usize, usize)>,
    names: Seq<Seq<char>>,
    target: usize,
    masters: Seq<(Seq<char>, u64)>,
)
    ensures
        es.no_duplicates() ==> master_edges_of(es, names, target, masters).no_duplicates(),
        forall|j: int|
            0 <= j < masters.len() ==> #[trigger] master_present(
                names,
                master_edges_of(es, names, target, masters),
                target,
                masters[j],
            ),
    decreases masters.len(),
{
    if masters.len() > 0 {
        let d = masters.drop_last();
        let prev = master_edges_of(es, names, target, d);
        let r = master_edges_of(es, names, target, masters);
        lemma_master_edges_has(es, names, target, d);
        let rs = wild_contains_spec(names, lowercase(masters.last().0));
        if rs is Some {
            lemma_edges_to_has(prev, names, target, rs->0);
            lemma_edges_to_keeps(prev, names, target, rs->0);
        }
        assert(keeps(prev, r));
        assert forall|j: int| 0 <= j < masters.len() implies #[trigger] master_present(
            names,
            r,
            target,
            masters[j],
        ) by {
            if j < masters.len() - 1 {
                assert(d[j] == masters[j]);
                assert(master_present(names, prev, target, d[j]));
            }
        }
    }
}

proof fn lemma_masters_edges_has(es: Seq<(usize, usize)>, names: Seq<Seq<char>>, plugins: Seq<PluginView>)
    ensures
        es.no_duplicates() ==> masters_edges(es, names, plugins).no_duplicates(),
        forall|i: int|
            0 <= i < plugins.len() ==> plugin_master_edges(
                names,
                masters_edges(es, names, plugins),
                #[trigger] plugins[i],
            ),
    decreases plugins.len(),
{
    if plugins.len() > 0 {
        let d = plugins.drop_last();
        let prev = masters_edges(es, names, d);
        let r = masters_edges(es, names, plugins);
        lemma_masters_edges_has(es, names, d);
        let p = plugins.last();
        if p.masters is Some {
            lemma_master_edges_has(prev, names, node(names, lowercase(p.name)), p.masters->0);
            lemma_master_edges_keeps(prev, names, node(names, lowercase(p.name)), p.masters->0);
        }
        assert(keeps(prev, r));
        assert forall|i: int| 0 <= i < plugins.len() implies plugin_master_edges(
            names,
            r,
            #[trigger] plugins[i],
        ) by {
            if i < plugins.len() - 1 {
                assert(d[i] == plugins[i]);
                assert(plugin_master_edges(names, prev, d[i]));
                if plugins[i].masters is Some {
                    assert forall|j: int| 0 <= j < plugins[i].masters->0.len() implies #[trigger] master_present(
                        names,
                        r,
                        node(names, lowercase(plugins[i].name)),
                        plugins[i].masters->0[j],
                    ) by {
                        assert(master_present(
                            names,
                            prev,
                            node(names, lowercase(plugins[i].name)),
                            plugins[i].masters->0[j],
                        ));
                    }
                }
            }
        }
    }
}

/// Law: the graph holds no edge twice, an edge from each plugin that the first name of an
/// ordering pair refers to, to each other plugin that the second refers to, and an edge
/// from each plugin that a plugin's master refers to, to that plugin.
pub proof fn lemma_graph_edges_hold(plugins: Seq<PluginView>, rules: Seq<EOrderRule>)
    ensures
        graph_edges(plugins, rules).no_duplicates(),
        forall|k: int|
            0 <= k < ordering_of(rules).len() ==> pair_edges(
                lc_names(plugins),
                graph_edges(plugins, rules),
                (#[trigger] ordering_of(rules)[k]).0,
                ordering_of(rules)[k].1,
            ),
        forall|i: int|
            0 <= i < plugins.len() ==> plugin_master_edges(
                lc_names(plugins),
                graph_edges(plugins, rules),
                #[trigger] plugins[i],
            ),
{
    let names = lc_names(plugins);
    let pairs = ordering_of(rules);
    let oe = order_edges(names, pairs);
    lemma_order_edges_nodup(names, pairs);
    lemma_order_edges(names, pairs);
    lemma_masters_edges_keeps(oe, names, plugins);
    lemma_masters_edges_has(oe, names, plugins);
    assert forall|k: int| 0 <= k < pairs.len() implies pair_edges(
        names,
        graph_edges(plugins, rules),
        (#[trigger] pairs[k]).0,
        pairs[k].1,
    ) by {
        lemma_pair_edges_keep(names, oe, graph_edges(plugins, rules), pairs[k].0, pairs[k].1);
    }
}

} // verus!
