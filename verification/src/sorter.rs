//! The sorter: builds the graph of what goes before what, and sorts a load order
//! topologically, either with the graph library's sort or with a stable sort that
//! moves as little as it can.
use vstd::prelude::*;

use crate::ordering::{
    get_ordering_from_order_rules, lemma_wild_in_list, ordering_of, pairs_view, position,
};
use crate::ordering::order_followed;
use crate::rules::{EOrderRule, EWarningRule};
use crate::sort_laws::{
    lemma_finish_unchanged, lemma_node_order_follows_rules, lemma_node_order_multiset,
    lemma_stable_order_follows_rules, lemma_stable_result_multiset, lowercase_named, no_master_files,
    node_names, plugin_names,
};
use crate::sort_laws::{lemma_finish_moves_nothing, lemma_lower_names_back, lower_all};
use crate::sort_laws::{lemma_graph_edges_hold, pair_edges, plugin_master_edges};
use crate::text::{lowercase, to_lowercase};
use crate::wildcard::{strings_view, wild_contains, wild_contains_spec};
use crate::{masters_view, plugins_view, ESupportedGame, PluginData, PluginView};

verus! {

////////////////////////////////////////////////////////////////////////
// GRAPH DATA
////////////////////////////////////////////////////////////////////////

/// The lowercase names of the plugins, by index.
pub open spec fn lc_names(plugins: Seq<PluginView>) -> Seq<Seq<char>> {
    plugins.map_values(|p: PluginView| lowercase(p.name))
}

/// The last index at which `x` occurs, or -1: a name's node in the graph.
pub open spec fn last_index(names: Seq<Seq<char>>, x: Seq<char>) -> int
    decreases names.len(),
{
    if names.len() == 0 {
        -1
    } else if names.last() == x {
        names.len() - 1
    } else {
        last_index(names.drop_last(), x)
    }
}

pub open spec fn node(names: Seq<Seq<char>>, x: Seq<char>) -> usize {
    last_index(names, x) as usize
}

pub proof fn lemma_last_index(names: Seq<Seq<char>>, x: Seq<char>)
    ensures
        -1 <= last_index(names, x) < names.len(),
        names.contains(x) ==> 0 <= last_index(names, x) && names[last_index(names, x)] == x,
        names.contains(x) ==> forall|k: int|
            last_index(names, x) < k < names.len() ==> names[k] != x,
        !names.contains(x) ==> last_index(names, x) == -1,
    decreases names.len(),
{
    if names.len() > 0 {
        let d = names.drop_last();
        lemma_last_index(d, x);
        if names.last() != x {
            if names.contains(x) {
                let k = choose|k: int| 0 <= k < names.len() && names[k] == x;
                assert(d[k] == x);
                assert forall|k: int| last_index(names, x) < k < names.len() implies names[k] != x by {
                    if k < names.len() - 1 {
                        assert(names[k] == d[k]);
                    }
                }
            }
            if d.contains(x) {
                let k = choose|k: int| 0 <= k < d.len() && d[k] == x;
                assert(names[k] == x);
            }
        }
    }
}

/// The last index of `x` in the list.
pub fn index_of_name(names: &[String], x: &String) -> (r: Option<usize>)
    ensures
        match r {
            Some(i) => i as int == last_index(strings_view(names@), x@),
            None => last_index(strings_view(names@), x@) == -1,
        },
{
    let ghost s = strings_view(names@);
    let mut i: usize = names.len();
    assert(s.subrange(0, i as int) =~= s);
    while i > 0
        invariant
            0 <= i <= names@.len(),
            s == strings_view(names@),
            last_index(s, x@) == last_index(s.subrange(0, i as int), x@),
        decreases i,
    {
        let ghost p = s.subrange(0, i as int);
        if names[i - 1] == *x {
            return Some(i - 1);
        }
        assert(p.drop_last() =~= s.subrange(0, i - 1));
        i = i - 1;
    }
    None
}

/// Every edge joins two nodes below `n`.
pub open spec fn edges_within(es: Seq<(usize, usize)>, n: int) -> bool {
    forall|k: int| 0 <= k < es.len() ==> (#[trigger] es[k]).0 < n && es[k].1 < n
}

pub open spec fn push_unique(es: Seq<(usize, usize)>, e: (usize, usize)) -> Seq<(usize, usize)> {
    if es.contains(e) {
        es
    } else {
        es.push(e)
    }
}

/// Adds an edge from `i` to each name of `rb`, but for `i` itself.
pub open spec fn edges_from(
    es: Seq<(usize, usize)>,
    names: Seq<Seq<char>>,
    i: Seq<char>,
    rb: Seq<Seq<char>>,
) -> Seq<(usize, usize)>
    decreases rb.len(),
{
    if rb.len() == 0 {
        es
    } else {
        let prev = edges_from(es, names, i, rb.drop_last());
        let j = rb.last();
        if i == j {
            prev
        } else {
            push_unique(prev, (node(names, i), node(names, j)))
        }
    }
}

/// Adds an edge from each name of `ra` to each name of `rb`.
pub open spec fn edges_between(
    es: Seq<(usize, usize)>,
    names: Seq<Seq<char>>,
    ra: Seq<Seq<char>>,
    rb: Seq<Seq<char>>,
) -> Seq<(usize, usize)>
    decreases ra.len(),
{
    if ra.len() == 0 {
        es
    } else {
        edges_from(edges_between(es, names, ra.drop_last(), rb), names, ra.last(), rb)
    }
}

/// The edges of the ordering pairs: each plugin that the first name refers to goes
/// before each plugin that the second refers to.
pub open spec fn order_edges(names: Seq<Seq<char>>, pairs: Seq<(Seq<char>, Seq<char>)>) -> Seq<
    (usize, usize),
>
    decreases pairs.len(),
{
    if pairs.len() == 0 {
        seq![]
    } else {
        let es = order_edges(names, pairs.drop_last());
        let ra = wild_contains_spec(names, pairs.last().0);
        let rb = wild_contains_spec(names, pairs.last().1);
        if ra is Some && rb is Some {
            edges_between(es, names, ra->0, rb->0)
        } else {
            es
        }
    }
}

/// Adds an edge from each name of `rs` to `target`.
pub open spec fn edges_to(
    es: Seq<(usize, usize)>,
    names: Seq<Seq<char>>,
    target: usize,
    rs: Seq<Seq<char>>,
) -> Seq<(usize, usize)>
    decreases rs.len(),
{
    if rs.len() == 0 {
        es
    } else {
        push_unique(edges_to(es, names, target, rs.drop_last()), (node(names, rs.last()), target))
    }
}

/// Adds an edge from each plugin that a master refers to, to `target`.
pub open spec fn master_edges_of(
    es: Seq<(usize, usize)>,
    names: Seq<Seq<char>>,
    target: usize,
    masters: Seq<(Seq<char>, u64)>,
) -> Seq<(usize, usize)>
    decreases masters.len(),
{
    if masters.len() == 0 {
        es
    } else {
        let prev = master_edges_of(es, names, target, masters.drop_last());
        let rs = wild_contains_spec(names, lowercase(masters.last().0));
        if rs is Some {
            edges_to(prev, names, target, rs->0)
        } else {
            prev
        }
    }
}

/// The edges from each plugin's masters to the plugin.
pub open spec fn masters_edges(
    es: Seq<(usize, usize)>,
    names: Seq<Seq<char>>,
    plugins: Seq<PluginView>,
) -> Seq<(usize, usize)>
    decreases plugins.len(),
{
    if plugins.len() == 0 {
        es
    } else {
        let prev = masters_edges(es, names, plugins.drop_last());
        let p = plugins.last();
        if p.masters is Some {
            master_edges_of(prev, names, node(names, lowercase(p.name)), p.masters->0)
        } else {
            prev
        }
    }
}

/// The edges of the graph: those of the order rules, then those of the masters.
pub open spec fn graph_edges(plugins: Seq<PluginView>, rules: Seq<EOrderRule>) -> Seq<(usize, usize)> {
    masters_edges(order_edges(lc_names(plugins), ordering_of(rules)), lc_names(plugins), plugins)
}

/// The graph of the load order: its nodes are the plugins' indices, named by the
/// lowercase plugin names, and an edge `(a, b)` says that `a` goes before `b`.
#[derive(Debug)]
pub struct GraphData {
    /// The lowercase name of each node.
    pub index_dict_rev: Vec<String>,
    pub edges: Vec<(usize, usize)>,
}

impl GraphData {
    /// The node of a lowercase name: the last plugin with that name.
    pub fn index_dict(&self, name: &String) -> (r: Option<usize>)
        ensures
            match r {
                Some(i) => i as int == last_index(strings_view(self.index_dict_rev@), name@),
                None => last_index(strings_view(self.index_dict_rev@), name@) == -1,
            },
    {
        index_of_name(self.index_dict_rev.as_slice(), name)
    }
}

/// Whether the edge is in the list.
pub fn contains_edge(es: &Vec<(usize, usize)>, e: (usize, usize)) -> (r: bool)
    ensures
        r == es@.contains(e),
{
    let mut i: usize = 0;
    while i < es.len()
        invariant
            0 <= i <= es@.len(),
            forall|k: int| 0 <= k < i ==> es@[k] != e,
        decreases es@.len() - i,
    {
        if es[i].0 == e.0 && es[i].1 == e.1 {
            assert(es@[i as int] == e);
            return true;
        }
        i = i + 1;
    }
    false
}

fn push_edge(es: &mut Vec<(usize, usize)>, e: (usize, usize), Ghost(n): Ghost<int>)
    requires
        edges_within(old(es)@, n),
        e.0 < n,
        e.1 < n,
    ensures
        final(es)@ == push_unique(old(es)@, e),
        edges_within(final(es)@, n),
{
    if !contains_edge(es, e) {
        es.push(e);
    }
}

proof fn lemma_node_in(names: Seq<Seq<char>>, x: Seq<char>)
    requires
        names.contains(x),
        names.len() <= usize::MAX,
    ensures
        0 <= node(names, x) < names.len(),
        node(names, x) as int == last_index(names, x),
{
    lemma_last_index(names, x);
}

fn add_edges_from(
    names: &Vec<String>,
    i: &String,
    rb: &Vec<String>,
    edges: &mut Vec<(usize, usize)>,
)
    requires
        strings_view(names@).contains(i@),
        forall|k: int| 0 <= k < rb@.len() ==> strings_view(names@).contains(#[trigger] rb@[k]@),
        edges_within(old(edges)@, names@.len() as int),
    ensures
        final(edges)@ == edges_from(old(edges)@, strings_view(names@), i@, strings_view(rb@)),
        edges_within(final(edges)@, names@.len() as int),
{
    let n_names = names.len();
    let ghost s = strings_view(names@);
    let ghost e0 = edges@;
    let ghost sb = strings_view(rb@);
    proof {
        lemma_node_in(s, i@);
    }
    let idx_a = index_of_name(names.as_slice(), i).unwrap();
    let mut k: usize = 0;
    while k < rb.len()
        invariant
            0 <= k <= rb@.len(),
            s == strings_view(names@),
            n_names == names@.len(),
            sb == strings_view(rb@),
            idx_a as int == last_index(s, i@),
            0 <= idx_a < names@.len(),
            forall|m: int| 0 <= m < rb@.len() ==> s.contains(#[trigger] rb@[m]@),
            edges@ == edges_from(e0, s, i@, sb.subrange(0, k as int)),
            edges_within(edges@, names@.len() as int),
        decreases rb@.len() - k,
    {
        let ghost pre = sb.subrange(0, k + 1);
        assert(pre.drop_last() =~= sb.subrange(0, k as int));
        assert(pre.last() == rb@[k as int]@);
        if *i != rb[k] {
            proof {
                lemma_node_in(s, rb@[k as int]@);
            }
            let idx_b = index_of_name(names.as_slice(), &rb[k]).unwrap();
            push_edge(edges, (idx_a, idx_b), Ghost(names@.len() as int));
        }
        k = k + 1;
    }
    assert(sb.subrange(0, rb@.len() as int) =~= sb);
}

fn add_edges_between(
    names: &Vec<String>,
    ra: &Vec<String>,
    rb: &Vec<String>,
    edges: &mut Vec<(usize, usize)>,
)
    requires
        forall|k: int| 0 <= k < ra@.len() ==> strings_view(names@).contains(#[trigger] ra@[k]@),
        forall|k: int| 0 <= k < rb@.len() ==> strings_view(names@).contains(#[trigger] rb@[k]@),
        edges_within(old(edges)@, names@.len() as int),
    ensures
        final(edges)@ == edges_between(
            old(edges)@,
            strings_view(names@),
            strings_view(ra@),
            strings_view(rb@),
        ),
        edges_within(final(edges)@, names@.len() as int),
{
    let n_names = names.len();
    let ghost s = strings_view(names@);
    let ghost e0 = edges@;
    let ghost sa = strings_view(ra@);
    let ghost sb = strings_view(rb@);
    let mut k: usize = 0;
    while k < ra.len()
        invariant
            0 <= k <= ra@.len(),
            s == strings_view(names@),
            n_names == names@.len(),
            sa == strings_view(ra@),
            sb == strings_view(rb@),
            forall|m: int| 0 <= m < ra@.len() ==> s.contains(#[trigger] ra@[m]@),
            forall|m: int| 0 <= m < rb@.len() ==> s.contains(#[trigger] rb@[m]@),
            edges@ == edges_between(e0, s, sa.subrange(0, k as int), sb),
            edges_within(edges@, names@.len() as int),
        decreases ra@.len() - k,
    {
        let ghost pre = sa.subrange(0, k + 1);
        assert(pre.drop_last() =~= sa.subrange(0, k as int));
        assert(pre.last() == ra@[k as int]@);
        add_edges_from(names, &ra[k], rb, edges);
        k = k + 1;
    }
    assert(sa.subrange(0, ra@.len() as int) =~= sa);
}

fn add_edges_to(names: &Vec<String>, target: usize, rs: &Vec<String>, edges: &mut Vec<(usize, usize)>)
    requires
        target < names@.len(),
        forall|k: int| 0 <= k < rs@.len() ==> strings_view(names@).contains(#[trigger] rs@[k]@),
        edges_within(old(edges)@, names@.len() as int),
    ensures
        final(edges)@ == edges_to(old(edges)@, strings_view(names@), target, strings_view(rs@)),
        edges_within(final(edges)@, names@.len() as int),
{
    let n_names = names.len();
    let ghost s = strings_view(names@);
    let ghost e0 = edges@;
    let ghost sr = strings_view(rs@);
    let mut k: usize = 0;
    while k < rs.len()
        invariant
            0 <= k <= rs@.len(),
            target < names@.len(),
            s == strings_view(names@),
            n_names == names@.len(),
            sr == strings_view(rs@),
            forall|m: int| 0 <= m < rs@.len() ==> s.contains(#[trigger] rs@[m]@),
            edges@ == edges_to(e0, s, target, sr.subrange(0, k as int)),
            edges_within(edges@, names@.len() as int),
        decreases rs@.len() - k,
    {
        let ghost pre = sr.subrange(0, k + 1);
        assert(pre.drop_last() =~= sr.subrange(0, k as int));
        assert(pre.last() == rs@[k as int]@);
        proof {
            lemma_node_in(s, rs@[k as int]@);
        }
        let idx_master = index_of_name(names.as_slice(), &rs[k]).unwrap();
        push_edge(edges, (idx_master, target), Ghost(names@.len() as int));
        k = k + 1;
    }
    assert(sr.subrange(0, rs@.len() as int) =~= sr);
}

fn add_master_edges(
    names: &Vec<String>,
    target: usize,
    masters: &Vec<(String, u64)>,
    edges: &mut Vec<(usize, usize)>,
)
    requires
        target < names@.len(),
        edges_within(old(edges)@, names@.len() as int),
    ensures
        final(edges)@ == master_edges_of(
            old(edges)@,
            strings_view(names@),
            target,
            masters_view(masters@),
        ),
        edges_within(final(edges)@, names@.len() as int),
{
    let n_names = names.len();
    let ghost s = strings_view(names@);
    let ghost e0 = edges@;
    let ghost mv = masters_view(masters@);
    let mut k: usize = 0;
    while k < masters.len()
        invariant
            0 <= k <= masters@.len(),
            target < names@.len(),
            s == strings_view(names@),
            n_names == names@.len(),
            mv == masters_view(masters@),
            edges@ == master_edges_of(e0, s, target, mv.subrange(0, k as int)),
            edges_within(edges@, names@.len() as int),
        decreases masters@.len() - k,
    {
        let ghost pre = mv.subrange(0, k + 1);
        assert(pre.drop_last() =~= mv.subrange(0, k as int));
        assert(pre.last() == (masters@[k as int].0@, masters@[k as int].1));
        let master = to_lowercase(masters[k].0.as_str());
        if let Some(results) = wild_contains(names.as_slice(), &master) {
            proof {
                lemma_wild_in_list(s, master@, strings_view(results@));
                assert forall|m: int| 0 <= m < results@.len() implies s.contains(
                    #[trigger] results@[m]@,
                ) by {
                    assert(strings_view(results@)[m] == results@[m]@);
                }
            }
            add_edges_to(names, target, &results, edges);
        }
        k = k + 1;
    }
    assert(mv.subrange(0, masters@.len() as int) =~= mv);
}

/// The lowercase names of the plugins.
pub fn lowercase_names(plugins: &[PluginData]) -> (r: Vec<String>)
    ensures
        strings_view(r@) == lc_names(plugins_view(plugins@)),
{
    let ghost pv = plugins_view(plugins@);
    let mut mods: Vec<String> = Vec::new();
    let mut i: usize = 0;
    while i < plugins.len()
        invariant
            0 <= i <= plugins@.len(),
            pv == plugins_view(plugins@),
            strings_view(mods@) == lc_names(pv.subrange(0, i as int)),
        decreases plugins@.len() - i,
    {
        let ghost prev = mods@;
        let name = to_lowercase(plugins[i].name.as_str());
        mods.push(name);
        assert(pv[i as int] == plugins@[i as int]@);
        assert(strings_view(mods@) =~= strings_view(prev).push(name@));
        assert(lc_names(pv.subrange(0, i + 1)) =~= lc_names(pv.subrange(0, i as int)).push(
            lowercase(pv[i as int].name),
        ));
        i = i + 1;
    }
    assert(pv.subrange(0, plugins@.len() as int) =~= pv);
    mods
}

/// Builds the graph: a node per plugin, an edge for each ordering pair between the
/// plugins that its names refer to, and an edge from each master to its plugin.
pub fn get_graph_data(
    plugins: &[PluginData],
    order_rules: &[EOrderRule],
    _warn_rules: &[EWarningRule],
) -> (r: GraphData)
    ensures
        strings_view(r.index_dict_rev@) == lc_names(plugins_view(plugins@)),
        r.edges@ == graph_edges(plugins_view(plugins@), order_rules@),
        edges_within(r.edges@, plugins@.len() as int),
        r.edges@.no_duplicates(),
        forall|k: int|
            0 <= k < ordering_of(order_rules@).len() ==> pair_edges(
                lc_names(plugins_view(plugins@)),
                r.edges@,
                (#[trigger] ordering_of(order_rules@)[k]).0,
                ordering_of(order_rules@)[k].1,
            ),
        forall|i: int|
            0 <= i < plugins@.len() ==> plugin_master_edges(
                lc_names(plugins_view(plugins@)),
                r.edges@,
                #[trigger] plugins_view(plugins@)[i],
            ),
{
    proof {
        lemma_graph_edges_hold(plugins_view(plugins@), order_rules@);
    }
    let ghost pv = plugins_view(plugins@);
    let mods = lowercase_names(plugins);
    let ghost s = strings_view(mods@);
    assert(s.len() == mods@.len() && s.len() == pv.len());
    let order_pairs = get_ordering_from_order_rules(order_rules);
    let ghost ps = pairs_view(order_pairs@);
    let mut edges: Vec<(usize, usize)> = Vec::new();
    let mut k: usize = 0;
    while k < order_pairs.len()
        invariant
            0 <= k <= order_pairs@.len(),
            s == strings_view(mods@),
            mods@.len() == plugins@.len(),
            ps == pairs_view(order_pairs@),
            edges@ == order_edges(s, ps.subrange(0, k as int)),
            edges_within(edges@, mods@.len() as int),
        decreases order_pairs@.len() - k,
    {
        let ghost pre = ps.subrange(0, k + 1);
        assert(pre.drop_last() =~= ps.subrange(0, k as int));
        let (a, b) = &order_pairs[k];
        assert(pre.last() == (a@, b@));
        if let Some(results_for_a) = wild_contains(mods.as_slice(), a) {
            if let Some(results_for_b) = wild_contains(mods.as_slice(), b) {
                proof {
                    lemma_wild_in_list(s, a@, strings_view(results_for_a@));
                    lemma_wild_in_list(s, b@, strings_view(results_for_b@));
                    assert forall|m: int| 0 <= m < results_for_a@.len() implies s.contains(
                        #[trigger] results_for_a@[m]@,
                    ) by {
                        assert(strings_view(results_for_a@)[m] == results_for_a@[m]@);
                    }
                    assert forall|m: int| 0 <= m < results_for_b@.len() implies s.contains(
                        #[trigger] results_for_b@[m]@,
                    ) by {
                        assert(strings_view(results_for_b@)[m] == results_for_b@[m]@);
                    }
                }
                add_edges_between(&mods, &results_for_a, &results_for_b, &mut edges);
            }
        }
        k = k + 1;
    }
    assert(ps.subrange(0, order_pairs@.len() as int) =~= ps);
    let ghost e1 = edges@;
    let mut i: usize = 0;
    while i < plugins.len()
        invariant
            0 <= i <= plugins@.len(),
            pv == plugins_view(plugins@),
            s == strings_view(mods@),
            s == lc_names(pv),
            mods@.len() == plugins@.len(),
            edges@ == masters_edges(e1, s, pv.subrange(0, i as int)),
            edges_within(edges@, mods@.len() as int),
        decreases plugins@.len() - i,
    {
        let ghost pre = pv.subrange(0, i + 1);
        assert(pre.drop_last() =~= pv.subrange(0, i as int));
        assert(pre.last() == plugins@[i as int]@);
        let name = to_lowercase(plugins[i].name.as_str());
        assert(s[i as int] == name@);
        assert(s.contains(name@));
        proof {
            lemma_node_in(s, name@);
        }
        let idx = index_of_name(mods.as_slice(), &name).unwrap();
        if let Some(masters) = &plugins[i].masters {
            add_master_edges(&mods, idx, masters, &mut edges);
        }
        i = i + 1;
    }
    assert(pv.subrange(0, plugins@.len() as int) =~= pv);
    GraphData { index_dict_rev: mods, edges }
}

////////////////////////////////////////////////////////////////////////
// MOVING PLUGINS
////////////////////////////////////////////////////////////////////////

/// The list with the item at `from` taken out and put back in at `to`.
pub open spec fn move_item(s: Seq<Seq<char>>, from: int, to: int) -> Seq<Seq<char>> {
    s.remove(from).insert(to, s[from])
}

/// The list with the item at `from` taken out and put at the end.
pub open spec fn move_to_end(s: Seq<Seq<char>>, from: int) -> Seq<Seq<char>> {
    s.remove(from).push(s[from])
}

/// Moving an item keeps the items and their number.
pub proof fn lemma_move_item(s: Seq<Seq<char>>, from: int, to: int)
    requires
        0 <= from < s.len(),
        0 <= to < s.len(),
    ensures
        move_item(s, from, to).len() == s.len(),
        move_item(s, from, to).to_multiset() =~= s.to_multiset(),
        forall|x: Seq<char>| #[trigger] move_item(s, from, to).contains(x) == s.contains(x),
{
    broadcast use vstd::seq_lib::group_to_multiset_ensures;

    let r = s.remove(from);
    assert(r.to_multiset() =~= s.to_multiset().remove(s[from]));
    assert(r.insert(to, s[from]).to_multiset() =~= r.to_multiset().insert(s[from]));
    assert(s.to_multiset().contains(s[from]));
    assert forall|x: Seq<char>| #[trigger] move_item(s, from, to).contains(x) == s.contains(x) by {
        assert(move_item(s, from, to).to_multiset().count(x) == s.to_multiset().count(x));
    }
}

/// Moving an item to the end keeps the items and their number.
pub proof fn lemma_move_to_end(s: Seq<Seq<char>>, from: int)
    requires
        0 <= from < s.len(),
    ensures
        move_to_end(s, from).len() == s.len(),
        move_to_end(s, from).to_multiset() =~= s.to_multiset(),
        forall|x: Seq<char>| #[trigger] move_to_end(s, from).contains(x) == s.contains(x),
{
    assert(move_to_end(s, from) =~= move_item(s, from, s.len() - 1));
    lemma_move_item(s, from, s.len() - 1);
}

fn move_name(v: &mut Vec<String>, from: usize, to: usize)
    requires
        from < old(v)@.len(),
        to < old(v)@.len(),
    ensures
        strings_view(final(v)@) == move_item(strings_view(old(v)@), from as int, to as int),
{
    let ghost s0 = strings_view(v@);
    let t = v.remove(from);
    let ghost s1 = strings_view(v@);
    assert(s1 =~= s0.remove(from as int));
    v.insert(to, t);
    assert(strings_view(v@) =~= s1.insert(to as int, s0[from as int]));
}

fn move_name_to_end(v: &mut Vec<String>, from: usize)
    requires
        from < old(v)@.len(),
    ensures
        strings_view(final(v)@) == move_to_end(strings_view(old(v)@), from as int),
{
    let ghost s0 = strings_view(v@);
    let t = v.remove(from);
    let ghost s1 = strings_view(v@);
    assert(s1 =~= s0.remove(from as int));
    v.push(t);
    assert(strings_view(v@) =~= s1.push(s0[from as int]));
}

/// The first index of a name that is in the list.
fn position_in(list: &Vec<String>, x: &String) -> (r: usize)
    requires
        strings_view(list@).contains(x@),
    ensures
        r as int == position(strings_view(list@), x@),
        r < list@.len(),
        strings_view(list@)[r as int] == x@,
{
    proof {
        crate::ordering::lemma_position_bounds(strings_view(list@), x@);
    }
    crate::ordering::position_of(list.as_slice(), x).unwrap()
}

////////////////////////////////////////////////////////////////////////
// SORTER
////////////////////////////////////////////////////////////////////////

#[derive(Debug, Clone, Copy, PartialEq, Eq, Structural)]
pub enum ESortType {
    Unstable,
    StableOpt,
    StableFull,
}

pub struct Sorter {
    pub sort_type: ESortType,
    pub max_iterations: usize,
}

/// The sorter that leaves the order to the graph library.
pub fn new_unstable_sorter() -> (r: Sorter)
    ensures
        r.sort_type == ESortType::Unstable,
        r.max_iterations == 0,
{
    Sorter::new(ESortType::Unstable, 0)
}

/// The stable sorter that checks only the edges, with up to 100 passes.
pub fn new_stable_sorter() -> (r: Sorter)
    ensures
        r.sort_type == ESortType::StableOpt,
        r.max_iterations == 100,
{
    Sorter::new(ESortType::StableOpt, 100)
}

/// The plugin at the second node of an edge must be before the plugin at the first.
pub open spec fn breaks(
    es: Seq<(usize, usize)>,
    names: Seq<Seq<char>>,
    mods: Seq<Seq<char>>,
    e: (usize, usize),
) -> bool {
    position(mods, names[e.0 as int]) > position(mods, names[e.1 as int])
}

/// One pass of the edge-checking sort over the edges: for each edge whose second
/// plugin comes first, the first plugin is moved to just before it. The result holds
/// the new order, whether anything moved, and the index of the last edge that moved
/// something.
pub open spec fn opt_pass(
    es: Seq<(usize, usize)>,
    names: Seq<Seq<char>>,
    mods: Seq<Seq<char>>,
    last: usize,
) -> (Seq<Seq<char>>, bool, usize)
    decreases es.len(),
{
    if es.len() == 0 {
        (mods, false, last)
    } else {
        let prev = opt_pass(es.drop_last(), names, mods, last);
        let e = es.last();
        if breaks(es, names, prev.0, e) {
            (
                move_item(
                    prev.0,
                    position(prev.0, names[e.0 as int]),
                    position(prev.0, names[e.1 as int]),
                ),
                true,
                (es.len() - 1) as usize,
            )
        } else {
            prev
        }
    }
}

/// Both nodes of each edge name a plugin of the order.
pub open spec fn edges_named_in(
    es: Seq<(usize, usize)>,
    names: Seq<Seq<char>>,
    mods: Seq<Seq<char>>,
) -> bool {
    &&& edges_within(es, names.len() as int)
    &&& forall|k: int|
        0 <= k < es.len() ==> mods.contains(names[(#[trigger] es[k]).0 as int]) && mods.contains(
            names[es[k].1 as int],
        )
}

/// A pass keeps the plugins of the order.
pub proof fn lemma_opt_pass_keeps(
    es: Seq<(usize, usize)>,
    names: Seq<Seq<char>>,
    mods: Seq<Seq<char>>,
    last: usize,
)
    requires
        edges_named_in(es, names, mods),
    ensures
        opt_pass(es, names, mods, last).0.to_multiset() =~= mods.to_multiset(),
        opt_pass(es, names, mods, last).0.len() == mods.len(),
        forall|x: Seq<char>| #[trigger] opt_pass(es, names, mods, last).0.contains(x) == mods.contains(x),
        !opt_pass(es, names, mods, last).1 ==> opt_pass(es, names, mods, last).0 == mods,
    decreases es.len(),
{
    if es.len() > 0 {
        let d = es.drop_last();
        assert forall|k: int| 0 <= k < d.len() implies mods.contains(names[(#[trigger] d[k]).0 as int])
            && mods.contains(names[d[k].1 as int]) by {
            assert(d[k] == es[k]);
        }
        lemma_opt_pass_keeps(d, names, mods, last);
        let prev = opt_pass(d, names, mods, last);
        let e = es.last();
        assert(es[es.len() - 1] == e);
        if breaks(es, names, prev.0, e) {
            crate::ordering::lemma_position_bounds(prev.0, names[e.0 as int]);
            crate::ordering::lemma_position_bounds(prev.0, names[e.1 as int]);
            lemma_move_item(
                prev.0,
                position(prev.0, names[e.0 as int]),
                position(prev.0, names[e.1 as int]),
            );
        }
    }
}

/// The plugins at `i` and `j` are joined by an edge from the plugin at `i`.
pub open spec fn violation(
    es: Seq<(usize, usize)>,
    names: Seq<Seq<char>>,
    r: Seq<Seq<char>>,
    i: int,
    j: int,
) -> bool {
    es.contains((node(names, r[i]), node(names, r[j])))
}

/// The first pair `(i, j)`, `j < i < n`, by `i` and then by `j`, from `(i, j)` on, at
/// which the plugin at `i` has an edge to the earlier plugin at `j`.
pub open spec fn scan(
    n: int,
    es: Seq<(usize, usize)>,
    names: Seq<Seq<char>>,
    r: Seq<Seq<char>>,
    i: int,
    j: int,
) -> Option<(int, int)>
    decreases n - i, i - j,
{
    if i >= n || j < 0 || i < 0 {
        None
    } else if j >= i {
        scan(n, es, names, r, i + 1, 0)
    } else if violation(es, names, r, i, j) {
        Some((i, j))
    } else {
        scan(n, es, names, r, i, j + 1)
    }
}

/// One pass of the full sort: the first plugin that must go before an earlier one is
/// moved to that one's place.
pub open spec fn full_pass(
    n: int,
    es: Seq<(usize, usize)>,
    names: Seq<Seq<char>>,
    mods: Seq<Seq<char>>,
    last: usize,
) -> (Seq<Seq<char>>, bool, usize) {
    match scan(n, es, names, mods, 0, 0) {
        Some(p) => (move_item(mods, p.0, p.1), true, p.1 as usize),
        None => (mods, false, last),
    }
}

/// One pass of the sort of the given type.
pub open spec fn sort_pass(
    sort_type: ESortType,
    n: int,
    es: Seq<(usize, usize)>,
    names: Seq<Seq<char>>,
    mods: Seq<Seq<char>>,
    last: usize,
) -> (Seq<Seq<char>>, bool, usize) {
    match sort_type {
        ESortType::StableFull => full_pass(n, es, names, mods, last),
        _ => opt_pass(es, names, mods, last),
    }
}

/// Every plugin of the order has a node.
pub open spec fn all_named(names: Seq<Seq<char>>, mods: Seq<Seq<char>>) -> bool {
    forall|k: int| 0 <= k < mods.len() ==> names.contains(#[trigger] mods[k])
}

proof fn lemma_scan_found(
    n: int,
    es: Seq<(usize, usize)>,
    names: Seq<Seq<char>>,
    r: Seq<Seq<char>>,
    i: int,
    j: int,
)
    requires
        0 <= j < i < n,
        violation(es, names, r, i, j),
    ensures
        scan(n, es, names, r, i, j) == Some((i, j)),
{
}

impl Sorter {
    pub fn new(sort_type: ESortType, max_iterations: usize) -> (r: Self)
        ensures
            r.sort_type == sort_type,
            r.max_iterations == max_iterations,
    {
        Self { sort_type, max_iterations }
    }

    /// One pass of the full sort: compares each plugin with each one before it, and
    /// moves the first that must go before an earlier one to that one's place.
    pub fn stable_topo_sort_full(
        n: usize,
        edges: &[(usize, usize)],
        index_dict: &[String],
        result: &mut Vec<String>,
        last_index: &mut usize,
    ) -> (r: bool)
        requires
            n <= old(result)@.len(),
            all_named(strings_view(index_dict@), strings_view(old(result)@)),
        ensures
            (strings_view(final(result)@), r, *final(last_index)) == full_pass(
                n as int,
                edges@,
                strings_view(index_dict@),
                strings_view(old(result)@),
                *old(last_index),
            ),
    {
        let ghost names = strings_view(index_dict@);
        let ghost r0 = strings_view(result@);
        let ghost l0 = *last_index;
        let n_names = index_dict.len();
        let mut i: usize = 0;
        while i < n
            invariant
                0 <= i <= n,
                *last_index == l0,
                *old(last_index) == l0,
                strings_view(old(result)@) == r0,
                n_names == names.len(),
                n <= result@.len(),
                names == strings_view(index_dict@),
                r0 == strings_view(result@),
                all_named(names, r0),
                scan(n as int, edges@, names, r0, 0, 0) == scan(n as int, edges@, names, r0, i as int, 0),
            decreases n - i,
        {
            let mut j: usize = 0;
            while j < i
                invariant
                    0 <= j <= i < n,
                    *last_index == l0,
                    *old(last_index) == l0,
                    strings_view(old(result)@) == r0,
                    n_names == names.len(),
                    n <= result@.len(),
                    names == strings_view(index_dict@),
                    r0 == strings_view(result@),
                    all_named(names, r0),
                    scan(n as int, edges@, names, r0, 0, 0) == scan(
                        n as int,
                        edges@,
                        names,
                        r0,
                        i as int,
                        j as int,
                    ),
                decreases i - j,
            {
                proof {
                    assert(names.contains(r0[i as int]));
                    assert(names.contains(r0[j as int]));
                    lemma_node_in(names, r0[i as int]);
                    lemma_node_in(names, r0[j as int]);
                }
                let x = index_of_name(index_dict, &result[i]).unwrap();
                let y = index_of_name(index_dict, &result[j]).unwrap();
                assert(r0[i as int] == result@[i as int]@);
                assert(r0[j as int] == result@[j as int]@);
                assert(x == node(names, r0[i as int]));
                assert(y == node(names, r0[j as int]));
                if slice_contains_edge(edges, (x, y)) {
                    proof {
                        assert(violation(edges@, names, r0, i as int, j as int));
                        lemma_scan_found(n as int, edges@, names, r0, i as int, j as int);
                    }
                    move_name(result, i, j);
                    *last_index = j;
                    assert(scan(n as int, edges@, names, r0, 0, 0) == Some((i as int, j as int)));
                    assert(full_pass(n as int, edges@, names, r0, l0) == (
                        move_item(r0, i as int, j as int),
                        true,
                        j,
                    ));
                    return true;
                }
                j = j + 1;
            }
            i = i + 1;
        }
        false
    }

    /// One pass of the edge-checking sort: for each edge whose second plugin comes
    /// first, the first plugin is moved to just before it.
    pub fn stable_topo_sort_opt2(
        _n: usize,
        edges: &[(usize, usize)],
        index_dict_rev: &[String],
        result: &mut Vec<String>,
        last_index: &mut usize,
    ) -> (r: bool)
        requires
            edges_named_in(edges@, strings_view(index_dict_rev@), strings_view(old(result)@)),
        ensures
            (strings_view(final(result)@), r, *final(last_index)) == opt_pass(
                edges@,
                strings_view(index_dict_rev@),
                strings_view(old(result)@),
                *old(last_index),
            ),
    {
        let ghost names = strings_view(index_dict_rev@);
        let ghost r0 = strings_view(result@);
        let ghost l0 = *last_index;
        let mut b = false;
        let mut idx: usize = 0;
        while idx < edges.len()
            invariant
                0 <= idx <= edges@.len(),
                names == strings_view(index_dict_rev@),
                edges_named_in(edges@, names, r0),
                (strings_view(result@), b, *last_index) == opt_pass(
                    edges@.subrange(0, idx as int),
                    names,
                    r0,
                    l0,
                ),
            decreases edges@.len() - idx,
        {
            let ghost pre = edges@.subrange(0, idx + 1);
            assert(pre.drop_last() =~= edges@.subrange(0, idx as int));
            assert(pre.last() == edges@[idx as int]);
            proof {
                assert forall|k: int| 0 <= k < pre.len() implies r0.contains(
                    names[(#[trigger] pre[k]).0 as int],
                ) && r0.contains(names[pre[k].1 as int]) by {
                    assert(pre[k] == edges@[k]);
                }
                lemma_opt_pass_keeps(pre.drop_last(), names, r0, l0);
            }
            let (i, j) = edges[idx];
            assert(edges@[idx as int] == (i, j));
            let x = &index_dict_rev[i];
            let y = &index_dict_rev[j];
            assert(names[i as int] == x@);
            let idx_of_x = position_in(result, x);
            let idx_of_y = position_in(result, y);
            if idx_of_x > idx_of_y {
                move_name(result, idx_of_x, idx_of_y);
                *last_index = idx;
                b = true;
            }
            idx = idx + 1;
        }
        assert(edges@.subrange(0, edges@.len() as int) =~= edges@);
        b
    }

    /// One pass of this sorter's stable sort.
    pub fn stable_topo_sort_inner(
        &self,
        n: usize,
        edges: &[(usize, usize)],
        index_dict: &[String],
        result: &mut Vec<String>,
        last_index: &mut usize,
    ) -> (r: bool)
        requires
            self.sort_type != ESortType::Unstable,
            n <= old(result)@.len(),
            all_named(strings_view(index_dict@), strings_view(old(result)@)),
            edges_named_in(edges@, strings_view(index_dict@), strings_view(old(result)@)),
        ensures
            (strings_view(final(result)@), r, *final(last_index)) == sort_pass(
                self.sort_type,
                n as int,
                edges@,
                strings_view(index_dict@),
                strings_view(old(result)@),
                *old(last_index),
            ),
    {
        match self.sort_type {
            ESortType::StableFull => Self::stable_topo_sort_full(
                n,
                edges,
                index_dict,
                result,
                last_index,
            ),
            _ => Self::stable_topo_sort_opt2(n, edges, index_dict, result, last_index),
        }
    }
}

/// Whether the edge is in the list.
pub fn slice_contains_edge(es: &[(usize, usize)], e: (usize, usize)) -> (r: bool)
    ensures
        r == es@.contains(e),
{
    let mut i: usize = 0;
    while i < es.len()
        invariant
            0 <= i <= es@.len(),
            forall|k: int| 0 <= k < i ==> es@[k] != e,
        decreases es@.len() - i,
    {
        if es[i].0 == e.0 && es[i].1 == e.1 {
            assert(es@[i as int] == e);
            return true;
        }
        i = i + 1;
    }
    false
}

////////////////////////////////////////////////////////////////////////
// ORDERING THE EDGES
////////////////////////////////////////////////////////////////////////

/// Where an edge with the given first node goes in a list sorted by first node:
/// after every edge whose first node is not greater.
pub open spec fn insert_pos(s: Seq<(usize, usize)>, key: usize) -> int
    decreases s.len(),
{
    if s.len() == 0 {
        0
    } else if s.last().0 <= key {
        s.len() as int
    } else {
        insert_pos(s.drop_last(), key)
    }
}

/// The edges sorted by their first node, edges with the same first node in the
/// order they came in (a stable sort).
pub open spec fn sort_by_first(s: Seq<(usize, usize)>) -> Seq<(usize, usize)>
    decreases s.len(),
{
    if s.len() == 0 {
        s
    } else {
        let r = sort_by_first(s.drop_last());
        r.insert(insert_pos(r, s.last().0), s.last())
    }
}

pub proof fn lemma_insert_pos(s: Seq<(usize, usize)>, key: usize)
    ensures
        0 <= insert_pos(s, key) <= s.len(),
    decreases s.len(),
{
    if s.len() > 0 {
        lemma_insert_pos(s.drop_last(), key);
    }
}

/// Sorting keeps the edges and their number.
pub proof fn lemma_sort_by_first(s: Seq<(usize, usize)>)
    ensures
        sort_by_first(s).len() == s.len(),
        sort_by_first(s).to_multiset() =~= s.to_multiset(),
        forall|e: (usize, usize)| #[trigger] sort_by_first(s).contains(e) == s.contains(e),
    decreases s.len(),
{
    broadcast use vstd::seq_lib::group_to_multiset_ensures;

    if s.len() > 0 {
        let d = s.drop_last();
        lemma_sort_by_first(d);
        let r = sort_by_first(d);
        lemma_insert_pos(r, s.last().0);
        assert(s =~= d.push(s.last()));
        assert(sort_by_first(s).to_multiset() =~= r.to_multiset().insert(s.last()));
        assert(s.to_multiset() =~= d.to_multiset().insert(s.last()));
        assert forall|e: (usize, usize)| #[trigger] sort_by_first(s).contains(e) == s.contains(e) by {
            assert(sort_by_first(s).to_multiset().count(e) == s.to_multiset().count(e));
        }
    }
}

/// Sorts the edges by their first node, keeping the order of edges with the same one.
pub fn sort_edges_by_first(edges: &mut Vec<(usize, usize)>)
    ensures
        final(edges)@ == sort_by_first(old(edges)@),
{
    let ghost e0 = edges@;
    let mut sorted: Vec<(usize, usize)> = Vec::new();
    let mut k: usize = 0;
    while k < edges.len()
        invariant
            0 <= k <= edges@.len(),
            edges@ == e0,
            sorted@ == sort_by_first(e0.subrange(0, k as int)),
        decreases edges@.len() - k,
    {
        let ghost pre = e0.subrange(0, k + 1);
        assert(pre.drop_last() =~= e0.subrange(0, k as int));
        let e = edges[k];
        assert(pre.last() == e);
        proof {
            lemma_sort_by_first(e0.subrange(0, k as int));
        }
        let mut p: usize = sorted.len();
        assert(sorted@.subrange(0, p as int) =~= sorted@);
        while p > 0 && sorted[p - 1].0 > e.0
            invariant
                0 <= p <= sorted@.len(),
                insert_pos(sorted@, e.0) == insert_pos(sorted@.subrange(0, p as int), e.0),
            decreases p,
        {
            assert(sorted@.subrange(0, p as int).drop_last() =~= sorted@.subrange(0, p - 1));
            p = p - 1;
        }
        proof {
            if p > 0 {
                assert(sorted@.subrange(0, p as int).last() == sorted@[p - 1]);
            }
        }
        sorted.insert(p, e);
        k = k + 1;
    }
    assert(e0.subrange(0, e0.len() as int) =~= e0);
    *edges = sorted;
}

////////////////////////////////////////////////////////////////////////
// NEARSTART AND NEAREND
////////////////////////////////////////////////////////////////////////

/// Moves each of the names, in turn, to the front.
pub open spec fn to_front_all(mods: Seq<Seq<char>>, rs: Seq<Seq<char>>) -> Seq<Seq<char>>
    decreases rs.len(),
{
    if rs.len() == 0 {
        mods
    } else {
        let m = to_front_all(mods, rs.drop_last());
        move_item(m, position(m, rs.last()), 0)
    }
}

/// Moves each of the names, in turn, to the end.
pub open spec fn to_end_all(mods: Seq<Seq<char>>, rs: Seq<Seq<char>>) -> Seq<Seq<char>>
    decreases rs.len(),
{
    if rs.len() == 0 {
        mods
    } else {
        let m = to_end_all(mods, rs.drop_last());
        move_to_end(m, position(m, rs.last()))
    }
}

/// Applies the [NearStart] names from the last to the first: the plugins that each
/// name refers to are moved to the front.
pub open spec fn near_start(mods: Seq<Seq<char>>, ns: Seq<Seq<char>>) -> Seq<Seq<char>>
    decreases ns.len(),
{
    if ns.len() == 0 {
        mods
    } else {
        let rs = wild_contains_spec(mods, ns.last());
        let m = if rs is Some {
            to_front_all(mods, rs->0)
        } else {
            mods
        };
        near_start(m, ns.drop_last())
    }
}

/// Applies the [NearEnd] names from the last to the first: the plugins that each
/// name refers to are moved to the end.
pub open spec fn near_end(mods: Seq<Seq<char>>, ns: Seq<Seq<char>>) -> Seq<Seq<char>>
    decreases ns.len(),
{
    if ns.len() == 0 {
        mods
    } else {
        let rs = wild_contains_spec(mods, ns.last());
        let m = if rs is Some {
            to_end_all(mods, rs->0)
        } else {
            mods
        };
        near_end(m, ns.drop_last())
    }
}

/// The names of all [NearStart] rules, rule by rule.
pub open spec fn nearstart_names(rules: Seq<EOrderRule>) -> Seq<Seq<char>>
    decreases rules.len(),
{
    if rules.len() == 0 {
        seq![]
    } else {
        nearstart_names(rules.drop_last()) + match rules.last() {
            EOrderRule::NearStart(r) => strings_view(r.names@),
            _ => seq![],
        }
    }
}

/// The names of all [NearEnd] rules, rule by rule.
pub open spec fn nearend_names(rules: Seq<EOrderRule>) -> Seq<Seq<char>>
    decreases rules.len(),
{
    if rules.len() == 0 {
        seq![]
    } else {
        nearend_names(rules.drop_last()) + match rules.last() {
            EOrderRule::NearEnd(r) => strings_view(r.names@),
            _ => seq![],
        }
    }
}

/// Every name of `rs` is in `mods`.
pub open spec fn all_in(rs: Seq<Seq<char>>, mods: Seq<Seq<char>>) -> bool {
    forall|k: int| 0 <= k < rs.len() ==> mods.contains(#[trigger] rs[k])
}

pub proof fn lemma_to_front_all(mods: Seq<Seq<char>>, rs: Seq<Seq<char>>)
    requires
        all_in(rs, mods),
    ensures
        to_front_all(mods, rs).to_multiset() =~= mods.to_multiset(),
        to_front_all(mods, rs).len() == mods.len(),
        forall|x: Seq<char>| #[trigger] to_front_all(mods, rs).contains(x) == mods.contains(x),
    decreases rs.len(),
{
    if rs.len() > 0 {
        let d = rs.drop_last();
        assert(all_in(d, mods)) by {
            assert forall|k: int| 0 <= k < d.len() implies mods.contains(#[trigger] d[k]) by {
                assert(d[k] == rs[k]);
            }
        }
        lemma_to_front_all(mods, d);
        let m = to_front_all(mods, d);
        assert(mods.contains(rs[rs.len() - 1]));
        crate::ordering::lemma_position_bounds(m, rs.last());
        lemma_move_item(m, position(m, rs.last()), 0);
    }
}

pub proof fn lemma_to_end_all(mods: Seq<Seq<char>>, rs: Seq<Seq<char>>)
    requires
        all_in(rs, mods),
    ensures
        to_end_all(mods, rs).to_multiset() =~= mods.to_multiset(),
        to_end_all(mods, rs).len() == mods.len(),
        forall|x: Seq<char>| #[trigger] to_end_all(mods, rs).contains(x) == mods.contains(x),
    decreases rs.len(),
{
    if rs.len() > 0 {
        let d = rs.drop_last();
        assert(all_in(d, mods)) by {
            assert forall|k: int| 0 <= k < d.len() implies mods.contains(#[trigger] d[k]) by {
                assert(d[k] == rs[k]);
            }
        }
        lemma_to_end_all(mods, d);
        let m = to_end_all(mods, d);
        assert(mods.contains(rs[rs.len() - 1]));
        crate::ordering::lemma_position_bounds(m, rs.last());
        lemma_move_to_end(m, position(m, rs.last()));
    }
}

/// The wildcard results of a name are in the list.
proof fn lemma_wild_all_in(mods: Seq<Seq<char>>, p: Seq<char>)
    ensures
        wild_contains_spec(mods, p) is Some ==> all_in(wild_contains_spec(mods, p)->0, mods),
{
    if wild_contains_spec(mods, p) is Some {
        lemma_wild_in_list(mods, p, wild_contains_spec(mods, p)->0);
    }
}

/// The [NearStart] and [NearEnd] moves keep the plugins and their number.
pub proof fn lemma_near_keeps(mods: Seq<Seq<char>>, ns: Seq<Seq<char>>)
    ensures
        near_start(mods, ns).to_multiset() =~= mods.to_multiset(),
        near_start(mods, ns).len() == mods.len(),
        forall|x: Seq<char>| #[trigger] near_start(mods, ns).contains(x) == mods.contains(x),
        near_end(mods, ns).to_multiset() =~= mods.to_multiset(),
        near_end(mods, ns).len() == mods.len(),
        forall|x: Seq<char>| #[trigger] near_end(mods, ns).contains(x) == mods.contains(x),
    decreases ns.len(),
{
    if ns.len() > 0 {
        lemma_wild_all_in(mods, ns.last());
        let rs = wild_contains_spec(mods, ns.last());
        if rs is Some {
            lemma_to_front_all(mods, rs->0);
            lemma_to_end_all(mods, rs->0);
            lemma_near_keeps(to_front_all(mods, rs->0), ns.drop_last());
            lemma_near_keeps(to_end_all(mods, rs->0), ns.drop_last());
        } else {
            lemma_near_keeps(mods, ns.drop_last());
        }
    }
}

fn move_all(mods: &mut Vec<String>, rs: &Vec<String>, to_front: bool)
    requires
        all_in(strings_view(rs@), strings_view(old(mods)@)),
    ensures
        to_front ==> strings_view(final(mods)@) == to_front_all(
            strings_view(old(mods)@),
            strings_view(rs@),
        ),
        !to_front ==> strings_view(final(mods)@) == to_end_all(
            strings_view(old(mods)@),
            strings_view(rs@),
        ),
{
    let ghost m0 = strings_view(mods@);
    let ghost sr = strings_view(rs@);
    let mut k: usize = 0;
    while k < rs.len()
        invariant
            0 <= k <= rs@.len(),
            sr == strings_view(rs@),
            all_in(sr, m0),
            to_front ==> strings_view(mods@) == to_front_all(m0, sr.subrange(0, k as int)),
            !to_front ==> strings_view(mods@) == to_end_all(m0, sr.subrange(0, k as int)),
        decreases rs@.len() - k,
    {
        let ghost pre = sr.subrange(0, k + 1);
        assert(pre.drop_last() =~= sr.subrange(0, k as int));
        assert(pre.last() == rs@[k as int]@);
        assert(all_in(sr.subrange(0, k as int), m0)) by {
            assert forall|m: int| 0 <= m < k implies m0.contains(
                #[trigger] sr.subrange(0, k as int)[m],
            ) by {
                assert(sr.subrange(0, k as int)[m] == sr[m]);
            }
        }
        proof {
            lemma_to_front_all(m0, sr.subrange(0, k as int));
            lemma_to_end_all(m0, sr.subrange(0, k as int));
            assert(m0.contains(sr[k as int]));
        }
        let index = position_in(mods, &rs[k]);
        if to_front {
            move_name(mods, index, 0);
        } else {
            move_name_to_end(mods, index);
        }
        k = k + 1;
    }
    assert(sr.subrange(0, rs@.len() as int) =~= sr);
}

fn apply_near(mods: &mut Vec<String>, ns: &Vec<String>, to_front: bool)
    ensures
        to_front ==> strings_view(final(mods)@) == near_start(strings_view(old(mods)@), strings_view(ns@)),
        !to_front ==> strings_view(final(mods)@) == near_end(strings_view(old(mods)@), strings_view(ns@)),
{
    let ghost m0 = strings_view(mods@);
    let ghost sn = strings_view(ns@);
    let mut k: usize = ns.len();
    assert(sn.subrange(0, k as int) =~= sn);
    while k > 0
        invariant
            0 <= k <= ns@.len(),
            sn == strings_view(ns@),
            to_front ==> near_start(m0, sn) == near_start(strings_view(mods@), sn.subrange(0, k as int)),
            !to_front ==> near_end(m0, sn) == near_end(strings_view(mods@), sn.subrange(0, k as int)),
        decreases k,
    {
        let ghost pre = sn.subrange(0, k as int);
        assert(pre.drop_last() =~= sn.subrange(0, k - 1));
        assert(pre.last() == ns@[k - 1]@);
        let ghost cur = strings_view(mods@);
        if let Some(results) = wild_contains(mods.as_slice(), &ns[k - 1]) {
            proof {
                lemma_wild_in_list(cur, ns@[k - 1]@, strings_view(results@));
            }
            move_all(mods, &results, to_front);
        }
        k = k - 1;
    }
}

/// The names of the [NearStart] rules, or of the [NearEnd] rules.
fn near_names(rules: &[EOrderRule], start: bool) -> (r: Vec<String>)
    ensures
        start ==> strings_view(r@) == nearstart_names(rules@),
        !start ==> strings_view(r@) == nearend_names(rules@),
{
    let mut ns: Vec<String> = Vec::new();
    let mut i: usize = 0;
    while i < rules.len()
        invariant
            0 <= i <= rules@.len(),
            start ==> strings_view(ns@) == nearstart_names(rules@.subrange(0, i as int)),
            !start ==> strings_view(ns@) == nearend_names(rules@.subrange(0, i as int)),
        decreases rules@.len() - i,
    {
        let ghost pre = rules@.subrange(0, i + 1);
        assert(pre.drop_last() =~= rules@.subrange(0, i as int));
        assert(pre.last() == rules@[i as int]);
        let ghost prev = strings_view(ns@);
        let names: Option<&Vec<String>> = match &rules[i] {
            EOrderRule::NearStart(r) => if start {
                Some(&r.names)
            } else {
                None
            },
            EOrderRule::NearEnd(r) => if start {
                None
            } else {
                Some(&r.names)
            },
            _ => None,
        };
        match names {
            Some(v) => {
                let mut j: usize = 0;
                while j < v.len()
                    invariant
                        0 <= j <= v@.len(),
                        strings_view(ns@) == prev + strings_view(v@).subrange(0, j as int),
                    decreases v@.len() - j,
                {
                    let ghost before = ns@;
                    let c = v[j].clone();
                    assert(c@ == v@[j as int]@);
                    ns.push(c);
                    assert(strings_view(ns@) =~= strings_view(before).push(v@[j as int]@));
                    assert(strings_view(v@).subrange(0, j + 1) =~= strings_view(v@).subrange(
                        0,
                        j as int,
                    ).push(v@[j as int]@));
                    j = j + 1;
                    assert(strings_view(ns@) =~= prev + strings_view(v@).subrange(0, j as int));
                }
                assert(strings_view(v@).subrange(0, v@.len() as int) =~= strings_view(v@));
            },
            None => {
                assert(strings_view(ns@) =~= prev + seq![]);
            },
        }
        i = i + 1;
    }
    assert(rules@.subrange(0, rules@.len() as int) =~= rules@);
    ns
}

////////////////////////////////////////////////////////////////////////
// THE PASSES KEEP THE PLUGINS
////////////////////////////////////////////////////////////////////////

proof fn lemma_scan_range(
    n: int,
    es: Seq<(usize, usize)>,
    names: Seq<Seq<char>>,
    r: Seq<Seq<char>>,
    i: int,
    j: int,
)
    ensures
        scan(n, es, names, r, i, j) matches Some(p) ==> 0 <= p.1 < p.0 < n,
    decreases n - i, i - j,
{
    if i >= n || j < 0 || i < 0 {
    } else if j >= i {
        lemma_scan_range(n, es, names, r, i + 1, 0);
    } else if violation(es, names, r, i, j) {
    } else {
        lemma_scan_range(n, es, names, r, i, j + 1);
    }
}

/// A pass of the stable sort keeps the plugins and their number.
pub proof fn lemma_sort_pass_keeps(
    sort_type: ESortType,
    n: int,
    es: Seq<(usize, usize)>,
    names: Seq<Seq<char>>,
    mods: Seq<Seq<char>>,
    last: usize,
)
    requires
        n <= mods.len(),
        edges_named_in(es, names, mods),
    ensures
        sort_pass(sort_type, n, es, names, mods, last).0.to_multiset() =~= mods.to_multiset(),
        sort_pass(sort_type, n, es, names, mods, last).0.len() == mods.len(),
        forall|x: Seq<char>| #[trigger]
            sort_pass(sort_type, n, es, names, mods, last).0.contains(x) == mods.contains(x),
        !sort_pass(sort_type, n, es, names, mods, last).1 ==> sort_pass(
            sort_type,
            n,
            es,
            names,
            mods,
            last,
        ).0 == mods,
{
    match sort_type {
        ESortType::StableFull => {
            lemma_scan_range(n, es, names, mods, 0, 0);
            if let Some(p) = scan(n, es, names, mods, 0, 0) {
                lemma_move_item(mods, p.0, p.1);
            }
        },
        _ => {
            lemma_opt_pass_keeps(es, names, mods, last);
        },
    }
}

////////////////////////////////////////////////////////////////////////
// THE WHOLE SORT
////////////////////////////////////////////////////////////////////////

/// Runs passes until one moves nothing, at most `iters` of them: the order that no
/// pass changes, or nothing if the passes ran out.
pub open spec fn sort_loop(
    sort_type: ESortType,
    n: int,
    es: Seq<(usize, usize)>,
    names: Seq<Seq<char>>,
    mods: Seq<Seq<char>>,
    last: usize,
    iters: nat,
) -> Option<Seq<Seq<char>>>
    decreases iters,
{
    if iters == 0 {
        None
    } else {
        let p = sort_pass(sort_type, n, es, names, mods, last);
        if !p.1 {
            Some(mods)
        } else {
            sort_loop(sort_type, n, es, names, p.0, p.2, (iters - 1) as nat)
        }
    }
}

/// A master file of the game, which loads before the other plugins.
pub open spec fn is_master_file(m: Seq<char>) -> bool {
    crate::text::ends_with(m, ".esm"@) || crate::text::ends_with(m, ".omwgame"@)
}

/// The master files first, then the other plugins, each in their order.
pub open spec fn masters_first(mods: Seq<Seq<char>>) -> Seq<Seq<char>> {
    mods.filter(|m: Seq<char>| is_master_file(m)) + mods.filter(|m: Seq<char>| !is_master_file(m))
}

/// `morrowind.esm`, if it is there, moved to the front.
pub open spec fn morrowind_first(mods: Seq<Seq<char>>) -> Seq<Seq<char>> {
    if mods.contains("morrowind.esm"@) {
        move_item(mods, position(mods, "morrowind.esm"@), 0)
    } else {
        mods
    }
}

/// The last step of the stable sort: for Morrowind and OpenMW the master files go
/// first, and `morrowind.esm` first of all.
pub open spec fn finish_order(game: ESupportedGame, mods: Seq<Seq<char>>) -> Seq<Seq<char>> {
    if game == ESupportedGame::Morrowind || game == ESupportedGame::OpenMW {
        morrowind_first(masters_first(mods))
    } else {
        mods
    }
}

/// The plugins' own names for the lowercase names of an order: the name of the last
/// plugin with each lowercase name.
pub open spec fn names_back(plugins: Seq<PluginView>, mods: Seq<Seq<char>>) -> Seq<Seq<char>> {
    mods.map_values(|x: Seq<char>| plugins[last_index(lc_names(plugins), x)].name)
}

/// The lowercase order that the stable sort reaches, before the last step.
pub open spec fn stable_order(
    sort_type: ESortType,
    max_iterations: usize,
    plugins: Seq<PluginView>,
    rules: Seq<EOrderRule>,
) -> Option<Seq<Seq<char>>> {
    let names = lc_names(plugins);
    let mods = near_end(near_start(names, nearstart_names(rules)), nearend_names(rules));
    let iters: nat = if max_iterations >= 1 {
        (max_iterations - 1) as nat
    } else {
        0
    };
    sort_loop(
        sort_type,
        plugins.len() as int,
        sort_by_first(graph_edges(plugins, rules)),
        names,
        mods,
        0,
        iters,
    )
}

/// What [Sorter::topo_sort] gives: the sorted plugin names, or what went wrong.
pub open spec fn topo_sort_spec(
    sort_type: ESortType,
    max_iterations: usize,
    game: ESupportedGame,
    plugins: Seq<PluginView>,
    rules: Seq<EOrderRule>,
) -> Result<Seq<Seq<char>>, Seq<char>> {
    if rules.len() == 0 {
        Err("No order rules found"@)
    } else if sort_type == ESortType::Unstable {
        match toposort_result(plugins.len() as usize, graph_edges(plugins, rules)) {
            Some(v) => Ok(v.map_values(|i: usize| plugins[i as int].name)),
            None => Err("Graph contains a cycle"@),
        }
    } else {
        match stable_order(sort_type, max_iterations, plugins, rules) {
            Some(m) => Ok(names_back(plugins, finish_order(game, m))),
            None => Err("Out of iterations"@),
        }
    }
}

pub open spec fn result_view(r: Result<Vec<String>, &'static str>) -> Result<Seq<Seq<char>>, Seq<char>> {
    match r {
        Ok(v) => Ok(strings_view(v@)),
        Err(e) => Err(e@),
    }
}

////////////////////////////////////////////////////////////////////////
// THE GRAPH LIBRARY'S SORT
////////////////////////////////////////////////////////////////////////

/// What `petgraph::algo::toposort` gives for the graph with the nodes `0..n`, added in
/// that order, and the edges, added in that order: the nodes in topological order, or
/// nothing where the graph has a cycle.
pub uninterp spec fn toposort_result(n: usize, edges: Seq<(usize, usize)>) -> Option<Seq<usize>>;

/// Each node below `n` occurs exactly once.
pub open spec fn is_node_order(v: Seq<usize>, n: int) -> bool {
    &&& v.len() == n
    &&& forall|i: int| 0 <= i < v.len() ==> #[trigger] v[i] < n
    &&& forall|i: int, j: int| 0 <= i < j < v.len() ==> v[i] != v[j]
    &&& forall|x: usize| x < n ==> #[trigger] v.contains(x)
}

/// The first node of each edge comes before its second node.
pub open spec fn follows_edges(v: Seq<usize>, es: Seq<(usize, usize)>) -> bool {
    forall|k: int, i: int, j: int|
        0 <= k < es.len() && 0 <= i < v.len() && 0 <= j < v.len() && #[trigger] v[i] == (
        #[trigger] es[k]).0 && #[trigger] v[j] == es[k].1 ==> i < j
}

/// Some ranking of the nodes puts the first node of every edge below its second node:
/// the graph has no cycle.
pub open spec fn is_acyclic(es: Seq<(usize, usize)>) -> bool {
    exists|f: spec_fn(usize) -> int| #[trigger] ranks(f, es)
}

/// The ranking puts the first node of every edge below its second node.
pub open spec fn ranks(f: spec_fn(usize) -> int, es: Seq<(usize, usize)>) -> bool {
    forall|k: int| 0 <= k < es.len() ==> f((#[trigger] es[k]).0) < f(es[k].1)
}

/// `petgraph::algo::toposort` on a `StableGraph` with the nodes `0..n` and the edges.
/// Its documentation promises the nodes in topological order where the graph has no
/// cycle, and an error where it has one (a self loop too); the order is the source's
/// depth-first order and is only named here. The graph's indices are `u32`, so adding
/// a node or an edge panics from `u32::MAX` on.
#[verifier::external_body]
fn toposort(n: usize, edges: &Vec<(usize, usize)>) -> (r: Option<Vec<usize>>)
    requires
        n < 0xFFFF_FFFF,
        edges@.len() < 0xFFFF_FFFF,
        edges_within(edges@, n as int),
    ensures
        r matches Some(v) ==> toposort_result(n, edges@) == Some(v@) && is_node_order(v@, n as int)
            && follows_edges(v@, edges@),
        r is None ==> toposort_result(n, edges@) is None && !is_acyclic(edges@),
{
    let mut g = petgraph::stable_graph::StableGraph::<(), ()>::with_capacity(n, edges.len());
    for _ in 0..n {
        g.add_node(());
    }
    for e in edges.iter() {
        g.add_edge(petgraph::graph::NodeIndex::new(e.0), petgraph::graph::NodeIndex::new(e.1), ());
    }
    match petgraph::algo::toposort(&g, None) {
        Ok(order) => Some(order.iter().map(|i| i.index()).collect()),
        Err(_) => None,
    }
}

/// Whether a lowercase plugin name is that of a master file.
pub fn is_master_file_name(m: &String) -> (r: bool)
    ensures
        r == is_master_file(m@),
{
    let c = crate::text::str_chars(m.as_str());
    let esm = crate::text::str_chars(".esm");
    let omwgame = crate::text::str_chars(".omwgame");
    crate::text::ends_with_chars(c.as_slice(), esm.as_slice()) || crate::text::ends_with_chars(
        c.as_slice(),
        omwgame.as_slice(),
    )
}

/// The last step of the stable sort: for Morrowind and OpenMW the master files go
/// first, and `morrowind.esm` first of all.
pub fn finish_sort(game: ESupportedGame, mods: Vec<String>) -> (r: Vec<String>)
    ensures
        strings_view(r@) == finish_order(game, strings_view(mods@)),
{
    if game == ESupportedGame::Morrowind || game == ESupportedGame::OpenMW {
        let ghost s = strings_view(mods@);
        let ghost fm = |m: Seq<char>| is_master_file(m);
        let ghost fo = |m: Seq<char>| !is_master_file(m);
        let mut esms: Vec<String> = Vec::new();
        let mut others: Vec<String> = Vec::new();
        let mut i: usize = 0;
        while i < mods.len()
            invariant
                0 <= i <= mods@.len(),
                s == strings_view(mods@),
                fm == (|m: Seq<char>| is_master_file(m)),
                fo == (|m: Seq<char>| !is_master_file(m)),
                strings_view(esms@) == s.subrange(0, i as int).filter(fm),
                strings_view(others@) == s.subrange(0, i as int).filter(fo),
            decreases mods@.len() - i,
        {
            proof {
                reveal_with_fuel(Seq::<_>::filter, 1);
                assert(s.subrange(0, i + 1).drop_last() =~= s.subrange(0, i as int));
                assert(s.subrange(0, i + 1).last() == mods@[i as int]@);
            }
            let ghost pe = esms@;
            let ghost po = others@;
            if is_master_file_name(&mods[i]) {
                esms.push(mods[i].clone());
                assert(strings_view(esms@) =~= strings_view(pe).push(mods@[i as int]@));
            } else {
                others.push(mods[i].clone());
                assert(strings_view(others@) =~= strings_view(po).push(mods@[i as int]@));
            }
            i = i + 1;
        }
        assert(s.subrange(0, mods@.len() as int) =~= s);
        let ghost pe = esms@;
        esms.append(&mut others);
        assert(strings_view(esms@) =~= masters_first(s));
        let mw = String::from_str("morrowind.esm");
        let ghost ms = strings_view(esms@);
        match crate::ordering::position_of(esms.as_slice(), &mw) {
            Some(index) => {
                proof {
                    crate::ordering::lemma_position_bounds(ms, mw@);
                }
                move_name(&mut esms, index, 0);
            },
            None => {
                proof {
                    crate::ordering::lemma_position_bounds(ms, mw@);
                }
            },
        }
        esms
    } else {
        mods
    }
}

/// The plugins' own names for the lowercase names of an order.
pub fn get_names_back(plugins: &[PluginData], names: &Vec<String>, mods: &Vec<String>) -> (r: Vec<
    String,
>)
    requires
        strings_view(names@) == lc_names(plugins_view(plugins@)),
        all_named(strings_view(names@), strings_view(mods@)),
    ensures
        strings_view(r@) == names_back(plugins_view(plugins@), strings_view(mods@)),
{
    let ghost pv = plugins_view(plugins@);
    let ghost sn = strings_view(names@);
    let ghost sm = strings_view(mods@);
    let n_names = names.len();
    let mut result: Vec<String> = Vec::new();
    let mut i: usize = 0;
    while i < mods.len()
        invariant
            0 <= i <= mods@.len(),
            pv == plugins_view(plugins@),
            sn == strings_view(names@),
            sm == strings_view(mods@),
            sn == lc_names(pv),
            n_names == names@.len(),
            all_named(sn, sm),
            strings_view(result@) == names_back(pv, sm.subrange(0, i as int)),
        decreases mods@.len() - i,
    {
        proof {
            assert(sn.contains(sm[i as int]));
            lemma_node_in(sn, sm[i as int]);
        }
        assert(sm[i as int] == mods@[i as int]@);
        let idx = index_of_name(names.as_slice(), &mods[i]).unwrap();
        assert(sn.len() == pv.len());
        let ghost prev = result@;
        let name = plugins[idx].name.clone();
        assert(pv[idx as int] == plugins@[idx as int]@);
        result.push(name);
        assert(strings_view(result@) =~= strings_view(prev).push(pv[idx as int].name));
        assert(names_back(pv, sm.subrange(0, i + 1)) =~= names_back(pv, sm.subrange(0, i as int)).push(
            pv[last_index(sn, sm[i as int])].name,
        ));
        i = i + 1;
    }
    assert(sm.subrange(0, mods@.len() as int) =~= sm);
    result
}

proof fn lemma_edges_named(es: Seq<(usize, usize)>, names: Seq<Seq<char>>, mods: Seq<Seq<char>>)
    requires
        edges_within(es, names.len() as int),
        forall|x: Seq<char>| #[trigger] mods.contains(x) == names.contains(x),
    ensures
        edges_within(sort_by_first(es), names.len() as int),
        edges_named_in(sort_by_first(es), names, mods),
{
    lemma_sort_by_first(es);
    let s = sort_by_first(es);
    assert forall|k: int| 0 <= k < s.len() implies (#[trigger] s[k]).0 < names.len() && s[k].1
        < names.len() by {
        assert(s.contains(s[k]));
        let m = choose|m: int| 0 <= m < es.len() && es[m] == s[k];
        assert(es[m].0 < names.len());
    }
    assert forall|k: int| 0 <= k < s.len() implies mods.contains(names[(#[trigger] s[k]).0 as int])
        && mods.contains(names[s[k].1 as int]) by {
        assert(names.contains(names[s[k].0 as int]));
        assert(names.contains(names[s[k].1 as int]));
    }
}

/// The last step keeps every plugin of the order among the named ones.
pub proof fn lemma_finish_named(game: ESupportedGame, names: Seq<Seq<char>>, mods: Seq<Seq<char>>)
    requires
        all_named(names, mods),
    ensures
        all_named(names, finish_order(game, mods)),
        forall|x: Seq<char>| #[trigger] finish_order(game, mods).contains(x) ==> mods.contains(x),
{
    let fm = |m: Seq<char>| is_master_file(m);
    let fo = |m: Seq<char>| !is_master_file(m);
    let mf = masters_first(mods);
    assert forall|x: Seq<char>| #[trigger] mf.contains(x) implies mods.contains(x) by {
        let k = choose|k: int| 0 <= k < mf.len() && mf[k] == x;
        if k < mods.filter(fm).len() {
            assert(mods.filter(fm)[k] == x);
            assert(mods.filter(fm).contains(x));
            mods.lemma_filter_contains_rev(fm, x);
        } else {
            assert(mods.filter(fo)[k - mods.filter(fm).len()] == x);
            assert(mods.filter(fo).contains(x));
            mods.lemma_filter_contains_rev(fo, x);
        }
    }
    let f = finish_order(game, mods);
    if game == ESupportedGame::Morrowind || game == ESupportedGame::OpenMW {
        if mf.contains("morrowind.esm"@) {
            crate::ordering::lemma_position_bounds(mf, "morrowind.esm"@);
            lemma_move_item(mf, position(mf, "morrowind.esm"@), 0);
        }
    }
    assert forall|x: Seq<char>| #[trigger] f.contains(x) implies mods.contains(x) by {
    }
    assert forall|k: int| 0 <= k < f.len() implies names.contains(#[trigger] f[k]) by {
        assert(f.contains(f[k]));
        assert(mods.contains(f[k]));
        let m = choose|m: int| 0 <= m < mods.len() && mods[m] == f[k];
        assert(names.contains(mods[m]));
    }
}

impl Sorter {
    /// Sorts the plugins topologically by the order rules and the plugins' masters.
    /// The names are compared in lowercase; the result holds the plugins' own names.
    pub fn topo_sort(
        &mut self,
        game: ESupportedGame,
        plugins: &[PluginData],
        order_rules: &[EOrderRule],
        warn_rules: &[EWarningRule],
    ) -> (r: Result<Vec<String>, &'static str>)
        requires
            old(self).sort_type == ESortType::Unstable ==> plugins@.len() < 0xFFFF_FFFF
                && graph_edges(plugins_view(plugins@), order_rules@).len() < 0xFFFF_FFFF,
        ensures
            *final(self) == *old(self),
            result_view(r) == topo_sort_spec(
                old(self).sort_type,
                old(self).max_iterations,
                game,
                plugins_view(plugins@),
                order_rules@,
            ),
            order_rules@.len() > 0 && !is_acyclic_loopless(
                graph_edges(plugins_view(plugins@), order_rules@),
            ) ==> r is Err,
            old(self).sort_type == ESortType::Unstable && r is Ok ==> (toposort_result(
                plugins@.len() as usize,
                graph_edges(plugins_view(plugins@), order_rules@),
            ) matches Some(v) && is_node_order(v, plugins@.len() as int) && follows_edges(
                v,
                graph_edges(plugins_view(plugins@), order_rules@),
            )),
            r matches Ok(v) ==> (lowercase_named(plugins_view(plugins@)) && (game
                == ESupportedGame::Cyberpunk || no_master_files(plugins_view(plugins@))) && (old(
                self,
            ).sort_type == ESortType::Unstable ==> lc_names(plugins_view(plugins@)).no_duplicates())
                ==> order_followed(strings_view(v@), order_rules@)),
            r matches Ok(v) ==> ((game == ESupportedGame::Cyberpunk || no_master_files(
                plugins_view(plugins@),
            )) && (old(self).sort_type == ESortType::Unstable ==> lc_names(
                plugins_view(plugins@),
            ).no_duplicates()) ==> order_followed(lower_all(strings_view(v@)), order_rules@)),
            r matches Ok(v) ==> (old(self).sort_type != ESortType::Unstable ==> exists|m: Seq<Seq<char>>|
                order_followed(m, order_rules@) && lower_all(strings_view(v@)) == #[trigger] finish_order(
                    game,
                    m,
                )),
            r matches Ok(v) ==> (old(self).sort_type == ESortType::Unstable || lc_names(
                plugins_view(plugins@),
            ).no_duplicates() ==> strings_view(v@).to_multiset() == plugin_names(
                plugins_view(plugins@),
            ).to_multiset()),
    {
        let ghost pv = plugins_view(plugins@);
        if order_rules.len() == 0 {
            return Err("No order rules found");
        }
        let data = get_graph_data(plugins, order_rules, warn_rules);
        let GraphData { index_dict_rev, mut edges } = data;
        let ghost names = strings_view(index_dict_rev@);
        let ghost es = edges@;
        if self.sort_type == ESortType::Unstable {
            match toposort(plugins.len(), &edges) {
                Some(sort) => {
                    proof {
                        lemma_node_order_acyclic(sort@, plugins@.len() as int, es);
                        lemma_acyclic_loopless(es);
                    }
                    let mut result: Vec<String> = Vec::new();
                    let mut i: usize = 0;
                    while i < sort.len()
                        invariant
                            0 <= i <= sort@.len(),
                            pv == plugins_view(plugins@),
                            is_node_order(sort@, plugins@.len() as int),
                            strings_view(result@) == sort@.subrange(0, i as int).map_values(
                                |k: usize| pv[k as int].name,
                            ),
                        decreases sort@.len() - i,
                    {
                        let idx = sort[i];
                        assert(sort@[i as int] < plugins@.len());
                        let ghost prev = result@;
                        result.push(plugins[idx].name.clone());
                        assert(pv[idx as int] == plugins@[idx as int]@);
                        assert(strings_view(result@) =~= strings_view(prev).push(pv[idx as int].name));
                        assert(sort@.subrange(0, i + 1).map_values(|k: usize| pv[k as int].name)
                            =~= sort@.subrange(0, i as int).map_values(|k: usize| pv[k as int].name).push(
                            pv[idx as int].name,
                        ));
                        i = i + 1;
                    }
                    assert(sort@.subrange(0, sort@.len() as int) =~= sort@);
                    proof {
                        lemma_node_order_multiset(pv, sort@);
                        if lc_names(pv).no_duplicates() {
                            assert(lower_all(strings_view(result@)) =~= node_names(sort@, lc_names(pv)));
                            lemma_node_order_follows_rules(pv, order_rules@, sort@);
                        }
                        if lowercase_named(pv) && lc_names(pv).no_duplicates() {
                            assert(strings_view(result@) =~= node_names(sort@, lc_names(pv)));
                            lemma_node_order_follows_rules(pv, order_rules@, sort@);
                        }
                    }
                    return Ok(result);
                },
                None => {
                    return Err("Graph contains a cycle");
                },
            }
        }
        let mut mods = lowercase_names(plugins);
        let ns = near_names(order_rules, true);
        apply_near(&mut mods, &ns, true);
        let ne = near_names(order_rules, false);
        apply_near(&mut mods, &ne, false);
        let ghost m0 = strings_view(mods@);
        proof {
            lemma_near_keeps(names, nearstart_names(order_rules@));
            lemma_near_keeps(near_start(names, nearstart_names(order_rules@)), nearend_names(order_rules@));
        }
        let n = plugins.len();
        let mut index: usize = 0;
        sort_edges_by_first(&mut edges);
        let ghost sorted = edges@;
        proof {
            lemma_edges_named(es, names, m0);
        }
        let ghost iters: nat = if self.max_iterations >= 1 {
            (self.max_iterations - 1) as nat
        } else {
            0
        };
        assert(all_named(names, m0)) by {
            assert forall|k: int| 0 <= k < m0.len() implies names.contains(#[trigger] m0[k]) by {
                assert(m0.contains(m0[k]));
            }
        }
        let mut i: usize = 1;
        while i < self.max_iterations
            invariant
                1 <= i,
                self.max_iterations >= 1 ==> i <= self.max_iterations,
                *self == *old(self),
                self.sort_type != ESortType::Unstable,
                order_rules@.len() > 0,
                pv == plugins_view(plugins@),
                names == strings_view(index_dict_rev@),
                names == lc_names(pv),
                edges@ == sorted,
                n == mods@.len(),
                n == plugins@.len(),
                all_named(names, strings_view(mods@)),
                edges_named_in(sorted, names, strings_view(mods@)),
                self.max_iterations >= 1 ==> stable_order(self.sort_type, self.max_iterations, pv, order_rules@) == sort_loop(
                    self.sort_type,
                    n as int,
                    sorted,
                    names,
                    strings_view(mods@),
                    index,
                    (self.max_iterations - i) as nat,
                ),
            decreases self.max_iterations - i,
        {
            let ghost cur = strings_view(mods@);
            let ghost cur_index = index;
            proof {
                lemma_sort_pass_keeps(self.sort_type, n as int, sorted, names, cur, index);
            }
            let any_change = self.stable_topo_sort_inner(
                n,
                edges.as_slice(),
                index_dict_rev.as_slice(),
                &mut mods,
                &mut index,
            );
            proof {
                assert forall|k: int| 0 <= k < strings_view(mods@).len() implies names.contains(
                    #[trigger] strings_view(mods@)[k],
                ) by {
                    assert(strings_view(mods@).contains(strings_view(mods@)[k]));
                    assert(cur.contains(strings_view(mods@)[k]));
                    let m = choose|m: int| 0 <= m < cur.len() && cur[m] == strings_view(mods@)[k];
                    assert(names.contains(cur[m]));
                }
                assert forall|k: int| 0 <= k < sorted.len() implies strings_view(mods@).contains(
                    names[(#[trigger] sorted[k]).0 as int],
                ) && strings_view(mods@).contains(names[sorted[k].1 as int]) by {
                    assert(cur.contains(names[sorted[k].0 as int]));
                    assert(cur.contains(names[sorted[k].1 as int]));
                }
            }
            if !any_change {
                assert(strings_view(mods@) == cur);
                assert(sort_loop(
                    self.sort_type,
                    n as int,
                    sorted,
                    names,
                    cur,
                    cur_index,
                    (self.max_iterations - i) as nat,
                ) == Some(cur));
                assert(stable_order(self.sort_type, self.max_iterations, pv, order_rules@) == Some(
                    cur,
                ));
                proof {
                    if !is_acyclic_loopless(graph_edges(pv, order_rules@)) {
                        lemma_stable_cycle(self.sort_type, self.max_iterations, pv, order_rules@);
                    }
                }
                let fin = finish_sort(game, mods);
                proof {
                    lemma_finish_named(game, names, cur);
                }
                let result = get_names_back(plugins, &index_dict_rev, &fin);
                assert(strings_view(fin@) == finish_order(game, cur));
                assert(strings_view(result@) == names_back(pv, finish_order(game, cur)));
                assert(topo_sort_spec(self.sort_type, self.max_iterations, game, pv, order_rules@)
                    == Ok::<Seq<Seq<char>>, Seq<char>>(names_back(pv, finish_order(game, cur))));
                proof {
                    lemma_lower_names_back(pv, finish_order(game, cur));
                    lemma_stable_order_follows_rules(self.sort_type, self.max_iterations, pv, order_rules@);
                    assert(order_followed(cur, order_rules@));
                    if game == ESupportedGame::Cyberpunk || no_master_files(pv) {
                        lemma_finish_moves_nothing(game, pv, cur);
                        lemma_lower_names_back(pv, cur);
                        lemma_stable_order_follows_rules(self.sort_type, self.max_iterations, pv, order_rules@);
                    }
                    if names.no_duplicates() {
                        lemma_stable_result_multiset(self.sort_type, self.max_iterations, game, pv, order_rules@);
                    }
                    if lowercase_named(pv) && (game == ESupportedGame::Cyberpunk || no_master_files(pv)) {
                        lemma_finish_unchanged(game, pv, cur);
                        lemma_stable_order_follows_rules(self.sort_type, self.max_iterations, pv, order_rules@);
                    }
                }
                return Ok(result);
            }
            i = i + 1;
        }
        Err("Out of iterations")
    }
}

////////////////////////////////////////////////////////////////////////
// LAWS OF THE SORT
////////////////////////////////////////////////////////////////////////

/// `a` is the node of its name: the last index with that name.
pub open spec fn is_node_of(names: Seq<Seq<char>>, a: usize) -> bool {
    a < names.len() && last_index(names, names[a as int]) == a as int
}

/// Both ends of every edge are nodes of their names.
pub open spec fn canonical(es: Seq<(usize, usize)>, names: Seq<Seq<char>>) -> bool {
    forall|k: int|
        0 <= k < es.len() ==> is_node_of(names, (#[trigger] es[k]).0) && is_node_of(names, es[k].1)
}

proof fn lemma_node_canonical(names: Seq<Seq<char>>, x: Seq<char>)
    requires
        names.contains(x),
        names.len() <= usize::MAX,
    ensures
        is_node_of(names, node(names, x)),
{
    lemma_last_index(names, x);
}

proof fn lemma_push_canonical(es: Seq<(usize, usize)>, names: Seq<Seq<char>>, e: (usize, usize))
    requires
        canonical(es, names),
        is_node_of(names, e.0),
        is_node_of(names, e.1),
    ensures
        canonical(push_unique(es, e), names),
{
    let r = push_unique(es, e);
    assert forall|k: int| 0 <= k < r.len() implies is_node_of(names, (#[trigger] r[k]).0)
        && is_node_of(names, r[k].1) by {
        if k < es.len() {
            assert(r[k] == es[k]);
        }
    }
}

proof fn lemma_edges_from_canonical(
    es: Seq<(usize, usize)>,
    names: Seq<Seq<char>>,
    i: Seq<char>,
    rb: Seq<Seq<char>>,
)
    requires
        canonical(es, names),
        names.contains(i),
        all_in(rb, names),
        names.len() <= usize::MAX,
    ensures
        canonical(edges_from(es, names, i, rb), names),
    decreases rb.len(),
{
    if rb.len() > 0 {
        let d = rb.drop_last();
        assert(all_in(d, names)) by {
            assert forall|k: int| 0 <= k < d.len() implies names.contains(#[trigger] d[k]) by {
                assert(d[k] == rb[k]);
            }
        }
        lemma_edges_from_canonical(es, names, i, d);
        if i != rb.last() {
            assert(names.contains(rb[rb.len() - 1]));
            lemma_node_canonical(names, i);
            lemma_node_canonical(names, rb.last());
            lemma_push_canonical(
                edges_from(es, names, i, d),
                names,
                (node(names, i), node(names, rb.last())),
            );
        }
    }
}

proof fn lemma_edges_between_canonical(
    es: Seq<(usize, usize)>,
    names: Seq<Seq<char>>,
    ra: Seq<Seq<char>>,
    rb: Seq<Seq<char>>,
)
    requires
        canonical(es, names),
        all_in(ra, names),
        all_in(rb, names),
        names.len() <= usize::MAX,
    ensures
        canonical(edges_between(es, names, ra, rb), names),
    decreases ra.len(),
{
    if ra.len() > 0 {
        let d = ra.drop_last();
        assert(all_in(d, names)) by {
            assert forall|k: int| 0 <= k < d.len() implies names.contains(#[trigger] d[k]) by {
                assert(d[k] == ra[k]);
            }
        }
        lemma_edges_between_canonical(es, names, d, rb);
        assert(names.contains(ra[ra.len() - 1]));
        lemma_edges_from_canonical(edges_between(es, names, d, rb), names, ra.last(), rb);
    }
}

proof fn lemma_order_edges_canonical(names: Seq<Seq<char>>, pairs: Seq<(Seq<char>, Seq<char>)>)
    requires
        names.len() <= usize::MAX,
    ensures
        canonical(order_edges(names, pairs), names),
    decreases pairs.len(),
{
    if pairs.len() > 0 {
        lemma_order_edges_canonical(names, pairs.drop_last());
        lemma_wild_all_in(names, pairs.last().0);
        lemma_wild_all_in(names, pairs.last().1);
        let ra = wild_contains_spec(names, pairs.last().0);
        let rb = wild_contains_spec(names, pairs.last().1);
        if ra is Some && rb is Some {
            lemma_edges_between_canonical(
                order_edges(names, pairs.drop_last()),
                names,
                ra->0,
                rb->0,
            );
        }
    }
}

proof fn lemma_edges_to_canonical(
    es: Seq<(usize, usize)>,
    names: Seq<Seq<char>>,
    target: usize,
    rs: Seq<Seq<char>>,
)
    requires
        canonical(es, names),
        is_node_of(names, target),
        all_in(rs, names),
        names.len() <= usize::MAX,
    ensures
        canonical(edges_to(es, names, target, rs), names),
    decreases rs.len(),
{
    if rs.len() > 0 {
        let d = rs.drop_last();
        assert(all_in(d, names)) by {
            assert forall|k: int| 0 <= k < d.len() implies names.contains(#[trigger] d[k]) by {
                assert(d[k] == rs[k]);
            }
        }
        lemma_edges_to_canonical(es, names, target, d);
        assert(names.contains(rs[rs.len() - 1]));
        lemma_node_canonical(names, rs.last());
        lemma_push_canonical(edges_to(es, names, target, d), names, (node(names, rs.last()), target));
    }
}

proof fn lemma_master_edges_of_canonical(
    es: Seq<(usize, usize)>,
    names: Seq<Seq<char>>,
    target: usize,
    masters: Seq<(Seq<char>, u64)>,
)
    requires
        canonical(es, names),
        is_node_of(names, target),
        names.len() <= usize::MAX,
    ensures
        canonical(master_edges_of(es, names, target, masters), names),
    decreases masters.len(),
{
    if masters.len() > 0 {
        let d = masters.drop_last();
        lemma_master_edges_of_canonical(es, names, target, d);
        let m = lowercase(masters.last().0);
        lemma_wild_all_in(names, m);
        if wild_contains_spec(names, m) is Some {
            lemma_edges_to_canonical(
                master_edges_of(es, names, target, d),
                names,
                target,
                wild_contains_spec(names, m)->0,
            );
        }
    }
}

proof fn lemma_masters_edges_canonical(
    es: Seq<(usize, usize)>,
    names: Seq<Seq<char>>,
    plugins: Seq<PluginView>,
)
    requires
        canonical(es, names),
        forall|k: int| 0 <= k < plugins.len() ==> names.contains(lowercase(#[trigger] plugins[k].name)),
        names.len() <= usize::MAX,
    ensures
        canonical(masters_edges(es, names, plugins), names),
    decreases plugins.len(),
{
    if plugins.len() > 0 {
        let d = plugins.drop_last();
        assert forall|k: int| 0 <= k < d.len() implies names.contains(
            lowercase(#[trigger] d[k].name),
        ) by {
            assert(d[k] == plugins[k]);
        }
        lemma_masters_edges_canonical(es, names, d);
        let p = plugins.last();
        if p.masters is Some {
            assert(names.contains(lowercase(plugins[plugins.len() - 1].name)));
            lemma_node_canonical(names, lowercase(p.name));
            lemma_master_edges_of_canonical(
                masters_edges(es, names, d),
                names,
                node(names, lowercase(p.name)),
                p.masters->0,
            );
        }
    }
}

/// Both ends of every edge of the graph are nodes of their names.
pub proof fn lemma_graph_edges_canonical(plugins: Seq<PluginView>, rules: Seq<EOrderRule>)
    requires
        plugins.len() <= usize::MAX,
    ensures
        canonical(graph_edges(plugins, rules), lc_names(plugins)),
{
    let names = lc_names(plugins);
    lemma_order_edges_canonical(names, ordering_of(rules));
    assert forall|k: int| 0 <= k < plugins.len() implies names.contains(
        lowercase(#[trigger] plugins[k].name),
    ) by {
        assert(names[k] == lowercase(plugins[k].name));
    }
    lemma_masters_edges_canonical(order_edges(names, ordering_of(rules)), names, plugins);
}

/// The order puts the first plugin of each edge no later than its second.
pub open spec fn respects(es: Seq<(usize, usize)>, names: Seq<Seq<char>>, m: Seq<Seq<char>>) -> bool {
    forall|k: int|
        0 <= k < es.len() ==> position(m, names[(#[trigger] es[k]).0 as int]) <= position(
            m,
            names[es[k].1 as int],
        )
}

proof fn lemma_opt_pass_unchanged(
    es: Seq<(usize, usize)>,
    names: Seq<Seq<char>>,
    mods: Seq<Seq<char>>,
    last: usize,
)
    requires
        edges_named_in(es, names, mods),
        !opt_pass(es, names, mods, last).1,
    ensures
        respects(es, names, mods),
    decreases es.len(),
{
    if es.len() > 0 {
        let d = es.drop_last();
        assert forall|k: int| 0 <= k < d.len() implies mods.contains(names[(#[trigger] d[k]).0 as int])
            && mods.contains(names[d[k].1 as int]) by {
            assert(d[k] == es[k]);
        }
        lemma_opt_pass_keeps(d, names, mods, last);
        lemma_opt_pass_unchanged(d, names, mods, last);
        assert forall|k: int| 0 <= k < es.len() implies position(
            mods,
            names[(#[trigger] es[k]).0 as int],
        ) <= position(mods, names[es[k].1 as int]) by {
            if k < d.len() {
                assert(es[k] == d[k]);
            }
        }
    }
}

proof fn lemma_scan_none(
    n: int,
    es: Seq<(usize, usize)>,
    names: Seq<Seq<char>>,
    r: Seq<Seq<char>>,
    i: int,
    j: int,
)
    requires
        scan(n, es, names, r, i, j) is None,
        0 <= i,
        0 <= j,
    ensures
        forall|a: int, b: int|
            (a > i || (a == i && b >= j)) && 0 <= b < a < n ==> !#[trigger] violation(
                es,
                names,
                r,
                a,
                b,
            ),
    decreases n - i, i - j,
{
    if i >= n {
    } else if j >= i {
        lemma_scan_none(n, es, names, r, i + 1, 0);
    } else {
        lemma_scan_none(n, es, names, r, i, j + 1);
    }
}

proof fn lemma_full_pass_unchanged(
    n: int,
    es: Seq<(usize, usize)>,
    names: Seq<Seq<char>>,
    mods: Seq<Seq<char>>,
    last: usize,
)
    requires
        n == mods.len(),
        canonical(es, names),
        edges_named_in(es, names, mods),
        !full_pass(n, es, names, mods, last).1,
    ensures
        respects(es, names, mods),
{
    lemma_scan_none(n, es, names, mods, 0, 0);
    assert forall|k: int| 0 <= k < es.len() implies position(
        mods,
        names[(#[trigger] es[k]).0 as int],
    ) <= position(mods, names[es[k].1 as int]) by {
        let x = names[es[k].0 as int];
        let y = names[es[k].1 as int];
        crate::ordering::lemma_position_bounds(mods, x);
        crate::ordering::lemma_position_bounds(mods, y);
        let pa = position(mods, x);
        let pb = position(mods, y);
        if pa > pb {
            assert(es.contains(es[k]));
            assert(node(names, mods[pa]) == es[k].0);
            assert(node(names, mods[pb]) == es[k].1);
            assert(violation(es, names, mods, pa, pb));
        }
    }
}

/// Sorting keeps the nodes of the edges.
proof fn lemma_sorted_edges(es: Seq<(usize, usize)>, names: Seq<Seq<char>>)
    requires
        canonical(es, names),
    ensures
        canonical(sort_by_first(es), names),
{
    lemma_sort_by_first(es);
    let s = sort_by_first(es);
    assert forall|k: int| 0 <= k < s.len() implies is_node_of(names, (#[trigger] s[k]).0)
        && is_node_of(names, s[k].1) by {
        assert(s.contains(s[k]));
        let m = choose|m: int| 0 <= m < es.len() && es[m] == s[k];
        assert(is_node_of(names, es[m].0));
    }
}

proof fn lemma_sorted_respects(es: Seq<(usize, usize)>, names: Seq<Seq<char>>, m: Seq<Seq<char>>)
    requires
        respects(sort_by_first(es), names, m),
    ensures
        respects(es, names, m),
{
    lemma_sort_by_first(es);
    let s = sort_by_first(es);
    assert forall|k: int| 0 <= k < es.len() implies position(m, names[(#[trigger] es[k]).0 as int])
        <= position(m, names[es[k].1 as int]) by {
        assert(es.contains(es[k]));
        assert(s.contains(es[k]));
        let j = choose|j: int| 0 <= j < s.len() && s[j] == es[k];
        assert(position(m, names[s[j].0 as int]) <= position(m, names[s[j].1 as int]));
    }
}

proof fn lemma_sort_loop(
    sort_type: ESortType,
    n: int,
    es: Seq<(usize, usize)>,
    names: Seq<Seq<char>>,
    mods: Seq<Seq<char>>,
    last: usize,
    iters: nat,
)
    requires
        sort_type != ESortType::Unstable,
        n == mods.len(),
        canonical(es, names),
        edges_named_in(es, names, mods),
    ensures
        sort_loop(sort_type, n, es, names, mods, last, iters) matches Some(m) ==> respects(
            es,
            names,
            m,
        ) && m.to_multiset() =~= mods.to_multiset(),
    decreases iters,
{
    if iters > 0 {
        let p = sort_pass(sort_type, n, es, names, mods, last);
        lemma_sort_pass_keeps(sort_type, n, es, names, mods, last);
        if !p.1 {
            match sort_type {
                ESortType::StableFull => lemma_full_pass_unchanged(n, es, names, mods, last),
                _ => lemma_opt_pass_unchanged(es, names, mods, last),
            }
        } else {
            assert forall|k: int| 0 <= k < es.len() implies p.0.contains(
                names[(#[trigger] es[k]).0 as int],
            ) && p.0.contains(names[es[k].1 as int]) by {
                assert(mods.contains(names[es[k].0 as int]));
                assert(mods.contains(names[es[k].1 as int]));
            }
            lemma_sort_loop(sort_type, n, es, names, p.0, p.2, (iters - 1) as nat);
        }
    }
}

/// Law: when the stable sort reaches an order, that order is a rearrangement of the
/// plugins' lowercase names, and it puts the first plugin of each edge of the graph no
/// later than the second. (The last step for Morrowind and OpenMW then moves the
/// master files first.)
pub proof fn lemma_stable_order(
    sort_type: ESortType,
    max_iterations: usize,
    plugins: Seq<PluginView>,
    rules: Seq<EOrderRule>,
)
    requires
        sort_type != ESortType::Unstable,
        plugins.len() <= usize::MAX,
    ensures
        stable_order(sort_type, max_iterations, plugins, rules) matches Some(m) ==> m.to_multiset()
            =~= lc_names(plugins).to_multiset() && respects(
            graph_edges(plugins, rules),
            lc_names(plugins),
            m,
        ),
{
    let names = lc_names(plugins);
    let es = graph_edges(plugins, rules);
    let mods = near_end(near_start(names, nearstart_names(rules)), nearend_names(rules));
    lemma_near_keeps(names, nearstart_names(rules));
    lemma_near_keeps(near_start(names, nearstart_names(rules)), nearend_names(rules));
    lemma_graph_edges_canonical(plugins, rules);
    lemma_sorted_edges(es, names);
    assert(edges_within(es, names.len() as int));
    lemma_edges_named(es, names, mods);
    let iters: nat = if max_iterations >= 1 {
        (max_iterations - 1) as nat
    } else {
        0
    };
    lemma_sort_loop(sort_type, plugins.len() as int, sort_by_first(es), names, mods, 0, iters);
    if let Some(m) = stable_order(sort_type, max_iterations, plugins, rules) {
        lemma_sorted_respects(es, names, m);
    }
}

/// The ranking puts the first node of every edge but a self loop below its second.
pub open spec fn ranks_loopless(f: spec_fn(usize) -> int, es: Seq<(usize, usize)>) -> bool {
    forall|k: int| 0 <= k < es.len() && (#[trigger] es[k]).0 != es[k].1 ==> f(es[k].0) < f(es[k].1)
}

/// The graph has no cycle through two or more nodes.
pub open spec fn is_acyclic_loopless(es: Seq<(usize, usize)>) -> bool {
    exists|f: spec_fn(usize) -> int| #[trigger] ranks_loopless(f, es)
}

/// Law: where the graph has a cycle through two or more plugins, the stable sort
/// reaches no order.
pub proof fn lemma_stable_cycle(
    sort_type: ESortType,
    max_iterations: usize,
    plugins: Seq<PluginView>,
    rules: Seq<EOrderRule>,
)
    requires
        sort_type != ESortType::Unstable,
        plugins.len() <= usize::MAX,
        !is_acyclic_loopless(graph_edges(plugins, rules)),
    ensures
        stable_order(sort_type, max_iterations, plugins, rules) is None,
{
    lemma_stable_order(sort_type, max_iterations, plugins, rules);
    if let Some(m) = stable_order(sort_type, max_iterations, plugins, rules) {
        broadcast use vstd::seq_lib::group_to_multiset_ensures;

        let names = lc_names(plugins);
        let es = graph_edges(plugins, rules);
        lemma_graph_edges_canonical(plugins, rules);
        let f = |x: usize| position(m, names[x as int]);
        assert forall|k: int| 0 <= k < es.len() && (#[trigger] es[k]).0 != es[k].1 implies f(
            es[k].0,
        ) < f(es[k].1) by {
            let a = es[k].0;
            let b = es[k].1;
            let x = names[a as int];
            let y = names[b as int];
            assert(names.contains(x) && names.contains(y));
            assert(names.to_multiset().count(x) > 0);
            assert(names.to_multiset().count(y) > 0);
            assert(m.contains(x) && m.contains(y));
            crate::ordering::lemma_position_bounds(m, x);
            crate::ordering::lemma_position_bounds(m, y);
            assert(x != y);
        }
        assert(ranks_loopless(f, es));
    }
}

/// A ranking of every edge ranks every edge but the self loops.
pub proof fn lemma_acyclic_loopless(es: Seq<(usize, usize)>)
    ensures
        is_acyclic(es) ==> is_acyclic_loopless(es),
{
    if is_acyclic(es) {
        let f = choose|f: spec_fn(usize) -> int| #[trigger] ranks(f, es);
        assert(ranks_loopless(f, es));
    }
}

/// An order of the nodes that follows the edges ranks them.
pub proof fn lemma_node_order_acyclic(v: Seq<usize>, n: int, es: Seq<(usize, usize)>)
    requires
        is_node_order(v, n),
        follows_edges(v, es),
        edges_within(es, n),
    ensures
        is_acyclic(es),
{
    let f = |x: usize| choose|i: int| 0 <= i < v.len() && v[i] == x;
    assert forall|k: int| 0 <= k < es.len() implies f((#[trigger] es[k]).0) < f(es[k].1) by {
        let a = es[k].0;
        let b = es[k].1;
        assert(v.contains(a));
        assert(v.contains(b));
        let i = f(a);
        let j = f(b);
        assert(v[i] == es[k].0 && v[j] == es[k].1);
    }
    assert(ranks(f, es));
}

} // verus!
