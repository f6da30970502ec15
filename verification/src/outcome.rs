//! What loading a load order comes to once the rules have been evaluated: which plugin
//! each warning names, whether a conflict stops the sort, and how the sort ended.
use vstd::prelude::*;

use crate::parser::Warning;
use crate::rules::{EOrderRule, EWarningRule, TWarningRule};
use crate::sort_laws::plugin_names;
use crate::sorter::{new_stable_sorter, result_view, topo_sort_spec, ESortType};
use crate::wildcard::{contains_seq, strings_view};
use crate::{plugins_view, ELoadStatus, ESupportedGame, PluginData, PluginView};

verus! {

/// The loaded load order: the plugins in their current order and in the new one, the
/// warnings, each plugin that a warning names with the warning's index, and how the
/// sort ended.
pub struct AppData {
    pub game: ESupportedGame,
    pub old_order: Vec<String>,
    pub new_order: Vec<String>,
    pub warnings: Vec<Warning>,
    pub plugin_warning_map: Vec<(String, usize)>,
    pub status: ELoadStatus,
}

/// Each plugin that a warning names, with the warning's index, warning by warning.
pub open spec fn warning_pairs(plugins: Seq<Seq<Seq<char>>>) -> Seq<(Seq<char>, int)>
    decreases plugins.len(),
{
    if plugins.len() == 0 {
        seq![]
    } else {
        let k = plugins.len() - 1;
        warning_pairs(plugins.drop_last()) + plugins[k].map_values(|p: Seq<char>| (p, k))
    }
}

/// The plugins each warning names.
pub open spec fn warnings_plugins(ws: Seq<Warning>) -> Seq<Seq<Seq<char>>> {
    ws.map_values(|w: Warning| w.rule.recorded())
}

pub open spec fn pairs_map_view(v: Seq<(String, usize)>) -> Seq<(Seq<char>, int)> {
    v.map_values(|p: (String, usize)| (p.0@, p.1 as int))
}

/// Lists each plugin that a warning names, with the warning's index.
pub fn plugin_warning_map(warnings: &[Warning]) -> (r: Vec<(String, usize)>)
    ensures
        pairs_map_view(r@) == warning_pairs(warnings_plugins(warnings@)),
{
    let ghost wp = warnings_plugins(warnings@);
    let mut result: Vec<(String, usize)> = Vec::new();
    let mut i: usize = 0;
    assert(wp.subrange(0, 0) =~= Seq::<Seq<Seq<char>>>::empty());
    assert(pairs_map_view(result@) =~= Seq::<(Seq<char>, int)>::empty());
    while i < warnings.len()
        invariant
            0 <= i <= warnings@.len(),
            wp == warnings_plugins(warnings@),
            pairs_map_view(result@) == warning_pairs(wp.subrange(0, i as int)),
        decreases warnings@.len() - i,
    {
        let ghost pre = wp.subrange(0, i + 1);
        assert(pre.drop_last() =~= wp.subrange(0, i as int));
        assert(pre[i as int] == warnings@[i as int].rule.recorded());
        let plugins = warnings[i].get_plugins();
        let ghost before = result@;
        let mut j: usize = 0;
        while j < plugins.len()
            invariant
                0 <= j <= plugins@.len(),
                0 <= i < warnings@.len(),
                pairs_map_view(result@) == pairs_map_view(before) + strings_view(plugins@).subrange(
                    0,
                    j as int,
                ).map_values(|p: Seq<char>| (p, i as int)),
            decreases plugins@.len() - j,
        {
            let ghost prev = result@;
            let name = plugins[j].clone();
            assert(name@ == plugins@[j as int]@);
            result.push((name, i));
            assert(pairs_map_view(result@) =~= pairs_map_view(prev).push((plugins@[j as int]@, i as int)));
            assert(strings_view(plugins@).subrange(0, j + 1) =~= strings_view(plugins@).subrange(
                0,
                j as int,
            ).push(plugins@[j as int]@));
            assert(pairs_map_view(result@) =~= pairs_map_view(before) + strings_view(
                plugins@,
            ).subrange(0, j + 1).map_values(|p: Seq<char>| (p, i as int)));
            j = j + 1;
        }
        assert(strings_view(plugins@).subrange(0, plugins@.len() as int) =~= strings_view(plugins@));
        assert(pairs_map_view(result@) =~= warning_pairs(pre));
        i = i + 1;
    }
    assert(wp.subrange(0, warnings@.len() as int) =~= wp);
    result
}

/// A conflict among the warnings stops the sort, unless warnings are ignored.
pub open spec fn conflicts_block(ws: Seq<Warning>, ignore_warnings: bool) -> bool {
    !ignore_warnings && exists|j: int| 0 <= j < ws.len() && (#[trigger] ws[j]).rule is Conflict
}

/// Whether a conflict among the warnings stops the sort.
pub fn has_blocking_conflicts(warnings: &[Warning], ignore_warnings: bool) -> (r: bool)
    ensures
        r == conflicts_block(warnings@, ignore_warnings),
{
    if ignore_warnings {
        return false;
    }
    let mut i: usize = 0;
    while i < warnings.len()
        invariant
            0 <= i <= warnings@.len(),
            !ignore_warnings,
            forall|j: int| 0 <= j < i ==> !((#[trigger] warnings@[j]).rule is Conflict),
        decreases warnings@.len() - i,
    {
        if let EWarningRule::Conflict(_) = warnings[i].rule {
            assert(warnings@[i as int].rule is Conflict);
            return true;
        }
        i = i + 1;
    }
    false
}

/// How loading ends, or `None` where the sort failed for a reason other than running out
/// of passes: a blocking conflict skips the sort; without order rules there is nothing
/// to sort; a sort that runs out of passes leaves a cycle.
pub open spec fn outcome_status(
    blocked: bool,
    n_rules: nat,
    sorted: Result<Seq<Seq<char>>, Seq<char>>,
) -> Option<ELoadStatus> {
    if blocked {
        Some(ELoadStatus::Conflicts)
    } else if n_rules == 0 {
        Some(ELoadStatus::Success)
    } else {
        match sorted {
            Ok(_) => Some(ELoadStatus::Success),
            Err(e) => if contains_seq(e, "Out of iterations"@) {
                Some(ELoadStatus::Cycle)
            } else {
                None
            },
        }
    }
}

/// The new order: the sorted one where the sort ran and succeeded, else the current one.
pub open spec fn outcome_order(
    blocked: bool,
    n_rules: nat,
    sorted: Result<Seq<Seq<char>>, Seq<char>>,
    current: Seq<Seq<char>>,
) -> Seq<Seq<char>> {
    if !blocked && n_rules > 0 && sorted is Ok {
        sorted->Ok_0
    } else {
        current
    }
}

fn names_of_plugins(mods: &[PluginData]) -> (r: Vec<String>)
    ensures
        strings_view(r@) == plugin_names(plugins_view(mods@)),
{
    let mut r: Vec<String> = Vec::new();
    let mut i: usize = 0;
    while i < mods.len()
        invariant
            0 <= i <= mods@.len(),
            strings_view(r@) == plugin_names(plugins_view(mods@)).subrange(0, i as int),
        decreases mods@.len() - i,
    {
        let ghost prev = r@;
        let name = mods[i].name.clone();
        assert(name@ == mods@[i as int].name@);
        assert(plugins_view(mods@)[i as int] == mods@[i as int]@);
        r.push(name);
        assert(strings_view(r@) =~= strings_view(prev).push(name@));
        assert(strings_view(r@) =~= plugin_names(plugins_view(mods@)).subrange(0, i + 1));
        i = i + 1;
    }
    assert(plugin_names(plugins_view(mods@)).subrange(0, mods@.len() as int) =~= plugin_names(
        plugins_view(mods@),
    ));
    r
}

/// Puts the evaluated warnings and the stable sort's result together: the map of plugins
/// to warnings, whether a conflict skips the sort, the new order and the status. `None`
/// where the sort failed for a reason other than running out of passes.
pub fn load_outcome(
    game: ESupportedGame,
    mods: &[PluginData],
    warnings: Vec<Warning>,
    order_rules: &[EOrderRule],
    warning_rules: &[EWarningRule],
    ignore_warnings: bool,
) -> (r: Option<AppData>)
    ensures
        ({
            let blocked = conflicts_block(warnings@, ignore_warnings);
            let sorted = topo_sort_spec(
                ESortType::StableOpt,
                100,
                game,
                plugins_view(mods@),
                order_rules@,
            );
            match r {
                None => outcome_status(blocked, order_rules@.len(), sorted) is None,
                Some(d) => {
                    &&& Some(d.status) == outcome_status(blocked, order_rules@.len(), sorted)
                    &&& d.game == game
                    &&& strings_view(d.old_order@) == plugin_names(plugins_view(mods@))
                    &&& strings_view(d.new_order@) == outcome_order(
                        blocked,
                        order_rules@.len(),
                        sorted,
                        plugin_names(plugins_view(mods@)),
                    )
                    &&& d.warnings@ == warnings@
                    &&& pairs_map_view(d.plugin_warning_map@) == warning_pairs(
                        warnings_plugins(warnings@),
                    )
                },
            }
        }),
{
    let map = plugin_warning_map(warnings.as_slice());
    let blocked = has_blocking_conflicts(warnings.as_slice(), ignore_warnings);
    let old_order = names_of_plugins(mods);
    let mut new_order = names_of_plugins(mods);
    let status;
    if !blocked {
        if order_rules.len() > 0 {
            let mut sorter = new_stable_sorter();
            match sorter.topo_sort(game, mods, order_rules, warning_rules) {
                Ok(v) => {
                    new_order = v;
                    status = ELoadStatus::Success;
                },
                Err(e) => {
                    let msg = crate::text::str_chars(e);
                    let key = crate::text::str_chars("Out of iterations");
                    if crate::wildcard::contains_seq_exec(msg.as_slice(), key.as_slice()) {
                        status = ELoadStatus::Cycle;
                    } else {
                        return None;
                    }
                },
            }
        } else {
            status = ELoadStatus::Success;
        }
    } else {
        status = ELoadStatus::Conflicts;
    }
    Some(
        AppData {
            game,
            old_order,
            new_order,
            warnings,
            plugin_warning_map: map,
            status,
        },
    )
}

} // verus!
