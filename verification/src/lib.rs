//! PLOX: sorts a plugin load order by ordering rules and evaluates warning rules
//! (notes, conflicts, requirements, patches) against it.
use vstd::prelude::*;

pub mod text;
pub mod versions;
pub mod wildcard;
pub mod expressions;
pub mod rules;
pub mod ordering;
pub mod sorter;
pub mod sort_laws;
pub mod parser;
pub mod syntax;
pub mod tes3;
pub mod load_order;
pub mod outcome;

pub use wildcard::{wild_contains, wild_contains_data};

verus! {

#[derive(Debug, Clone, Copy, PartialEq, Eq, Structural)]
pub enum ELogLevel {
    Trace,
    Debug,
    Info,
    Warn,
    Error,
}

impl Default for ELogLevel {
    fn default() -> (r: Self)
        ensures
            r == ELogLevel::Info,
    {
        ELogLevel::Info
    }
}

pub open spec fn log_level_name(level: ELogLevel) -> Seq<char> {
    match level {
        ELogLevel::Trace => "trace"@,
        ELogLevel::Debug => "debug"@,
        ELogLevel::Info => "info"@,
        ELogLevel::Warn => "warn"@,
        ELogLevel::Error => "error"@,
    }
}

/// The name the logger knows a level by.
pub fn log_level_to_str(level: ELogLevel) -> (r: String)
    ensures
        r@ == log_level_name(level),
{
    match level {
        ELogLevel::Trace => String::from_str("trace"),
        ELogLevel::Debug => String::from_str("debug"),
        ELogLevel::Info => String::from_str("info"),
        ELogLevel::Warn => String::from_str("warn"),
        ELogLevel::Error => String::from_str("error"),
    }
}

#[derive(Debug, Clone, Copy, PartialEq, Eq, Structural)]
pub enum ESupportedGame {
    Morrowind,
    OpenMW,
    Cyberpunk,
}

/// The name of the base rules file for Cyberpunk.
pub const PLOX_RULES_BASE: &'static str = "plox_base.txt";

/// Detects the game from what the current working directory holds: `Morrowind.exe`,
/// `openmw.cfg` or the folder `bin/x64/Cyberpunk2077`, in that order of precedence.
pub fn detect_game(has_morrowind_exe: bool, has_openmw_cfg: bool, has_cyberpunk_bin: bool) -> (r:
    Option<ESupportedGame>)
    ensures
        r == (if has_morrowind_exe {
            Some(ESupportedGame::Morrowind)
        } else if has_openmw_cfg {
            Some(ESupportedGame::OpenMW)
        } else if has_cyberpunk_bin {
            Some(ESupportedGame::Cyberpunk)
        } else {
            None
        }),
{
    if has_morrowind_exe {
        Some(ESupportedGame::Morrowind)
    } else if has_openmw_cfg {
        Some(ESupportedGame::OpenMW)
    } else if has_cyberpunk_bin {
        Some(ESupportedGame::Cyberpunk)
    } else {
        None
    }
}

pub open spec fn default_rules_dir(game: ESupportedGame) -> Seq<char> {
    match game {
        ESupportedGame::Morrowind | ESupportedGame::OpenMW => "mlox"@,
        ESupportedGame::Cyberpunk => "plox"@,
    }
}

/// The default rules directory of a game, relative to the working directory.
pub fn get_default_rules_dir(game: ESupportedGame) -> (r: String)
    ensures
        r@ == default_rules_dir(game),
{
    match game {
        ESupportedGame::Morrowind | ESupportedGame::OpenMW => String::from_str("mlox"),
        ESupportedGame::Cyberpunk => String::from_str("plox"),
    }
}

/// A plugin as the rules see it. `version` holds the plugin's semantic version in the
/// canonical text form of a `semver::Version`.
#[derive(Debug)]
pub struct PluginData {
    pub name: String,
    pub size: u64,
    pub description: Option<String>,
    pub version: Option<String>,
    pub masters: Option<Vec<(String, u64)>>,
}

pub fn clone_opt_string(o: &Option<String>) -> (r: Option<String>)
    ensures
        r == *o,
{
    match o {
        Some(s) => Some(s.clone()),
        None => None,
    }
}

pub fn clone_masters(v: &Vec<(String, u64)>) -> (r: Vec<(String, u64)>)
    ensures
        masters_view(r@) == masters_view(v@),
{
    let mut r: Vec<(String, u64)> = Vec::new();
    let mut i: usize = 0;
    while i < v.len()
        invariant
            0 <= i <= v@.len(),
            r@ == v@.subrange(0, i as int),
        decreases v@.len() - i,
    {
        let (n, s) = &v[i];
        r.push((n.clone(), *s));
        i = i + 1;
        assert(r@ =~= v@.subrange(0, i as int));
    }
    assert(v@.subrange(0, v@.len() as int) =~= v@);
    r
}

/// What the rules read of a plugin.
pub struct PluginView {
    pub name: Seq<char>,
    pub size: u64,
    pub description: Option<Seq<char>>,
    pub version: Option<Seq<char>>,
    pub masters: Option<Seq<(Seq<char>, u64)>>,
}

pub open spec fn opt_string_view(o: Option<String>) -> Option<Seq<char>> {
    match o {
        Some(s) => Some(s@),
        None => None,
    }
}

pub open spec fn masters_view(m: Seq<(String, u64)>) -> Seq<(Seq<char>, u64)> {
    m.map_values(|p: (String, u64)| (p.0@, p.1))
}

impl View for PluginData {
    type V = PluginView;

    open spec fn view(&self) -> PluginView {
        PluginView {
            name: self.name@,
            size: self.size,
            description: opt_string_view(self.description),
            version: opt_string_view(self.version),
            masters: match self.masters {
                Some(m) => Some(masters_view(m@)),
                None => None,
            },
        }
    }
}

/// The views of a list of plugins.
pub open spec fn plugins_view(s: Seq<PluginData>) -> Seq<PluginView> {
    s.map_values(|p: PluginData| p@)
}

impl Clone for PluginData {
    fn clone(&self) -> (r: Self)
        ensures
            r@ == self@,
    {
        let masters = match &self.masters {
            Some(m) => Some(clone_masters(m)),
            None => None,
        };
        PluginData {
            name: self.name.clone(),
            size: self.size,
            description: clone_opt_string(&self.description),
            version: clone_opt_string(&self.version),
            masters,
        }
    }
}

impl PluginData {
    pub fn new(name: String, size: u64) -> (r: Self)
        ensures
            r.name == name,
            r.size == size,
            r.description is None,
            r.version is None,
            r.masters is None,
    {
        Self { name, size, description: None, version: None, masters: None }
    }
}

/// The name a test plugin gets for a name of the rules: a pattern's `?` becomes `x`,
/// its `*` goes and its `<ver>` becomes `1.0`; a plain name stays.
pub open spec fn debug_name(a: Seq<char>) -> Seq<char> {
    if crate::wildcard::is_wild(a) {
        crate::wildcard::replace_seq(
            crate::wildcard::replace_char(crate::wildcard::replace_char(a, '?', seq!['x']), '*', seq![]),
            crate::wildcard::ver_tag(),
            "1.0"@,
        )
    } else {
        a
    }
}

pub open spec fn add_unique(names: Seq<Seq<char>>, x: Seq<char>) -> Seq<Seq<char>> {
    if names.contains(x) {
        names
    } else {
        names.push(x)
    }
}

/// The test plugin names of the ordering pairs, each once, in the order they first come.
pub open spec fn debug_names(order: Seq<(Seq<char>, Seq<char>)>) -> Seq<Seq<char>>
    decreases order.len(),
{
    if order.len() == 0 {
        seq![]
    } else {
        add_unique(
            add_unique(debug_names(order.drop_last()), debug_name(order.last().0)),
            debug_name(order.last().1),
        )
    }
}

/// A plugin with only a name, of size 0.
pub open spec fn bare_plugin(name: Seq<char>) -> PluginView {
    PluginView { name, size: 0, description: None, version: None, masters: None }
}

fn debug_name_exec(a: &String) -> (r: String)
    ensures
        r@ == debug_name(a@),
{
    let c = crate::text::str_chars(a.as_str());
    if crate::wildcard::is_wild_exec(c.as_slice()) {
        let x = vec!['x'];
        let none: Vec<char> = Vec::new();
        let one = crate::text::str_chars("1.0");
        let tag = crate::wildcard::ver_tag_chars();
        let s1 = crate::wildcard::replace_char_exec(c.as_slice(), '?', x.as_slice());
        assert(x@ =~= seq!['x']);
        let s2 = crate::wildcard::replace_char_exec(s1.as_slice(), '*', none.as_slice());
        assert(none@ =~= Seq::<char>::empty());
        let s3 = crate::wildcard::replace_seq_exec(s2.as_slice(), tag.as_slice(), one.as_slice());
        crate::text::chars_to_string(s3.as_slice())
    } else {
        a.clone()
    }
}

fn push_unique_plugin(result: &mut Vec<PluginData>, name: String)
    requires
        plugins_view(old(result)@) == plugins_view(old(result)@).map_values(|p: PluginView| p.name).map_values(
            |n: Seq<char>| bare_plugin(n),
        ),
    ensures
        plugins_view(final(result)@) == add_unique(
            plugins_view(old(result)@).map_values(|p: PluginView| p.name),
            name@,
        ).map_values(|n: Seq<char>| bare_plugin(n)),
{
    let ghost names = plugins_view(result@).map_values(|p: PluginView| p.name);
    let mut i: usize = 0;
    while i < result.len()
        invariant
            0 <= i <= result@.len(),
            names == plugins_view(result@).map_values(|p: PluginView| p.name),
            *result == *old(result),
            plugins_view(old(result)@) == names.map_values(|n: Seq<char>| bare_plugin(n)),
            forall|k: int| 0 <= k < i ==> names[k] != name@,
        decreases result@.len() - i,
    {
        assert(names[i as int] == result@[i as int].name@);
        if result[i].name == name {
            assert(names.contains(name@));
            assert(add_unique(names, name@) == names);
            return;
        }
        i = i + 1;
    }
    let ghost before = result@;
    result.push(PluginData::new(name, 0));
    assert(plugins_view(result@) =~= plugins_view(before).push(bare_plugin(name@)));
    assert(plugins_view(before) =~= names.map_values(|n: Seq<char>| bare_plugin(n)));
    assert(add_unique(names, name@) =~= names.push(name@));
    assert(plugins_view(result@) =~= names.push(name@).map_values(|n: Seq<char>| bare_plugin(n)));
}

/// Plugins for testing the rules: one for each name of the ordering pairs, patterns
/// turned into names that they match.
pub fn debug_get_mods_from_ordering(order: &[(String, String)]) -> (r: Vec<PluginData>)
    ensures
        plugins_view(r@) == debug_names(crate::ordering::pairs_view(order@)).map_values(
            |n: Seq<char>| bare_plugin(n),
        ),
{
    let ghost pv = crate::ordering::pairs_view(order@);
    let mut result: Vec<PluginData> = Vec::new();
    let mut k: usize = 0;
    assert(plugins_view(result@) =~= Seq::<Seq<char>>::empty().map_values(|n: Seq<char>| bare_plugin(n)));
    while k < order.len()
        invariant
            0 <= k <= order@.len(),
            pv == crate::ordering::pairs_view(order@),
            plugins_view(result@) == debug_names(pv.subrange(0, k as int)).map_values(
                |n: Seq<char>| bare_plugin(n),
            ),
        decreases order@.len() - k,
    {
        let ghost pre = pv.subrange(0, k + 1);
        assert(pre.drop_last() =~= pv.subrange(0, k as int));
        let (a, b) = &order[k];
        assert(pre.last() == (a@, b@));
        proof {
            let d = debug_names(pv.subrange(0, k as int));
            assert(plugins_view(result@).map_values(|p: PluginView| p.name) =~= d);
        }
        push_unique_plugin(&mut result, debug_name_exec(a));
        proof {
            let d = add_unique(debug_names(pv.subrange(0, k as int)), debug_name(a@));
            assert(plugins_view(result@).map_values(|p: PluginView| p.name) =~= d);
        }
        push_unique_plugin(&mut result, debug_name_exec(b));
        k = k + 1;
    }
    assert(pv.subrange(0, order@.len() as int) =~= pv);
    result
}

/// Plugins for testing the rules: one for each name of the order rules' pairs.
pub fn debug_get_mods_from_order_rules(order_rules: &[crate::rules::EOrderRule]) -> (r: Vec<
    PluginData,
>)
    ensures
        plugins_view(r@) == debug_names(crate::ordering::ordering_of(order_rules@)).map_values(
            |n: Seq<char>| bare_plugin(n),
        ),
{
    let order = crate::ordering::get_ordering_from_order_rules(order_rules);
    debug_get_mods_from_ordering(order.as_slice())
}

/// How loading and sorting a load order ended.
#[derive(Debug, Clone, Copy, PartialEq, Eq, Structural)]
pub enum ELoadStatus {
    Conflicts,
    Cycle,
    Success,
}

/// Which list of plugins is shown: the sorted order or the current one.
#[derive(Debug, Clone, Copy, PartialEq, Eq, Structural)]
pub enum EModListView {
    NewOrder,
    LoadOrder,
}

/// The options of the `sort` command.
#[derive(Debug)]
pub struct CliSortOptions {
    pub game: ESupportedGame,
    pub game_folder: Option<String>,
    pub rules_dir: Option<String>,
    pub mod_list: Option<String>,
    pub dry_run: bool,
    pub unstable: bool,
    pub no_download: bool,
    pub config: Option<String>,
}

} // verus!
