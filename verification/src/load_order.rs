//! The load order on disk: which files are plugins, how the game's ini or cfg file
//! lists them, the file times that order them, and the rules files to download.
use vstd::prelude::*;

use crate::text::{ascii_lower, decimal, ends_with, starts_with, str_chars};
use crate::wildcard::strings_view;
use crate::{plugins_view, ESupportedGame, PluginData, PluginView};

verus! {

////////////////////////////////////////////////////////////////////////
// PLUGIN FILES
////////////////////////////////////////////////////////////////////////

/// Whether a file extension is that of a plugin: `esm` and `esp`, and for OpenMW also
/// `omwaddon` and `omwscripts`, in any case.
pub open spec fn is_plugin_ext(ext: Seq<char>, use_omw_plugins: bool) -> bool {
    let e = ascii_lower(ext);
    e == "esm"@ || e == "esp"@ || (use_omw_plugins && e == "omwaddon"@) || (use_omw_plugins && e
        == "omwscripts"@)
}

fn lower_chars(s: &str) -> (r: Vec<char>)
    ensures
        r@ == ascii_lower(s@),
{
    let c = str_chars(s);
    crate::text::ascii_lower_chars(c.as_slice())
}

fn eq_lit(a: &[char], lit: &str) -> (r: bool)
    ensures
        r == (a@ == lit@),
{
    let b = str_chars(lit);
    crate::text::chars_eq(a, b.as_slice())
}

/// Whether a file extension is that of a plugin.
pub fn is_plugin_extension(ext: &str, use_omw_plugins: bool) -> (r: bool)
    ensures
        r == is_plugin_ext(ext@, use_omw_plugins),
{
    let e = lower_chars(ext);
    eq_lit(e.as_slice(), "esm") || eq_lit(e.as_slice(), "esp") || (use_omw_plugins && eq_lit(
        e.as_slice(),
        "omwaddon",
    )) || (use_omw_plugins && eq_lit(e.as_slice(), "omwscripts"))
}

/// Whether a file name is that of an OpenMW script file, whose header is not read.
pub fn is_omwscripts(file_name: &str) -> (r: bool)
    ensures
        r == ends_with(ascii_lower(file_name@), "omwscripts"@),
{
    let e = lower_chars(file_name);
    let s = str_chars("omwscripts");
    crate::text::ends_with_chars(e.as_slice(), s.as_slice())
}

/// Whether a file extension is that of a Cyberpunk archive: it holds `archive`, in any
/// case.
pub fn is_archive_extension(ext: &str) -> (r: bool)
    ensures
        r == crate::wildcard::contains_seq(ascii_lower(ext@), "archive"@),
{
    let e = lower_chars(ext);
    let s = str_chars("archive");
    crate::wildcard::contains_seq_exec(e.as_slice(), s.as_slice())
}

/// The plugins of a mod list, one name per line, each of size 0.
pub fn plugins_from_lines(lines: &[String]) -> (r: Vec<PluginData>)
    ensures
        plugins_view(r@) == strings_view(lines@).map_values(|n: Seq<char>| crate::bare_plugin(n)),
{
    let ghost sv = strings_view(lines@);
    let mut result: Vec<PluginData> = Vec::new();
    let mut i: usize = 0;
    while i < lines.len()
        invariant
            0 <= i <= lines@.len(),
            sv == strings_view(lines@),
            plugins_view(result@) == sv.subrange(0, i as int).map_values(
                |n: Seq<char>| crate::bare_plugin(n),
            ),
        decreases lines@.len() - i,
    {
        let ghost before = result@;
        result.push(PluginData::new(lines[i].clone(), 0));
        assert(plugins_view(result@) =~= plugins_view(before).push(crate::bare_plugin(sv[i as int])));
        assert(sv.subrange(0, i + 1).map_values(|n: Seq<char>| crate::bare_plugin(n)) =~= sv.subrange(
            0,
            i as int,
        ).map_values(|n: Seq<char>| crate::bare_plugin(n)).push(crate::bare_plugin(sv[i as int])));
        i = i + 1;
    }
    assert(sv.subrange(0, lines@.len() as int) =~= sv);
    result
}

/// The plugins that the game's ini file lists under `[Game Files]`, in their order.
pub open spec fn listed_plugins(plugins: Seq<PluginView>, listed: Seq<Seq<char>>) -> Seq<PluginView> {
    plugins.filter(|p: PluginView| listed.contains(p.name))
}

/// Keeps the plugins that the ini file lists.
pub fn filter_listed(plugins: &[PluginData], listed: &[String]) -> (r: Vec<PluginData>)
    ensures
        plugins_view(r@) == listed_plugins(plugins_view(plugins@), strings_view(listed@)),
{
    let ghost pv = plugins_view(plugins@);
    let ghost lv = strings_view(listed@);
    let ghost pred = |p: PluginView| lv.contains(p.name);
    let mut result: Vec<PluginData> = Vec::new();
    let mut i: usize = 0;
    proof {
        reveal_with_fuel(Seq::<_>::filter, 1);
        assert(pv.subrange(0, 0).filter(pred) =~= Seq::<PluginView>::empty());
    }
    while i < plugins.len()
        invariant
            0 <= i <= plugins@.len(),
            pv == plugins_view(plugins@),
            lv == strings_view(listed@),
            pred == (|p: PluginView| lv.contains(p.name)),
            plugins_view(result@) == pv.subrange(0, i as int).filter(pred),
        decreases plugins@.len() - i,
    {
        proof {
            reveal_with_fuel(Seq::<_>::filter, 1);
            assert(pv.subrange(0, i + 1).drop_last() =~= pv.subrange(0, i as int));
            assert(pv[i as int] == plugins@[i as int]@);
        }
        let listed_here = match crate::ordering::position_of(listed, &plugins[i].name) {
            Some(_) => true,
            None => false,
        };
        proof {
            crate::ordering::lemma_position_bounds(lv, plugins@[i as int].name@);
        }
        if listed_here {
            let ghost before = result@;
            result.push(plugins[i].clone());
            assert(plugins_view(result@) =~= plugins_view(before).push(pv[i as int]));
        }
        i = i + 1;
    }
    assert(pv.subrange(0, plugins@.len() as int) =~= pv);
    result
}

/// Whether the plugins' lowercase names are already the sorted order.
pub fn is_same_order(mods: &[PluginData], result: &[String]) -> (r: bool)
    ensures
        r == (crate::sorter::lc_names(plugins_view(mods@)) == strings_view(result@)),
{
    let lower = crate::sorter::lowercase_names(mods);
    let ghost a = strings_view(lower@);
    let ghost b = strings_view(result@);
    if lower.len() != result.len() {
        assert(a.len() != b.len());
        return false;
    }
    let mut i: usize = 0;
    while i < lower.len()
        invariant
            0 <= i <= lower@.len(),
            lower@.len() == result@.len(),
            a == strings_view(lower@),
            b == strings_view(result@),
            a == crate::sorter::lc_names(plugins_view(mods@)),
            forall|k: int| 0 <= k < i ==> a[k] == b[k],
        decreases lower@.len() - i,
    {
        if lower[i] != result[i] {
            assert(a[i as int] != b[i as int]);
            assert(a != b);
            return false;
        }
        i = i + 1;
    }
    assert(a =~= b);
    true
}

////////////////////////////////////////////////////////////////////////
// INI AND CFG FILES
////////////////////////////////////////////////////////////////////////

/// The lines, each followed by a line feed.
pub open spec fn joined_lines(ls: Seq<Seq<char>>) -> Seq<char>
    decreases ls.len(),
{
    if ls.len() == 0 {
        seq![]
    } else {
        joined_lines(ls.drop_last()) + ls.last() + seq!['\n']
    }
}

/// `Morrowind.ini` with the new load order: its lines but the `[Game Files]` heading
/// and the `GameFile` entries, then the heading and an entry `GameFile{i}={name}` for
/// each plugin.
pub open spec fn tes3_ini_lines(ini: Seq<Seq<char>>, result: Seq<Seq<char>>) -> Seq<Seq<char>> {
    ini.filter(|l: Seq<char>| !starts_with(l, "[Game Files]"@) && !starts_with(l, "GameFile"@))
        + seq!["[Game Files]"@] + Seq::new(
        result.len(),
        |i: int| "GameFile"@ + decimal(i as nat) + "="@ + result[i],
    )
}

/// `openmw.cfg` with the new load order: its lines but the `content=` entries, then an
/// entry `content={name}` for each plugin.
pub open spec fn openmw_cfg_lines(cfg: Seq<Seq<char>>, result: Seq<Seq<char>>) -> Seq<Seq<char>> {
    cfg.filter(|l: Seq<char>| !starts_with(l, "content="@)) + Seq::new(
        result.len(),
        |i: int| "content="@ + result[i],
    )
}

fn push_line(buf: &mut Vec<char>, line: &[char])
    ensures
        final(buf)@ == old(buf)@ + line@ + seq!['\n'],
{
    let mut i: usize = 0;
    let ghost b0 = buf@;
    while i < line.len()
        invariant
            0 <= i <= line@.len(),
            buf@ == b0 + line@.subrange(0, i as int),
        decreases line@.len() - i,
    {
        buf.push(line[i]);
        i = i + 1;
        assert(buf@ =~= b0 + line@.subrange(0, i as int));
    }
    assert(line@.subrange(0, line@.len() as int) =~= line@);
    buf.push('\n');
}

/// Writes the lines that pass, each with a line feed.
fn write_kept_lines(lines: &[String], skip_a: &str, skip_b: &str, buf: &mut Vec<char>)
    ensures
        final(buf)@ == old(buf)@ + joined_lines(
            strings_view(lines@).filter(
                |l: Seq<char>| !starts_with(l, skip_a@) && !starts_with(l, skip_b@),
            ),
        ),
{
    let ghost lv = strings_view(lines@);
    let ghost pred = |l: Seq<char>| !starts_with(l, skip_a@) && !starts_with(l, skip_b@);
    let ghost b0 = buf@;
    let a = str_chars(skip_a);
    let b = str_chars(skip_b);
    let mut i: usize = 0;
    proof {
        reveal_with_fuel(Seq::<_>::filter, 1);
        assert(lv.subrange(0, 0).filter(pred) =~= Seq::<Seq<char>>::empty());
        assert(buf@ =~= b0 + joined_lines(Seq::<Seq<char>>::empty()));
    }
    while i < lines.len()
        invariant
            0 <= i <= lines@.len(),
            lv == strings_view(lines@),
            a@ == skip_a@,
            b@ == skip_b@,
            pred == (|l: Seq<char>| !starts_with(l, skip_a@) && !starts_with(l, skip_b@)),
            buf@ == b0 + joined_lines(lv.subrange(0, i as int).filter(pred)),
        decreases lines@.len() - i,
    {
        proof {
            reveal_with_fuel(Seq::<_>::filter, 1);
            assert(lv.subrange(0, i + 1).drop_last() =~= lv.subrange(0, i as int));
            assert(lv[i as int] == lines@[i as int]@);
        }
        let l = str_chars(lines[i].as_str());
        if !crate::text::starts_with_chars(l.as_slice(), a.as_slice())
            && !crate::text::starts_with_chars(l.as_slice(), b.as_slice()) {
            let ghost f = lv.subrange(0, i as int).filter(pred);
            push_line(buf, l.as_slice());
            assert(f.push(l@).drop_last() =~= f);
            assert(buf@ =~= b0 + joined_lines(f.push(l@)));
        }
        i = i + 1;
    }
    assert(lv.subrange(0, lines@.len() as int) =~= lv);
}

proof fn lemma_joined_add(a: Seq<Seq<char>>, b: Seq<Seq<char>>)
    ensures
        joined_lines(a + b) == joined_lines(a) + joined_lines(b),
    decreases b.len(),
{
    if b.len() > 0 {
        assert((a + b).drop_last() =~= a + b.drop_last());
        lemma_joined_add(a, b.drop_last());
    } else {
        assert(a + b =~= a);
    }
}

/// The text of `Morrowind.ini` with the new load order.
pub fn tes3_ini_text(ini: &[String], result: &[String]) -> (r: String)
    ensures
        r@ == joined_lines(tes3_ini_lines(strings_view(ini@), strings_view(result@))),
{
    let ghost rv = strings_view(result@);
    let mut buf: Vec<char> = Vec::new();
    write_kept_lines(ini, "[Game Files]", "GameFile", &mut buf);
    let ghost kept = buf@;
    let heading = str_chars("[Game Files]");
    push_line(&mut buf, heading.as_slice());
    let ghost entries = Seq::new(rv.len(), |i: int| "GameFile"@ + decimal(i as nat) + "="@ + rv[i]);
    let mut i: usize = 0;
    assert(buf@ =~= kept + joined_lines(seq!["[Game Files]"@] + entries.subrange(0, 0))) by {
        assert(seq!["[Game Files]"@] + entries.subrange(0, 0) =~= seq!["[Game Files]"@]);
        assert(seq!["[Game Files]"@].drop_last() =~= Seq::<Seq<char>>::empty());
        assert(joined_lines(Seq::<Seq<char>>::empty()) =~= Seq::<char>::empty());
        assert(joined_lines(seq!["[Game Files]"@]) =~= "[Game Files]"@ + seq!['\n']);
    }
    while i < result.len()
        invariant
            0 <= i <= result@.len(),
            rv == strings_view(result@),
            entries == Seq::new(rv.len(), |i: int| "GameFile"@ + decimal(i as nat) + "="@ + rv[i]),
            buf@ == kept + joined_lines(seq!["[Game Files]"@] + entries.subrange(0, i as int)),
        decreases result@.len() - i,
    {
        let mut line = str_chars("GameFile");
        let mut num = crate::text::decimal_chars(i as u64);
        let mut eq = str_chars("=");
        let mut name = str_chars(result[i].as_str());
        let ghost g = line@;
        line.append(&mut num);
        line.append(&mut eq);
        line.append(&mut name);
        assert(line@ =~= entries[i as int]);
        let ghost before = buf@;
        push_line(&mut buf, line.as_slice());
        let ghost x = seq!["[Game Files]"@] + entries.subrange(0, i as int);
        assert(seq!["[Game Files]"@] + entries.subrange(0, i + 1) =~= x.push(entries[i as int]));
        assert(x.push(entries[i as int]).drop_last() =~= x);
        assert(buf@ =~= kept + joined_lines(x.push(entries[i as int])));
        i = i + 1;
    }
    assert(entries.subrange(0, rv.len() as int) =~= entries);
    proof {
        let f = strings_view(ini@).filter(
            |l: Seq<char>| !starts_with(l, "[Game Files]"@) && !starts_with(l, "GameFile"@),
        );
        lemma_joined_add(f, seq!["[Game Files]"@] + entries);
        assert(tes3_ini_lines(strings_view(ini@), rv) =~= f + (seq!["[Game Files]"@] + entries));
    }
    crate::text::chars_to_string(buf.as_slice())
}

/// The text of `openmw.cfg` with the new load order.
pub fn openmw_cfg_text(cfg: &[String], result: &[String]) -> (r: String)
    ensures
        r@ == joined_lines(openmw_cfg_lines(strings_view(cfg@), strings_view(result@))),
{
    let ghost rv = strings_view(result@);
    let mut buf: Vec<char> = Vec::new();
    write_kept_lines(cfg, "content=", "content=", &mut buf);
    let ghost kept = buf@;
    let ghost entries = Seq::new(rv.len(), |i: int| "content="@ + rv[i]);
    let mut i: usize = 0;
    assert(buf@ =~= kept + joined_lines(entries.subrange(0, 0))) by {
        assert(entries.subrange(0, 0) =~= Seq::<Seq<char>>::empty());
        assert(joined_lines(Seq::<Seq<char>>::empty()) =~= Seq::<char>::empty());
    }
    while i < result.len()
        invariant
            0 <= i <= result@.len(),
            rv == strings_view(result@),
            entries == Seq::new(rv.len(), |i: int| "content="@ + rv[i]),
            buf@ == kept + joined_lines(entries.subrange(0, i as int)),
        decreases result@.len() - i,
    {
        let mut line = str_chars("content=");
        let mut name = str_chars(result[i].as_str());
        line.append(&mut name);
        assert(line@ =~= entries[i as int]);
        push_line(&mut buf, line.as_slice());
        let ghost x = entries.subrange(0, i as int);
        assert(entries.subrange(0, i + 1) =~= x.push(entries[i as int]));
        assert(x.push(entries[i as int]).drop_last() =~= x);
        assert(buf@ =~= kept + joined_lines(x.push(entries[i as int])));
        i = i + 1;
    }
    assert(entries.subrange(0, rv.len() as int) =~= entries);
    proof {
        let f = strings_view(cfg@).filter(
            |l: Seq<char>| !starts_with(l, "content="@) && !starts_with(l, "content="@),
        );
        let g = strings_view(cfg@).filter(|l: Seq<char>| !starts_with(l, "content="@));
        assert((|l: Seq<char>| !starts_with(l, "content="@) && !starts_with(l, "content="@)) =~= (|
            l: Seq<char>,
        | !starts_with(l, "content="@)));
        lemma_joined_add(g, entries);
    }
    crate::text::chars_to_string(buf.as_slice())
}

////////////////////////////////////////////////////////////////////////
// FILE TIMES
////////////////////////////////////////////////////////////////////////

/// The first of the file times: that of `morrowind.esm`.
pub const START_TIME: i64 = 1024695106;

/// The fixed file time of the game's own master files, by lowercase name.
pub open spec fn fixed_time(name: Seq<char>) -> Option<i64> {
    if name == "morrowind.esm"@ {
        Some(1024695106)
    } else if name == "tribunal.esm"@ {
        Some(1035940926)
    } else if name == "bloodmoon.esm"@ {
        Some(1051807050)
    } else {
        None
    }
}

/// The file times that put the plugins in order, oldest first: the game's master
/// files get their fixed times, each other plugin a minute after the one before.
pub open spec fn file_times(names: Seq<Seq<char>>) -> Seq<int>
    decreases names.len(),
{
    if names.len() == 0 {
        seq![]
    } else {
        let prev = file_times(names.drop_last());
        let current = if prev.len() == 0 {
            START_TIME as int
        } else {
            prev.last()
        };
        prev.push(
            match fixed_time(crate::text::lowercase(names.last())) {
                Some(t) => t as int,
                None => current + 60,
            },
        )
    }
}

proof fn lemma_file_times(names: Seq<Seq<char>>)
    ensures
        file_times(names).len() == names.len(),
        forall|k: int|
            0 <= k < names.len() ==> START_TIME <= #[trigger] file_times(names)[k] <= 1051807050 + 60
                * (k + 1),
    decreases names.len(),
{
    if names.len() > 0 {
        lemma_file_times(names.drop_last());
        let prev = file_times(names.drop_last());
        assert forall|k: int| 0 <= k < names.len() implies START_TIME <= #[trigger] file_times(
            names,
        )[k] <= 1051807050 + 60 * (k + 1) by {
            if k < names.len() - 1 {
                assert(file_times(names)[k] == prev[k]);
            }
        }
    }
}

/// The file times that put the plugins in order.
pub fn redate_times(names: &[String]) -> (r: Vec<i64>)
    requires
        1051807050 + 60 * names@.len() <= i64::MAX,
    ensures
        r@.len() == names@.len(),
        forall|k: int| 0 <= k < r@.len() ==> r@[k] as int == file_times(strings_view(names@))[k],
{
    let ghost nv = strings_view(names@);
    let mut times: Vec<i64> = Vec::new();
    let mut current_time: i64 = START_TIME;
    let mut i: usize = 0;
    while i < names.len()
        invariant
            0 <= i <= names@.len(),
            1051807050 + 60 * names@.len() <= i64::MAX,
            nv == strings_view(names@),
            times@.len() == i,
            forall|k: int| 0 <= k < i ==> times@[k] as int == file_times(nv.subrange(0, i as int))[k],
            current_time == if i == 0 {
                START_TIME as int
            } else {
                file_times(nv.subrange(0, i as int)).last()
            },
        decreases names@.len() - i,
    {
        let ghost pre = nv.subrange(0, i + 1);
        proof {
            assert(pre.drop_last() =~= nv.subrange(0, i as int));
            assert(pre.last() == names@[i as int]@);
            lemma_file_times(pre);
            lemma_file_times(nv.subrange(0, i as int));
        }
        let lower = crate::text::to_lowercase(names[i].as_str());
        let l = str_chars(lower.as_str());
        let t: i64 = if eq_lit(l.as_slice(), "morrowind.esm") {
            1024695106
        } else if eq_lit(l.as_slice(), "tribunal.esm") {
            1035940926
        } else if eq_lit(l.as_slice(), "bloodmoon.esm") {
            1051807050
        } else {
            current_time + 60
        };
        current_time = t;
        let ghost prev_times = times@;
        times.push(t);
        assert forall|k: int| 0 <= k < i + 1 implies times@[k] as int == file_times(pre)[k] by {
            if k < i {
                assert(times@[k] == prev_times[k]);
            }
        }
        i = i + 1;
    }
    assert(nv.subrange(0, names@.len() as int) =~= nv);
    times
}

////////////////////////////////////////////////////////////////////////
// RULES DOWNLOADS
////////////////////////////////////////////////////////////////////////

/// Where the rules of a game come from: the files to fetch and their addresses.
pub open spec fn rules_downloads_spec(game: ESupportedGame) -> Seq<(Seq<char>, Seq<char>)> {
    match game {
        ESupportedGame::Morrowind | ESupportedGame::OpenMW => seq![
            ("https://github.com/DanaePlays/mlox-rules/raw/main/mlox_base.txt"@, "mlox_base.txt"@),
            ("https://github.com/DanaePlays/mlox-rules/raw/main/mlox_user.txt"@, "mlox_user.txt"@),
        ],
        ESupportedGame::Cyberpunk => seq![],
    }
}

/// The rules files to download for a game: each address with the file it goes to.
pub fn rules_downloads(game: ESupportedGame) -> (r: Vec<(String, String)>)
    ensures
        r@.map_values(|p: (String, String)| (p.0@, p.1@)) == rules_downloads_spec(game),
{
    let r = match game {
        ESupportedGame::Morrowind | ESupportedGame::OpenMW => vec![
            (
                String::from_str("https://github.com/DanaePlays/mlox-rules/raw/main/mlox_base.txt"),
                String::from_str("mlox_base.txt"),
            ),
            (
                String::from_str("https://github.com/DanaePlays/mlox-rules/raw/main/mlox_user.txt"),
                String::from_str("mlox_user.txt"),
            ),
        ],
        ESupportedGame::Cyberpunk => Vec::new(),
    };
    assert(r@.map_values(|p: (String, String)| (p.0@, p.1@)) =~= rules_downloads_spec(game));
    r
}

/// What `seahash::hash` gives for the bytes.
pub uninterp spec fn seahash_of(bytes: Seq<u8>) -> u64;

/// `seahash::hash`: a function of the bytes alone.
#[verifier::external_body]
fn seahash_hash(bytes: &[u8]) -> (r: u64)
    ensures
        r == seahash_of(bytes@),
{
    seahash::hash(bytes)
}

/// The text of a downloaded file's hash, as it is stored beside the file.
pub fn hash_text(body: &[u8]) -> (r: String)
    ensures
        r@ == decimal(seahash_of(body@) as nat),
{
    crate::text::decimal_string(seahash_hash(body))
}

/// Whether the stored hash (the text of its file) is that of the downloaded body, so
/// that the file on disk is already the latest.
pub fn is_latest(local_hash: &[u8], body: &[u8]) -> (r: bool)
    ensures
        r == (crate::text::parse_u64(crate::tes3::utf8_lossy(local_hash@)) == Some(
            seahash_of(body@),
        )),
{
    let text = crate::tes3::from_utf8_lossy(local_hash);
    let c = str_chars(text.as_str());
    match crate::text::parse_u64_chars(c.as_slice()) {
        Some(local) => local == seahash_hash(body),
        None => false,
    }
}

////////////////////////////////////////////////////////////////////////
// ORDER BY NAME
////////////////////////////////////////////////////////////////////////

/// `a` comes before `b` in the order of `String`: character by character, by code point,
/// a prefix first.
pub open spec fn text_lt(a: Seq<char>, b: Seq<char>) -> bool
    decreases a.len(),
{
    if a.len() == 0 {
        b.len() > 0
    } else if b.len() == 0 {
        false
    } else if a[0] != b[0] {
        (a[0] as u32) < (b[0] as u32)
    } else {
        text_lt(a.drop_first(), b.drop_first())
    }
}

/// Where a plugin goes among plugins sorted by name: after every one whose name is not
/// greater.
pub open spec fn name_insert_pos(s: Seq<PluginView>, name: Seq<char>) -> int
    decreases s.len(),
{
    if s.len() == 0 {
        0
    } else if !text_lt(name, s.last().name) {
        s.len() as int
    } else {
        name_insert_pos(s.drop_last(), name)
    }
}

/// The plugins sorted by name, those with equal names in the order they came in.
pub open spec fn sort_by_name(s: Seq<PluginView>) -> Seq<PluginView>
    decreases s.len(),
{
    if s.len() == 0 {
        s
    } else {
        let r = sort_by_name(s.drop_last());
        r.insert(name_insert_pos(r, s.last().name), s.last())
    }
}

proof fn lemma_name_insert_pos(s: Seq<PluginView>, name: Seq<char>)
    ensures
        0 <= name_insert_pos(s, name) <= s.len(),
    decreases s.len(),
{
    if s.len() > 0 {
        lemma_name_insert_pos(s.drop_last(), name);
    }
}

proof fn lemma_sort_by_name_len(s: Seq<PluginView>)
    ensures
        sort_by_name(s).len() == s.len(),
    decreases s.len(),
{
    if s.len() > 0 {
        lemma_sort_by_name_len(s.drop_last());
        lemma_name_insert_pos(sort_by_name(s.drop_last()), s.last().name);
    }
}

/// Whether `a` comes before `b` in the order of `String`.
pub fn text_less(a: &str, b: &str) -> (r: bool)
    ensures
        r == text_lt(a@, b@),
{
    let x = str_chars(a);
    let y = str_chars(b);
    let mut i: usize = 0;
    assert(x@.subrange(0, x@.len() as int) =~= x@);
    assert(y@.subrange(0, y@.len() as int) =~= y@);
    while i < x.len() && i < y.len() && x[i] == y[i]
        invariant
            0 <= i <= x@.len(),
            i <= y@.len(),
            text_lt(x@, y@) == text_lt(x@.subrange(i as int, x@.len() as int), y@.subrange(i as int, y@.len() as int)),
        decreases x@.len() - i,
    {
        assert(x@.subrange(i as int, x@.len() as int).drop_first() =~= x@.subrange(i + 1, x@.len() as int));
        assert(y@.subrange(i as int, y@.len() as int).drop_first() =~= y@.subrange(i + 1, y@.len() as int));
        i = i + 1;
    }
    let ghost xs = x@.subrange(i as int, x@.len() as int);
    let ghost ys = y@.subrange(i as int, y@.len() as int);
    if i == x.len() {
        i < y.len()
    } else if i == y.len() {
        false
    } else {
        assert(xs[0] == x@[i as int] && ys[0] == y@[i as int]);
        (x[i] as u32) < (y[i] as u32)
    }
}

/// Sorts the plugins by name, keeping the order of plugins with the same name.
pub fn sort_plugins_by_name(plugins: Vec<PluginData>) -> (r: Vec<PluginData>)
    ensures
        plugins_view(r@) == sort_by_name(plugins_view(plugins@)),
{
    let ghost pv = plugins_view(plugins@);
    let mut plugins = plugins;
    let mut sorted: Vec<PluginData> = Vec::new();
    let mut k: usize = 0;
    let n = plugins.len();
    while k < n
        invariant
            0 <= k <= n,
            n == pv.len(),
            plugins@.len() == n - k,
            forall|m: int| 0 <= m < n - k ==> (#[trigger] plugins@[m])@ == pv[k + m],
            plugins_view(sorted@) == sort_by_name(pv.subrange(0, k as int)),
        decreases n - k,
    {
        let ghost pre = pv.subrange(0, k + 1);
        assert(pre.drop_last() =~= pv.subrange(0, k as int));
        let ghost rb = plugins@;
        let e = plugins.remove(0);
        assert(e@ == pv[k as int]);
        assert(pre.last() == e@);
        assert forall|m: int| 0 <= m < n - (k + 1) implies (#[trigger] plugins@[m])@ == pv[k + 1 + m] by {
            assert(plugins@[m] == rb[m + 1]);
        }
        let ghost sv = plugins_view(sorted@);
        proof {
            lemma_sort_by_name_len(pv.subrange(0, k as int));
        }
        let mut p: usize = sorted.len();
        assert(sv.subrange(0, p as int) =~= sv);
        while p > 0 && text_less(e.name.as_str(), sorted[p - 1].name.as_str())
            invariant
                0 <= p <= sorted@.len(),
                sv == plugins_view(sorted@),
                name_insert_pos(sv, e@.name) == name_insert_pos(sv.subrange(0, p as int), e@.name),
            decreases p,
        {
            assert(sv.subrange(0, p as int).drop_last() =~= sv.subrange(0, p - 1));
            assert(sv.subrange(0, p as int).last() == sorted@[p - 1]@);
            p = p - 1;
        }
        proof {
            if p > 0 {
                assert(sv.subrange(0, p as int).last() == sorted@[p - 1]@);
            }
        }
        let ghost before = sorted@;
        sorted.insert(p, e);
        assert(plugins_view(sorted@) =~= sv.insert(p as int, e@));
        k = k + 1;
    }
    assert(pv.subrange(0, n as int) =~= pv);
    sorted
}

} // verus!
