//! Plugin names with wildcards: `*` (any run of characters), `?` (any one character)
//! and `<ver>` (a version number) are turned into a regular expression.
use vstd::prelude::*;

use crate::text::{chars_to_string, starts_with, str_chars};
use crate::{plugins_view, PluginData, PluginView};

verus! {

/// Whether `regex::Regex::new` accepts the pattern.
pub uninterp spec fn regex_compiles(pattern: Seq<char>) -> bool;

/// Whether the regular expression `pattern` matches somewhere in `text` (`regex::Regex::is_match`).
pub uninterp spec fn regex_is_match(pattern: Seq<char>, text: Seq<char>) -> bool;

/// Compiles `pattern` with `regex::Regex::new` and, when that succeeds, asks
/// `regex::Regex::is_match` about `text`. The contract says only that a compile
/// failure gives `None` and that the answer is a function of the two strings.
#[verifier::external_body]
pub(crate) fn regex_match(pattern: &str, text: &str) -> (r: Option<bool>)
    ensures
        r == (if regex_compiles(pattern@) {
            Some(regex_is_match(pattern@, text@))
        } else {
            None
        }),
{
    match regex::Regex::new(pattern) {
        Ok(re) => Some(re.is_match(text)),
        Err(_) => None,
    }
}

/// The text that the first capture group of the regular expression `pattern` takes in
/// `text`, where the expression matches there and the group takes part in the match
/// (`regex::Regex::captures`, then `Captures::get(1)`).
pub uninterp spec fn regex_first_group(pattern: Seq<char>, text: Seq<char>) -> Option<Seq<char>>;

/// Compiles `pattern` with `regex::Regex::new` and, when that succeeds, gives the text of
/// its first capture group in `text` (`Regex::captures`, `Captures::get(1)`). A compile
/// failure gives `None`; the text taken is only named.
#[verifier::external_body]
pub(crate) fn regex_capture(pattern: &str, text: &str) -> (r: Option<String>)
    ensures
        regex_compiles(pattern@) ==> crate::versions::opt_view(r) == regex_first_group(
            pattern@,
            text@,
        ),
        !regex_compiles(pattern@) ==> r is None,
{
    match regex::Regex::new(pattern) {
        Ok(re) => match re.captures(text) {
            Some(c) => match c.get(1) {
                Some(m) => Some(m.as_str().to_string()),
                None => None,
            },
            None => None,
        },
        Err(_) => None,
    }
}

/// The `<ver>` placeholder.
pub open spec fn ver_tag() -> Seq<char> {
    seq!['<', 'v', 'e', 'r', '>']
}

/// What `<ver>` stands for: version numbers such as 1.2.3a, 1.0, 1, 1a, 1_3a or 77g.
pub open spec fn ver_regex() -> Seq<char> {
    "(\\d+(?:[_.-]?\\d+)*[a-z]?)"@
}

pub open spec fn occurs_at(s: Seq<char>, p: Seq<char>, i: int) -> bool {
    0 <= i && i + p.len() <= s.len() && s.subrange(i, i + p.len()) == p
}

pub open spec fn contains_seq(s: Seq<char>, p: Seq<char>) -> bool {
    exists|i: int| occurs_at(s, p, i)
}

/// Whether a plugin name is a pattern rather than a plain name.
pub open spec fn is_wild(p: Seq<char>) -> bool {
    p.contains('*') || p.contains('?') || contains_seq(p, ver_tag())
}

/// `str::replace` with a single character as the pattern.
pub open spec fn replace_char(s: Seq<char>, c: char, r: Seq<char>) -> Seq<char>
    decreases s.len(),
{
    if s.len() == 0 {
        seq![]
    } else {
        (if s[0] == c {
            r
        } else {
            seq![s[0]]
        }) + replace_char(s.drop_first(), c, r)
    }
}

/// `str::replace` with a non-empty string as the pattern: leftmost matches, not overlapping.
pub open spec fn replace_seq(s: Seq<char>, p: Seq<char>, r: Seq<char>) -> Seq<char>
    decreases s.len(),
{
    if s.len() == 0 {
        seq![]
    } else if p.len() > 0 && starts_with(s, p) {
        r + replace_seq(s.subrange(p.len() as int, s.len() as int), p, r)
    } else {
        seq![s[0]] + replace_seq(s.drop_first(), p, r)
    }
}

/// The regular expression a wildcard name stands for, anchored at both ends.
pub open spec fn wild_regex(p: Seq<char>) -> Seq<char> {
    seq!['^'] + replace_seq(
        replace_char(replace_char(p, '*', seq!['.', '*']), '?', seq!['.']),
        ver_tag(),
        ver_regex(),
    ) + seq!['$']
}

/// The items of `list` that `pattern` names, in list order; `None` when there is none or
/// when the pattern does not compile. A plain name gives itself once.
pub open spec fn wild_contains_spec(list: Seq<Seq<char>>, pattern: Seq<char>) -> Option<
    Seq<Seq<char>>,
> {
    if is_wild(pattern) {
        if !regex_compiles(wild_regex(pattern)) {
            None
        } else {
            let r = list.filter(|x: Seq<char>| regex_is_match(wild_regex(pattern), x));
            if r.len() == 0 {
                None
            } else {
                Some(r)
            }
        }
    } else if list.contains(pattern) {
        Some(seq![pattern])
    } else {
        None
    }
}

pub open spec fn strings_view(v: Seq<String>) -> Seq<Seq<char>> {
    v.map_values(|s: String| s@)
}

pub open spec fn opt_strings_view(o: Option<Vec<String>>) -> Option<Seq<Seq<char>>> {
    match o {
        Some(v) => Some(strings_view(v@)),
        None => None,
    }
}

pub open spec fn plugin_names(items: Seq<PluginData>) -> Seq<Seq<char>> {
    items.map_values(|p: PluginData| p.name@)
}

/// The plugins whose names `pattern` names, in list order; a plain name gives the first
/// plugin of that name.
pub open spec fn wild_contains_data_spec(list: Seq<PluginView>, pattern: Seq<char>) -> Option<
    Seq<PluginView>,
> {
    if is_wild(pattern) {
        if !regex_compiles(wild_regex(pattern)) {
            None
        } else {
            let r = list.filter(|x: PluginView| regex_is_match(wild_regex(pattern), x.name));
            if r.len() == 0 {
                None
            } else {
                Some(r)
            }
        }
    } else {
        match first_named(list, pattern) {
            Some(i) => Some(seq![list[i]]),
            None => None,
        }
    }
}

/// The index of the first plugin called `name`.
pub open spec fn first_named(list: Seq<PluginView>, name: Seq<char>) -> Option<int>
    decreases list.len(),
{
    if list.len() == 0 {
        None
    } else if list[0].name == name {
        Some(0)
    } else {
        match first_named(list.drop_first(), name) {
            Some(i) => Some(i + 1),
            None => None,
        }
    }
}

proof fn lemma_first_named(list: Seq<PluginView>, name: Seq<char>, i: int)
    requires
        0 <= i <= list.len(),
        forall|k: int| 0 <= k < i ==> list[k].name != name,
    ensures
        i < list.len() && list[i].name == name ==> first_named(list, name) == Some(i),
        i == list.len() ==> first_named(list, name) is None,
    decreases i,
{
    if i > 0 {
        lemma_first_named(list.drop_first(), name, i - 1);
    }
}

/// The names of the plugins, in order.
pub open spec fn view_names(list: Seq<PluginView>) -> Seq<Seq<char>> {
    list.map_values(|x: PluginView| x.name)
}

pub open spec fn opt_view_names(o: Option<Seq<PluginView>>) -> Option<Seq<Seq<char>>> {
    match o {
        Some(v) => Some(view_names(v)),
        None => None,
    }
}

proof fn lemma_first_named_found(list: Seq<PluginView>, name: Seq<char>)
    ensures
        first_named(list, name) matches Some(i) ==> 0 <= i < list.len() && list[i].name == name,
        first_named(list, name) is None ==> !view_names(list).contains(name),
    decreases list.len(),
{
    if list.len() > 0 {
        lemma_first_named_found(list.drop_first(), name);
        if first_named(list, name) is None {
            if view_names(list).contains(name) {
                let k = choose|k: int| 0 <= k < list.len() && view_names(list)[k] == name;
                assert(k != 0);
                assert(view_names(list.drop_first())[k - 1] == name);
            }
        }
    }
}

proof fn lemma_filter_names(list: Seq<PluginView>, p: Seq<char>)
    ensures
        view_names(list.filter(|x: PluginView| regex_is_match(p, x.name))) == view_names(list).filter(
            |x: Seq<char>| regex_is_match(p, x),
        ),
    decreases list.len(),
{
    reveal_with_fuel(Seq::<_>::filter, 1);
    let f = |x: PluginView| regex_is_match(p, x.name);
    let g = |x: Seq<char>| regex_is_match(p, x);
    if list.len() == 0 {
        assert(view_names(list.filter(f)) =~= view_names(list).filter(g));
    } else {
        let d = list.drop_last();
        lemma_filter_names(d, p);
        assert(view_names(list).drop_last() =~= view_names(d));
        assert(view_names(list).last() == list.last().name);
        if f(list.last()) {
            assert(view_names(list.filter(f)) =~= view_names(d.filter(f)).push(list.last().name));
        } else {
            assert(view_names(list.filter(f)) =~= view_names(d.filter(f)));
        }
    }
}

/// Law: which plugins a name refers to among the plugins is, by their names, what it
/// refers to among the plugins' names.
pub proof fn lemma_data_names(list: Seq<PluginView>, pattern: Seq<char>)
    ensures
        opt_view_names(wild_contains_data_spec(list, pattern)) == wild_contains_spec(
            view_names(list),
            pattern,
        ),
{
    if is_wild(pattern) {
        if regex_compiles(wild_regex(pattern)) {
            lemma_filter_names(list, wild_regex(pattern));
        }
    } else {
        lemma_first_named_found(list, pattern);
        if let Some(i) = first_named(list, pattern) {
            assert(view_names(list)[i] == pattern);
            assert(view_names(seq![list[i]]) =~= seq![pattern]);
        }
    }
}

fn contains_char(v: &[char], c: char) -> (r: bool)
    ensures
        r == v@.contains(c),
{
    let mut i: usize = 0;
    while i < v.len()
        invariant
            0 <= i <= v@.len(),
            forall|k: int| 0 <= k < i ==> v@[k] != c,
        decreases v@.len() - i,
    {
        if v[i] == c {
            return true;
        }
        i = i + 1;
    }
    false
}

fn occurs_at_exec(s: &[char], p: &[char], i: usize) -> (r: bool)
    ensures
        r == occurs_at(s@, p@, i as int),
{
    if i > s.len() || p.len() > s.len() - i {
        return false;
    }
    let mut k: usize = 0;
    while k < p.len()
        invariant
            i + p@.len() <= s@.len(),
            s@.len() == s.len(),
            p@.len() == p.len(),
            0 <= k <= p@.len(),
            forall|m: int| 0 <= m < k ==> s@[i + m] == p@[m],
        decreases p@.len() - k,
    {
        if s[i + k] != p[k] {
            assert(s@.subrange(i as int, i + p@.len())[k as int] != p@[k as int]);
            return false;
        }
        k = k + 1;
    }
    assert(s@.subrange(i as int, i + p@.len()) =~= p@);
    true
}

pub fn contains_seq_exec(s: &[char], p: &[char]) -> (r: bool)
    ensures
        r == contains_seq(s@, p@),
{
    let mut i: usize = 0;
    loop
        invariant
            0 <= i <= s@.len(),
            forall|k: int| 0 <= k < i ==> !occurs_at(s@, p@, k),
        decreases s@.len() - i,
    {
        if occurs_at_exec(s, p, i) {
            return true;
        }
        if i == s.len() {
            assert forall|k: int| !occurs_at(s@, p@, k) by {
                if 0 <= k && k + p@.len() <= s@.len() {
                    assert(k <= i);
                }
            }
            return false;
        }
        i = i + 1;
    }
}

pub fn replace_char_exec(s: &[char], c: char, r: &[char]) -> (out: Vec<char>)
    ensures
        out@ == replace_char(s@, c, r@),
{
    let mut out: Vec<char> = Vec::new();
    let mut i: usize = 0;
    assert(s@.subrange(0, s@.len() as int) =~= s@);
    assert(Seq::<char>::empty() + s@ =~= s@);
    while i < s.len()
        invariant
            0 <= i <= s@.len(),
            replace_char(s@, c, r@) == out@ + replace_char(s@.subrange(i as int, s@.len() as int), c, r@),
        decreases s@.len() - i,
    {
        let ghost rest = s@.subrange(i as int, s@.len() as int);
        assert(rest.drop_first() =~= s@.subrange(i + 1, s@.len() as int));
        let ghost before = out@;
        if s[i] == c {
            let mut k: usize = 0;
            while k < r.len()
                invariant
                    0 <= k <= r@.len(),
                    out@ == before + r@.subrange(0, k as int),
                decreases r@.len() - k,
            {
                out.push(r[k]);
                k = k + 1;
                assert(out@ =~= before + r@.subrange(0, k as int));
            }
            assert(r@.subrange(0, r@.len() as int) =~= r@);
        } else {
            out.push(s[i]);
        }
        assert(out@ + replace_char(rest.drop_first(), c, r@) =~= before + replace_char(rest, c, r@));
        i = i + 1;
    }
    assert(s@.subrange(s@.len() as int, s@.len() as int) =~= Seq::<char>::empty());
    assert(out@ + Seq::<char>::empty() =~= out@);
    out
}

pub fn replace_seq_exec(s: &[char], p: &[char], r: &[char]) -> (out: Vec<char>)
    requires
        p@.len() > 0,
    ensures
        out@ == replace_seq(s@, p@, r@),
{
    let mut out: Vec<char> = Vec::new();
    let mut i: usize = 0;
    assert(s@.subrange(0, s@.len() as int) =~= s@);
    assert(Seq::<char>::empty() + s@ =~= s@);
    while i < s.len()
        invariant
            0 <= i <= s@.len(),
            p@.len() > 0,
            replace_seq(s@, p@, r@) == out@ + replace_seq(s@.subrange(i as int, s@.len() as int), p@, r@),
        decreases s@.len() - i,
    {
        let ghost rest = s@.subrange(i as int, s@.len() as int);
        let ghost before = out@;
        if occurs_at_exec(s, p, i) {
            assert(rest.subrange(0, p@.len() as int) =~= s@.subrange(i as int, i + p@.len()));
            assert(starts_with(rest, p@));
            assert(rest.subrange(p@.len() as int, rest.len() as int) =~= s@.subrange(
                i + p@.len(),
                s@.len() as int,
            ));
            let mut k: usize = 0;
            while k < r.len()
                invariant
                    0 <= k <= r@.len(),
                    out@ == before + r@.subrange(0, k as int),
                decreases r@.len() - k,
            {
                out.push(r[k]);
                k = k + 1;
                assert(out@ =~= before + r@.subrange(0, k as int));
            }
            assert(r@.subrange(0, r@.len() as int) =~= r@);
            assert(out@ + replace_seq(s@.subrange(i + p@.len(), s@.len() as int), p@, r@)
                =~= before + replace_seq(rest, p@, r@));
            i = i + p.len();
        } else {
            assert(!starts_with(rest, p@)) by {
                if starts_with(rest, p@) {
                    assert(rest.subrange(0, p@.len() as int) =~= s@.subrange(
                        i as int,
                        i + p@.len(),
                    ));
                }
            }
            assert(rest.drop_first() =~= s@.subrange(i + 1, s@.len() as int));
            out.push(s[i]);
            assert(out@ + replace_seq(rest.drop_first(), p@, r@) =~= before + replace_seq(
                rest,
                p@,
                r@,
            ));
            i = i + 1;
        }
    }
    assert(s@.subrange(s@.len() as int, s@.len() as int) =~= Seq::<char>::empty());
    assert(out@ + Seq::<char>::empty() =~= out@);
    out
}

pub fn ver_tag_chars() -> (v: Vec<char>)
    ensures
        v@ == ver_tag(),
{
    let v = vec!['<', 'v', 'e', 'r', '>'];
    assert(v@ =~= ver_tag());
    v
}

/// Whether a plugin name holds `*`, `?` or `<ver>`.
pub fn is_wild_exec(p: &[char]) -> (r: bool)
    ensures
        r == is_wild(p@),
{
    let tag = ver_tag_chars();
    contains_char(p, '*') || contains_char(p, '?') || contains_seq_exec(p, tag.as_slice())
}

/// The anchored regular expression for a wildcard name.
pub fn wild_regex_exec(p: &[char]) -> (r: String)
    ensures
        r@ == wild_regex(p@),
{
    let star = vec!['.', '*'];
    let dot = vec!['.'];
    let a = replace_char_exec(p, '*', star.as_slice());
    assert(star@ =~= seq!['.', '*']);
    let b = replace_char_exec(a.as_slice(), '?', dot.as_slice());
    assert(dot@ =~= seq!['.']);
    let tag = ver_tag_chars();
    let ver = str_chars("(\\d+(?:[_.-]?\\d+)*[a-z]?)");
    let c = replace_seq_exec(b.as_slice(), tag.as_slice(), ver.as_slice());
    let mut all: Vec<char> = Vec::new();
    all.push('^');
    let mut i: usize = 0;
    while i < c.len()
        invariant
            0 <= i <= c@.len(),
            all@ == seq!['^'] + c@.subrange(0, i as int),
        decreases c@.len() - i,
    {
        all.push(c[i]);
        i = i + 1;
        assert(all@ =~= seq!['^'] + c@.subrange(0, i as int));
    }
    all.push('$');
    assert(c@.subrange(0, c@.len() as int) =~= c@);
    assert(all@ =~= wild_regex(p@));
    chars_to_string(all.as_slice())
}

/// Checks which items of the list the (possibly wildcard) name refers to.
pub fn wild_contains(list: &[String], str: &String) -> (r: Option<Vec<String>>)
    ensures
        opt_strings_view(r) == wild_contains_spec(strings_view(list@), str@),
{
    let pattern = str_chars(str.as_str());
    if is_wild_exec(pattern.as_slice()) {
        let re = wild_regex_exec(pattern.as_slice());
        let ghost pred = |x: Seq<char>| regex_is_match(wild_regex(str@), x);
        let mut results: Vec<String> = Vec::new();
        let mut i: usize = 0;
        while i < list.len()
            invariant
                0 <= i <= list@.len(),
                re@ == wild_regex(str@),
                pred == (|x: Seq<char>| regex_is_match(wild_regex(str@), x)),
                i > 0 ==> regex_compiles(wild_regex(str@)),
                is_wild(str@),
                strings_view(results@) == strings_view(list@.subrange(0, i as int)).filter(pred),
            decreases list@.len() - i,
        {
            let m = regex_match(re.as_str(), list[i].as_str());
            match m {
                None => {
                    return None;
                },
                Some(b) => {
                    let ghost prev = results@;
                    proof {
                        reveal_with_fuel(Seq::<_>::filter, 1);
                        assert(strings_view(list@.subrange(0, i + 1)).drop_last() =~= strings_view(
                            list@.subrange(0, i as int),
                        ));
                    }
                    if b {
                        results.push(list[i].clone());
                        assert(strings_view(results@) =~= strings_view(prev).push(list@[i as int]@));
                    }
                    i = i + 1;
                },
            }
        }
        assert(list@.subrange(0, list@.len() as int) =~= list@);
        if results.len() == 0 {
            proof {
                if !regex_compiles(wild_regex(str@)) {
                    assert(list@.len() == 0);
                    assert(strings_view(list@) =~= Seq::<Seq<char>>::empty());
                    assert(strings_view(list@).filter(pred) =~= Seq::<Seq<char>>::empty()) by {
                        reveal_with_fuel(Seq::<_>::filter, 1);
                    }
                }
            }
            return None;
        }
        return Some(results);
    }
    let mut i: usize = 0;
    while i < list.len()
        invariant
            0 <= i <= list@.len(),
            forall|k: int| 0 <= k < i ==> list@[k]@ != str@,
            !is_wild(str@),
        decreases list@.len() - i,
    {
        if list[i] == *str {
            proof {
                assert(strings_view(list@)[i as int] == str@);
            }
            let v = vec![str.clone()];
            assert(strings_view(v@) =~= seq![str@]);
            return Some(v);
        }
        i = i + 1;
    }
    assert(!strings_view(list@).contains(str@)) by {
        if strings_view(list@).contains(str@) {
            let k = choose|k: int| 0 <= k < strings_view(list@).len() && strings_view(list@)[k] == str@;
            assert(list@[k]@ == str@);
        }
    }
    None
}

/// Checks which plugins the (possibly wildcard) name refers to.
pub fn wild_contains_data(list: &[PluginData], str: &String) -> (r: Option<Vec<PluginData>>)
    ensures
        match r {
            Some(v) => wild_contains_data_spec(plugins_view(list@), str@) == Some(plugins_view(v@)),
            None => wild_contains_data_spec(plugins_view(list@), str@) is None,
        },
        match r {
            Some(v) => wild_contains_spec(view_names(plugins_view(list@)), str@) == Some(
                view_names(plugins_view(v@)),
            ),
            None => wild_contains_spec(view_names(plugins_view(list@)), str@) is None,
        },
{
    proof {
        lemma_data_names(plugins_view(list@), str@);
    }
    let pattern = str_chars(str.as_str());
    if is_wild_exec(pattern.as_slice()) {
        let re = wild_regex_exec(pattern.as_slice());
        let ghost pred = |x: PluginView| regex_is_match(wild_regex(str@), x.name);
        let mut results: Vec<PluginData> = Vec::new();
        let mut i: usize = 0;
        while i < list.len()
            invariant
                0 <= i <= list@.len(),
                re@ == wild_regex(str@),
                pred == (|x: PluginView| regex_is_match(wild_regex(str@), x.name)),
                i > 0 ==> regex_compiles(wild_regex(str@)),
                is_wild(str@),
                plugins_view(results@) == plugins_view(list@.subrange(0, i as int)).filter(pred),
            decreases list@.len() - i,
        {
            let m = regex_match(re.as_str(), list[i].name.as_str());
            match m {
                None => {
                    return None;
                },
                Some(b) => {
                    proof {
                        reveal_with_fuel(Seq::<_>::filter, 1);
                        assert(plugins_view(list@.subrange(0, i + 1)).drop_last() =~= plugins_view(list@.subrange(
                            0,
                            i as int,
                        )));
                    }
                    let ghost prev = results@;
                    if b {
                        results.push(list[i].clone());
                        assert(plugins_view(results@) =~= plugins_view(prev).push(list@[i as int]@));
                    }
                    i = i + 1;
                },
            }
        }
        assert(list@.subrange(0, list@.len() as int) =~= list@);
        if results.len() == 0 {
            proof {
                if !regex_compiles(wild_regex(str@)) {
                    assert(list@.len() == 0);
                }
            }
            return None;
        }
        return Some(results);
    }
    let mut i: usize = 0;
    while i < list.len()
        invariant
            0 <= i <= list@.len(),
            forall|k: int| 0 <= k < i ==> plugins_view(list@)[k].name != str@,
            !is_wild(str@),
            opt_view_names(wild_contains_data_spec(plugins_view(list@), str@)) == wild_contains_spec(
                view_names(plugins_view(list@)),
                str@,
            ),
        decreases list@.len() - i,
    {
        if list[i].name == *str {
            proof {
                lemma_first_named(plugins_view(list@), str@, i as int);
            }
            let v = vec![list[i].clone()];
            assert(plugins_view(v@) =~= seq![plugins_view(list@)[i as int]]);
            return Some(v);
        }
        i = i + 1;
    }
    proof {
        lemma_first_named(plugins_view(list@), str@, i as int);
    }
    None
}

} // verus!
