//! The rules parser: splits a rules file into rules, and reads each rule's expressions.
use vstd::prelude::*;

use crate::rules::{
    Conflict, EOrderRule, ERule, EWarningRule, NearEnd, NearStart, Note, Order, Patch, Requires,
    TWarningRule,
};
use crate::text::{
    is_ws, trim_start, chars_to_string, ends_with, ends_with_chars, is_ascii_ws, starts_with, str_chars, trim,
    trim_chars,
};
use crate::expressions::{Atomic, EVerOperator, Expression, ALL, ANY, DESC, NOT, SIZE, VER};
use crate::syntax::{
    chunk_fold, chunks_of, clean_chunks, desc_parts, first_ws_index, is_expr_start, last_char_index,
    latin1, size_parts, starts_with_ws, ver_parts, ChunkState, SizeParts,
};
use crate::syntax::{
    body_cut_fails, brackets, expr_body, expr_view, exprs_view, inner_text, lemma_exprs_view,
    parse_chunk_list, parse_desc_expr, parse_expr, parse_exprs, parse_group, parse_size_expr,
    parse_ver_expr, reencode, single_atomic, ExprV, POut,
};
use crate::syntax::{
    chunk_rules, chunks_ok, file_chunks, file_fold, is_rule_start, prep_line,
    body_fold, chunk_rule, nonblank_lines, BodyState,
    body_rule, close_from, has_ws, line_tokens, rule_head, rule_kind, rule_view, ERuleType, RuleKind,
    RuleV,
};
use crate::text::{lines, lowercase};
use crate::wildcard::strings_view;
use crate::{plugins_view, ESupportedGame, PluginData, PluginView};

verus! {

/// What went wrong while parsing a rule or an expression.
#[derive(Debug, Clone, Copy, PartialEq, Eq, Structural)]
pub enum ParseError {
    NotAnAtomic,
    NotAnExpression,
    UnknownExpression,
    DescChildCount,
    DescChildAtomic,
    SizeChildCount,
    SizeChildAtomic,
    VerChildCount,
    VerChildAtomic,
    UnknownRule,
    NotARuleStart,
    UnclosedRule,
    MalformedConflict,
    MalformedRequires,
    MalformedPatch,
}

/// The message the parser logs for an error.
pub open spec fn error_message(e: ParseError) -> Seq<char> {
    match e {
        ParseError::NotAnAtomic => "Parsing error: Not an atomic"@,
        ParseError::NotAnExpression => "Parsing error: Not an expression"@,
        ParseError::UnknownExpression => "Parsing error: unknown expression"@,
        ParseError::DescChildCount => "Parsing error: DESC expression must have exactly one child expression"@,
        ParseError::DescChildAtomic => "Parsing error: DESC expression must have an atomic child expression"@,
        ParseError::SizeChildCount => "Parsing error: SIZE expression must have exactly one child expression"@,
        ParseError::SizeChildAtomic => "Parsing error: SIZE expression must have an atomic child expression"@,
        ParseError::VerChildCount => "Parsing error: VER expression must have exactly one child expression"@,
        ParseError::VerChildAtomic => "Parsing error: VER expression must have an atomic child expression"@,
        ParseError::UnknownRule => "Parsing error: unknown rule"@,
        ParseError::NotARuleStart => "Parsing error: Not a rule start"@,
        ParseError::UnclosedRule => "Parsing error: the rule expression is not closed"@,
        ParseError::MalformedConflict => "Malformed Conflict rule: less than 2 expressions"@,
        ParseError::MalformedRequires => "Malformed Requires rule: more than 2 expressions"@,
        ParseError::MalformedPatch => "Malformed Patch rule: more than 2 expressions"@,
    }
}

impl ParseError {
    /// The message the parser logs for the error.
    pub fn message(&self) -> (r: &'static str)
        ensures
            r@ == error_message(*self),
    {
        match self {
            ParseError::NotAnAtomic => "Parsing error: Not an atomic",
            ParseError::NotAnExpression => "Parsing error: Not an expression",
            ParseError::UnknownExpression => "Parsing error: unknown expression",
            ParseError::DescChildCount => "Parsing error: DESC expression must have exactly one child expression",
            ParseError::DescChildAtomic => "Parsing error: DESC expression must have an atomic child expression",
            ParseError::SizeChildCount => "Parsing error: SIZE expression must have exactly one child expression",
            ParseError::SizeChildAtomic => "Parsing error: SIZE expression must have an atomic child expression",
            ParseError::VerChildCount => "Parsing error: VER expression must have exactly one child expression",
            ParseError::VerChildAtomic => "Parsing error: VER expression must have an atomic child expression",
            ParseError::UnknownRule => "Parsing error: unknown rule",
            ParseError::NotARuleStart => "Parsing error: Not a rule start",
            ParseError::UnclosedRule => "Parsing error: the rule expression is not closed",
            ParseError::MalformedConflict => "Malformed Conflict rule: less than 2 expressions",
            ParseError::MalformedRequires => "Malformed Requires rule: more than 2 expressions",
            ParseError::MalformedPatch => "Malformed Patch rule: more than 2 expressions",
        }
    }
}

////////////////////////////////////////////////////////////////////////
// PARSERS
////////////////////////////////////////////////////////////////////////

/// A warning rule that held for the load order.
pub struct Warning {
    pub rule: EWarningRule,
}

impl Warning {
    pub fn get_comment(&self) -> (r: String)
        ensures
            r@ == self.rule.comment_view(),
    {
        let c = self.rule.get_comment();
        c.to_owned()
    }

    pub fn get_plugins(&self) -> (r: Vec<String>)
        ensures
            strings_view(r@) == self.rule.recorded(),
    {
        self.rule.get_plugins()
    }

    pub fn get_rule_name(&self) -> (r: String)
        ensures
            r@ == rule_name(self.rule),
    {
        match self.rule {
            EWarningRule::Conflict(_) => String::from_str("Conflict"),
            EWarningRule::Note(_) => String::from_str("Note"),
            EWarningRule::Patch(_) => String::from_str("Patch"),
            EWarningRule::Requires(_) => String::from_str("Requires"),
        }
    }
}

pub open spec fn rule_name(rule: EWarningRule) -> Seq<char> {
    match rule {
        EWarningRule::Conflict(_) => "Conflict"@,
        EWarningRule::Note(_) => "Note"@,
        EWarningRule::Patch(_) => "Patch"@,
        EWarningRule::Requires(_) => "Requires"@,
    }
}

/// The parser of a game's rules: the file extensions of its plugins, and the rules it
/// has read.
pub struct Parser {
    pub game: ESupportedGame,
    pub ext: Vec<String>,
    pub order_rules: Vec<EOrderRule>,
    pub warning_rules: Vec<EWarningRule>,
    pub warnings: Vec<Warning>,
}

impl Parser {
    pub fn new(ext: Vec<String>, game: ESupportedGame) -> (r: Self)
        ensures
            r.ext == ext,
            r.game == game,
            r.order_rules@.len() == 0,
            r.warning_rules@.len() == 0,
            r.warnings@.len() == 0,
    {
        Self { ext, game, warning_rules: Vec::new(), order_rules: Vec::new(), warnings: Vec::new() }
    }

    /// The extensions as text.
    pub open spec fn exts(&self) -> Seq<Seq<char>> {
        strings_view(self.ext@)
    }
}

/// The plugin extensions of each game.
pub open spec fn game_exts(game: ESupportedGame) -> Seq<Seq<char>> {
    match game {
        ESupportedGame::Morrowind => seq![".esp"@, ".esm"@],
        ESupportedGame::OpenMW => seq![".esp"@, ".esm"@, ".omwaddon"@],
        ESupportedGame::Cyberpunk => seq![".archive"@],
    }
}

/// The parser for Cyberpunk 2077: `.archive` plugins.
pub fn new_cyberpunk_parser() -> (r: Parser)
    ensures
        r.game == ESupportedGame::Cyberpunk,
        r.exts() == game_exts(ESupportedGame::Cyberpunk),
        r.order_rules@.len() == 0,
        r.warning_rules@.len() == 0,
        r.warnings@.len() == 0,
{
    let ext = vec![String::from_str(".archive")];
    assert(strings_view(ext@) =~= game_exts(ESupportedGame::Cyberpunk));
    Parser::new(ext, ESupportedGame::Cyberpunk)
}

/// The parser for Morrowind: `.esp` and `.esm` plugins.
pub fn new_tes3_parser() -> (r: Parser)
    ensures
        r.game == ESupportedGame::Morrowind,
        r.exts() == game_exts(ESupportedGame::Morrowind),
        r.order_rules@.len() == 0,
        r.warning_rules@.len() == 0,
        r.warnings@.len() == 0,
{
    let ext = vec![String::from_str(".esp"), String::from_str(".esm")];
    assert(strings_view(ext@) =~= game_exts(ESupportedGame::Morrowind));
    Parser::new(ext, ESupportedGame::Morrowind)
}

/// The parser for OpenMW: `.esp`, `.esm` and `.omwaddon` plugins.
pub fn new_openmw_parser() -> (r: Parser)
    ensures
        r.game == ESupportedGame::OpenMW,
        r.exts() == game_exts(ESupportedGame::OpenMW),
        r.order_rules@.len() == 0,
        r.warning_rules@.len() == 0,
        r.warnings@.len() == 0,
{
    let ext = vec![String::from_str(".esp"), String::from_str(".esm"), String::from_str(".omwaddon")];
    assert(strings_view(ext@) =~= game_exts(ESupportedGame::OpenMW));
    Parser::new(ext, ESupportedGame::OpenMW)
}

/// The parser of a game.
pub fn get_parser(game: ESupportedGame) -> (r: Parser)
    ensures
        r.game == game,
        r.exts() == game_exts(game),
        r.order_rules@.len() == 0,
        r.warning_rules@.len() == 0,
        r.warnings@.len() == 0,
{
    match game {
        ESupportedGame::Morrowind => new_tes3_parser(),
        ESupportedGame::OpenMW => new_openmw_parser(),
        ESupportedGame::Cyberpunk => new_cyberpunk_parser(),
    }
}

////////////////////////////////////////////////////////////////////////
// EXTENSIONS AND TOKENS
////////////////////////////////////////////////////////////////////////

/// The text ends with one of the extensions followed by `suffix`.
pub open spec fn ends_with_ext(buf: Seq<char>, exts: Seq<Seq<char>>, suffix: Seq<char>) -> bool {
    exists|k: int| 0 <= k < exts.len() && ends_with(buf, #[trigger] exts[k] + suffix)
}

fn ends_with_ext_chars(buf: &[char], exts: &Vec<String>, suffix: &[char]) -> (r: bool)
    ensures
        r == ends_with_ext(buf@, strings_view(exts@), suffix@),
{
    let ghost es = strings_view(exts@);
    let mut k: usize = 0;
    while k < exts.len()
        invariant
            0 <= k <= exts@.len(),
            es == strings_view(exts@),
            forall|m: int| 0 <= m < k ==> !ends_with(buf@, #[trigger] es[m] + suffix@),
        decreases exts@.len() - k,
    {
        let mut e = str_chars(exts[k].as_str());
        let ghost ev = e@;
        let mut s = crate::text::slice_copy(suffix, 0, suffix.len());
        assert(suffix@.subrange(0, suffix@.len() as int) =~= suffix@);
        e.append(&mut s);
        assert(e@ =~= es[k as int] + suffix@);
        if ends_with_chars(buf, e.as_slice()) {
            return true;
        }
        k = k + 1;
    }
    false
}

impl Parser {
    /// Whether the text ends with one of the extensions.
    pub fn ends_with_vec(&self, current_buffer: &str) -> (r: bool)
        ensures
            r == ends_with_ext(current_buffer@, self.exts(), seq![]),
    {
        let c = str_chars(current_buffer);
        let none: Vec<char> = Vec::new();
        assert(none@ =~= Seq::<char>::empty());
        ends_with_ext_chars(c.as_slice(), &self.ext, none.as_slice())
    }

    /// Whether the text ends with one of the extensions and a space.
    pub fn ends_with_vec_whitespace(&self, current_buffer: &str) -> (r: bool)
        ensures
            r == ends_with_ext(current_buffer@, self.exts(), seq![' ']),
    {
        let c = str_chars(current_buffer);
        let sp = vec![' '];
        assert(sp@ =~= seq![' ']);
        ends_with_ext_chars(c.as_slice(), &self.ext, sp.as_slice())
    }

    /// Whether the text ends with one of the extensions and a space or a line feed.
    pub fn ends_with_vec_whitespace_or_newline(&self, current_buffer: &str) -> (r: bool)
        ensures
            r == (ends_with_ext(current_buffer@, self.exts(), seq![' ']) || ends_with_ext(
                current_buffer@,
                self.exts(),
                seq!['\n'],
            )),
    {
        let c = str_chars(current_buffer);
        let sp = vec![' '];
        let nl = vec!['\n'];
        assert(sp@ =~= seq![' ']);
        assert(nl@ =~= seq!['\n']);
        ends_with_ext_chars(c.as_slice(), &self.ext, sp.as_slice()) || ends_with_ext_chars(
            c.as_slice(),
            &self.ext,
            nl.as_slice(),
        )
    }
}

/// The tokenizer's state: the tokens so far, the current token, and whether a
/// quotation is open.
pub struct TokState {
    pub tokens: Seq<Seq<char>>,
    pub cur: Seq<char>,
    pub quoted: bool,
}

/// One character of the tokenizer. A quotation mark opens or closes a quotation, and
/// closing one ends a token. Outside a quotation a token also ends after an extension
/// followed by a space; inside one, the quoted text is kept as it stands.
pub open spec fn tok_step(exts: Seq<Seq<char>>, st: TokState, c: char) -> TokState {
    if c == '"' {
        if st.quoted {
            TokState { tokens: st.tokens.push(trim(st.cur)), cur: seq![], quoted: false }
        } else {
            TokState { tokens: st.tokens, cur: st.cur, quoted: true }
        }
    } else {
        let cur = st.cur.push(c);
        if !st.quoted && ends_with_ext(cur, exts, seq![' ']) {
            TokState { tokens: st.tokens.push(trim(cur)), cur: seq![], quoted: false }
        } else {
            TokState { tokens: st.tokens, cur, quoted: st.quoted }
        }
    }
}

pub open spec fn tok_fold(exts: Seq<Seq<char>>, cs: Seq<char>) -> TokState
    decreases cs.len(),
{
    if cs.len() == 0 {
        TokState { tokens: seq![], cur: seq![], quoted: false }
    } else {
        tok_step(exts, tok_fold(exts, cs.drop_last()), cs.last())
    }
}

proof fn lemma_tok_inside_quote(exts: Seq<Seq<char>>, p: Seq<char>, q: Seq<char>)
    requires
        tok_fold(exts, p).quoted,
        !q.contains('"'),
    ensures
        tok_fold(exts, p + q) == (TokState {
            tokens: tok_fold(exts, p).tokens,
            cur: tok_fold(exts, p).cur + q,
            quoted: true,
        }),
    decreases q.len(),
{
    let st = tok_fold(exts, p);
    if q.len() == 0 {
        assert(p + q =~= p);
        assert(st.cur + q =~= st.cur);
    } else {
        let d = q.drop_last();
        assert(!d.contains('"')) by {
            if d.contains('"') {
                let k = choose|k: int| 0 <= k < d.len() && d[k] == '"';
                assert(q[k] == '"');
            }
        }
        lemma_tok_inside_quote(exts, p, d);
        assert((p + q).drop_last() =~= p + d);
        assert((p + q).last() == q.last());
        assert(q.last() != '"') by {
            assert(q[q.len() - 1] == q.last());
        }
        assert((st.cur + d).push(q.last()) =~= st.cur + q);
    }
}

/// A quoted piece of text, with no quotation mark inside, is one token: what the
/// current token held before the opening mark and the quoted text, trimmed. The
/// quoted text is not split, whatever extensions and spaces it holds.
pub proof fn lemma_tok_quoted(exts: Seq<Seq<char>>, p: Seq<char>, q: Seq<char>)
    requires
        !tok_fold(exts, p).quoted,
        !q.contains('"'),
    ensures
        tok_fold(exts, p + seq!['"'] + q + seq!['"']) == (TokState {
            tokens: tok_fold(exts, p).tokens.push(trim(tok_fold(exts, p).cur + q)),
            cur: seq![],
            quoted: false,
        }),
{
    let st = tok_fold(exts, p);
    let po = p + seq!['"'];
    assert(po.drop_last() =~= p);
    assert(po.last() == '"');
    assert(tok_fold(exts, po) == (TokState { tokens: st.tokens, cur: st.cur, quoted: true }));
    lemma_tok_inside_quote(exts, po, q);
    let full = po + q + seq!['"'];
    assert(full.drop_last() =~= po + q);
    assert(full.last() == '"');
    assert(p + seq!['"'] + q + seq!['"'] =~= full);
}

proof fn lemma_tok_plain(exts: Seq<Seq<char>>, p: Seq<char>, w: Seq<char>)
    requires
        !tok_fold(exts, p).quoted,
        !w.contains('"'),
        forall|j: int|
            0 < j <= w.len() ==> !#[trigger] ends_with_ext(
                tok_fold(exts, p).cur + w.subrange(0, j),
                exts,
                seq![' '],
            ),
    ensures
        tok_fold(exts, p + w) == (TokState {
            tokens: tok_fold(exts, p).tokens,
            cur: tok_fold(exts, p).cur + w,
            quoted: false,
        }),
    decreases w.len(),
{
    let st = tok_fold(exts, p);
    if w.len() == 0 {
        assert(p + w =~= p);
        assert(st.cur + w =~= st.cur);
    } else {
        let d = w.drop_last();
        assert(!d.contains('"')) by {
            if d.contains('"') {
                let k = choose|k: int| 0 <= k < d.len() && d[k] == '"';
                assert(w[k] == '"');
            }
        }
        assert forall|j: int| 0 < j <= d.len() implies !#[trigger] ends_with_ext(
            st.cur + d.subrange(0, j),
            exts,
            seq![' '],
        ) by {
            assert(d.subrange(0, j) =~= w.subrange(0, j));
            assert(!ends_with_ext(st.cur + w.subrange(0, j), exts, seq![' ']));
        }
        lemma_tok_plain(exts, p, d);
        assert((p + w).drop_last() =~= p + d);
        assert((p + w).last() == w.last());
        assert(w.last() != '"') by {
            assert(w[w.len() - 1] == w.last());
        }
        assert((st.cur + d).push(w.last()) =~= st.cur + w);
        assert(w.subrange(0, w.len() as int) =~= w);
        assert(!ends_with_ext(st.cur + w.subrange(0, w.len() as int), exts, seq![' ']));
    }
}

/// Outside a quotation, text is one token up to the first place where it ends with
/// an extension and a space: there the token ends, trimmed, and a new one begins.
pub proof fn lemma_tok_split(exts: Seq<Seq<char>>, p: Seq<char>, w: Seq<char>)
    requires
        !tok_fold(exts, p).quoted,
        !w.contains('"'),
        w.len() > 0,
        forall|j: int|
            0 < j < w.len() ==> !#[trigger] ends_with_ext(
                tok_fold(exts, p).cur + w.subrange(0, j),
                exts,
                seq![' '],
            ),
        ends_with_ext(tok_fold(exts, p).cur + w, exts, seq![' ']),
    ensures
        tok_fold(exts, p + w) == (TokState {
            tokens: tok_fold(exts, p).tokens.push(trim(tok_fold(exts, p).cur + w)),
            cur: seq![],
            quoted: false,
        }),
{
    let st = tok_fold(exts, p);
    let d = w.drop_last();
    assert(!d.contains('"')) by {
        if d.contains('"') {
            let k = choose|k: int| 0 <= k < d.len() && d[k] == '"';
            assert(w[k] == '"');
        }
    }
    assert forall|j: int| 0 < j <= d.len() implies !#[trigger] ends_with_ext(
        st.cur + d.subrange(0, j),
        exts,
        seq![' '],
    ) by {
        assert(d.subrange(0, j) =~= w.subrange(0, j));
        assert(!ends_with_ext(st.cur + w.subrange(0, j), exts, seq![' ']));
    }
    lemma_tok_plain(exts, p, d);
    assert((p + w).drop_last() =~= p + d);
    assert((p + w).last() == w.last());
    assert(w.last() != '"') by {
        assert(w[w.len() - 1] == w.last());
    }
    assert((st.cur + d).push(w.last()) =~= st.cur + w);
}

/// The index of the first `c` in the text, or its length.
pub open spec fn first_index(s: Seq<char>, c: char) -> int
    decreases s.len(),
{
    if s.len() == 0 {
        0
    } else if s[0] == c {
        0
    } else {
        first_index(s.drop_first(), c) + 1
    }
}

/// The tokens of a line: what comes before a `;` (trimmed), split after each extension
/// that a space follows, or at quotation marks; each token trimmed.
pub open spec fn tokenize_spec(exts: Seq<Seq<char>>, line: Seq<char>) -> Seq<Seq<char>> {
    let l = if line.contains(';') {
        trim(line.subrange(0, first_index(line, ';')))
    } else {
        line
    };
    let st = tok_fold(exts, l);
    if st.cur.len() > 0 {
        st.tokens.push(trim(st.cur))
    } else {
        st.tokens
    }
}

proof fn lemma_first_index(s: Seq<char>, c: char)
    ensures
        0 <= first_index(s, c) <= s.len(),
        first_index(s, c) < s.len() ==> s[first_index(s, c)] == c,
        forall|k: int| 0 <= k < first_index(s, c) ==> s[k] != c,
        s.contains(c) ==> first_index(s, c) < s.len(),
    decreases s.len(),
{
    if s.len() > 0 && s[0] != c {
        lemma_first_index(s.drop_first(), c);
        assert forall|k: int| 0 <= k < first_index(s, c) implies s[k] != c by {
            if k > 0 {
                assert(s[k] == s.drop_first()[k - 1]);
            }
        }
        if s.contains(c) {
            let k = choose|k: int| 0 <= k < s.len() && s[k] == c;
            assert(s.drop_first()[k - 1] == c);
        }
    }
}

/// The text before the first `;`, and whether there is one.
fn before_semicolon(v: &Vec<char>) -> (r: (Vec<char>, bool))
    ensures
        r.1 == v@.contains(';'),
        r.1 ==> r.0@ == v@.subrange(0, first_index(v@, ';')),
{
    let mut i: usize = 0;
    while i < v.len()
        invariant
            0 <= i <= v@.len(),
            forall|k: int| 0 <= k < i ==> v@[k] != ';',
        decreases v@.len() - i,
    {
        if v[i] == ';' {
            proof {
                lemma_first_index(v@, ';');
                assert(v@.contains(';'));
            }
            let r = crate::text::slice_copy(v.as_slice(), 0, i);
            return (r, true);
        }
        i = i + 1;
    }
    proof {
        if v@.contains(';') {
            let k = choose|k: int| 0 <= k < v@.len() && v@[k] == ';';
        }
    }
    (Vec::new(), false)
}

impl Parser {
    /// Splits a line into tokens: each ends after an extension that a space follows,
    /// or is wrapped in quotation marks. What follows a `;` is ignored.
    pub fn tokenize(&self, line: String) -> (r: Vec<String>)
        ensures
            strings_view(r@) == tokenize_spec(self.exts(), line@),
    {
        let ghost exts = self.exts();
        let all = str_chars(line.as_str());
        let (before, found) = before_semicolon(&all);
        let l = if found {
            trim_chars(before.as_slice())
        } else {
            all
        };
        let ghost lv = l@;
        let mut tokens: Vec<String> = Vec::new();
        let mut is_quoted = false;
        let mut current_token: Vec<char> = Vec::new();
        let sp = vec![' '];
        assert(sp@ =~= seq![' ']);
        let mut i: usize = 0;
        assert(lv.subrange(0, 0) =~= Seq::<char>::empty());
        assert(strings_view(tokens@) =~= Seq::<Seq<char>>::empty());
        assert(current_token@ =~= Seq::<char>::empty());
        while i < l.len()
            invariant
                0 <= i <= l@.len(),
                lv == l@,
                exts == self.exts(),
                sp@ == seq![' '],
                tok_fold(exts, lv.subrange(0, i as int)) == (TokState {
                    tokens: strings_view(tokens@),
                    cur: current_token@,
                    quoted: is_quoted,
                }),
            decreases l@.len() - i,
        {
            let ghost pre = lv.subrange(0, i + 1);
            assert(pre.drop_last() =~= lv.subrange(0, i as int));
            let c = l[i];
            assert(pre.last() == c);
            let ghost tb = tokens@;
            if c == '"' {
                if is_quoted {
                    is_quoted = false;
                    let t = trim_chars(current_token.as_slice());
                    tokens.push(chars_to_string(t.as_slice()));
                    assert(strings_view(tokens@) =~= strings_view(tb).push(t@));
                    current_token = Vec::new();
                } else {
                    is_quoted = true;
                }
            } else {
                current_token.push(c);
                if !is_quoted && ends_with_ext_chars(current_token.as_slice(), &self.ext, sp.as_slice()) {
                    let t = trim_chars(current_token.as_slice());
                    tokens.push(chars_to_string(t.as_slice()));
                    assert(strings_view(tokens@) =~= strings_view(tb).push(t@));
                    current_token = Vec::new();
                }
            }
            i = i + 1;
            assert(current_token@ =~= tok_fold(exts, lv.subrange(0, i as int)).cur);
        }
        assert(lv.subrange(0, l@.len() as int) =~= lv);
        if current_token.len() > 0 {
            let ghost tb = tokens@;
            let t = trim_chars(current_token.as_slice());
            tokens.push(chars_to_string(t.as_slice()));
            assert(strings_view(tokens@) =~= strings_view(tb).push(t@));
        }
        tokens
    }
}

////////////////////////////////////////////////////////////////////////
// THE PARTS OF [DESC], [SIZE] AND [VER]
////////////////////////////////////////////////////////////////////////

/// Whether the characters start with the text.
fn starts_with_lit(s: &[char], lit: &str) -> (r: bool)
    ensures
        r == starts_with(s@, lit@),
{
    let p = str_chars(lit);
    crate::text::starts_with_chars(s, p.as_slice())
}

fn last_char_index_exec(s: &[char], c: char) -> (r: Option<usize>)
    ensures
        match r {
            Some(i) => i as int == last_char_index(s@, c),
            None => last_char_index(s@, c) == -1,
        },
{
    let mut i: usize = s.len();
    assert(s@.subrange(0, i as int) =~= s@);
    while i > 0
        invariant
            0 <= i <= s@.len(),
            last_char_index(s@, c) == last_char_index(s@.subrange(0, i as int), c),
        decreases i,
    {
        assert(s@.subrange(0, i as int).drop_last() =~= s@.subrange(0, i - 1));
        if s[i - 1] == c {
            return Some(i - 1);
        }
        i = i - 1;
    }
    None
}

fn first_ws_index_exec(s: &[char]) -> (r: usize)
    ensures
        r as int == first_ws_index(s@),
{
    let mut i: usize = 0;
    assert(s@.subrange(0, s@.len() as int) =~= s@);
    while i < s.len()
        invariant
            0 <= i <= s@.len(),
            first_ws_index(s@) == i + first_ws_index(s@.subrange(i as int, s@.len() as int)),
        decreases s@.len() - i,
    {
        assert(s@.subrange(i as int, s@.len() as int).drop_first() =~= s@.subrange(i + 1, s@.len() as int));
        if crate::text::is_ws_char(s[i]) {
            return i;
        }
        i = i + 1;
    }
    i
}

pub open spec fn desc_view(r: Option<(String, String, bool)>) -> Option<(Seq<char>, Seq<char>, bool)> {
    match r {
        Some(p) => Some((p.0@, p.1@, p.2)),
        None => None,
    }
}

/// Reads the parts of a `[DESC` body: `/regex/ plugin` or `!/regex/ plugin` give the
/// plugin, the regular expression and whether it is negated.
pub fn parse_desc(input: &str) -> (r: Option<(String, String, bool)>)
    ensures
        desc_view(r) == desc_parts(input@),
{
    let c = str_chars(input);
    let (neg, start): (bool, usize) = if starts_with_lit(c.as_slice(), "!/") {
        (true, 2)
    } else if starts_with_lit(c.as_slice(), "/") {
        (false, 1)
    } else {
        return None;
    };
    proof {
        reveal_strlit("!/");
        reveal_strlit("/");
    }
    let inner = crate::text::slice_copy(c.as_slice(), start, c.len());
    match last_char_index_exec(inner.as_slice(), '/') {
        Some(e) => {
            proof {
                crate::syntax::lemma_last_char_index(inner@, '/');
            }
            let right = crate::text::slice_copy(inner.as_slice(), e + 1, inner.len());
            let left = crate::text::slice_copy(inner.as_slice(), 0, e);
            let rt = trim_chars(right.as_slice());
            let lt = trim_chars(left.as_slice());
            Some((chars_to_string(rt.as_slice()), chars_to_string(lt.as_slice()), neg))
        },
        None => None,
    }
}

pub open spec fn size_view(r: Option<(String, u64, bool)>) -> SizeParts {
    match r {
        Some(p) => SizeParts::Parts(p.0@, p.1, p.2),
        None => SizeParts::NoMatch,
    }
}

/// Reads the parts of a `[SIZE` body: `### plugin` or `!### plugin` give the plugin,
/// the size and whether it is negated.
pub fn parse_size(input: &str) -> (r: Option<(String, u64, bool)>)
    ensures
        size_view(r) == size_parts(input@),
{
    proof {
        reveal_strlit("!");
    }
    let c = str_chars(input);
    let neg = starts_with_lit(c.as_slice(), "!");
    let inp = if neg {
        crate::text::slice_copy(c.as_slice(), 1, c.len())
    } else {
        c
    };
    assert(neg ==> inp@ =~= input@.drop_first());
    let t = crate::text::trim_start_chars(inp.as_slice());
    if t.len() == 0 {
        return None;
    }
    let w_len = first_ws_index_exec(t.as_slice());
    proof {
        crate::syntax::lemma_first_ws_index(t@);
    }
    let w = crate::text::slice_copy(t.as_slice(), 0, w_len);
    match crate::text::parse_u64_chars(w.as_slice()) {
        None => None,
        Some(size) => {
            if w_len == t.len() {
                let right: Vec<char> = Vec::new();
                assert(right@ =~= Seq::<char>::empty());
                return Some((chars_to_string(right.as_slice()), size, neg));
            }
            let right = crate::text::slice_copy(t.as_slice(), w_len + 1, t.len());
            assert(right@ =~= t@.subrange(w_len as int, t@.len() as int).drop_first());
            Some((chars_to_string(right.as_slice()), size, neg))
        },
    }
}

pub open spec fn ver_view(r: Option<(String, EVerOperator, String)>) -> Option<
    (Seq<char>, EVerOperator, Seq<char>),
> {
    match r {
        Some(p) => Some((p.0@, p.1, p.2@)),
        None => None,
    }
}

/// Reads the parts of a `[VER` body: `<`, `=` or `>`, a version and the plugin give
/// the plugin, the operator and the version, read leniently and written in full.
pub fn parse_ver(input: &str) -> (r: Option<(String, EVerOperator, String)>)
    ensures
        ver_view(r) == ver_parts(input@),
{
    proof {
        reveal_strlit("<");
        reveal_strlit(">");
        reveal_strlit("=");
    }
    let c = str_chars(input);
    let op = if starts_with_lit(c.as_slice(), "<") {
        EVerOperator::Less
    } else if starts_with_lit(c.as_slice(), ">") {
        EVerOperator::Greater
    } else if starts_with_lit(c.as_slice(), "=") {
        EVerOperator::Equal
    } else {
        return None;
    };
    let rest = crate::text::slice_copy(c.as_slice(), 1, c.len());
    assert(rest@ =~= input@.drop_first());
    let t = crate::text::trim_start_chars(rest.as_slice());
    if t.len() == 0 {
        return None;
    }
    let w_len = first_ws_index_exec(t.as_slice());
    proof {
        crate::syntax::lemma_first_ws_index(t@);
    }
    let w = crate::text::slice_copy(t.as_slice(), 0, w_len);
    let ws = chars_to_string(w.as_slice());
    match crate::versions::lenient_version_text(ws.as_str()) {
        Some(v) => {
            let right = crate::text::slice_copy(t.as_slice(), w_len, t.len());
            Some((chars_to_string(right.as_slice()), op, v))
        },
        None => None,
    }
}

////////////////////////////////////////////////////////////////////////
// EXPRESSIONS
////////////////////////////////////////////////////////////////////////

pub open spec fn pieces_view(v: Seq<(Vec<char>, bool)>) -> Seq<(Seq<char>, bool)> {
    v.map_values(|p: (Vec<char>, bool)| (p.0@, p.1))
}

/// Whether the text starts with `arg` and a space or a tab.
pub fn starts_with_whitespace(current_buffer: &[char], arg: &str) -> (r: bool)
    ensures
        r == starts_with_ws(current_buffer@, arg@),
{
    let mut a = str_chars(arg);
    let mut b = str_chars(arg);
    let ghost av = a@;
    a.push(' ');
    b.push('\t');
    assert(a@ =~= av + seq![' ']);
    assert(b@ =~= av + seq!['\t']);
    crate::text::starts_with_chars(current_buffer, a.as_slice())
        || crate::text::starts_with_chars(current_buffer, b.as_slice())
}

fn is_expr_start_exec(t: &[char]) -> (r: bool)
    ensures
        r == is_expr_start(t@),
{
    starts_with_whitespace(t, "[any") || starts_with_whitespace(t, "[all") || starts_with_whitespace(
        t,
        "[not",
    ) || starts_with_whitespace(t, "[desc") || starts_with_whitespace(t, "[size")
        || starts_with_whitespace(t, "[ver")
}

fn clean_pieces(pieces: Vec<(Vec<char>, bool)>) -> (r: Vec<(Vec<char>, bool)>)
    ensures
        pieces_view(r@) == clean_chunks(pieces_view(pieces@)),
{
    let ghost pv = pieces_view(pieces@);
    let mut out: Vec<(Vec<char>, bool)> = Vec::new();
    let mut k: usize = 0;
    while k < pieces.len()
        invariant
            0 <= k <= pieces@.len(),
            pv == pieces_view(pieces@),
            pieces_view(out@) == clean_chunks(pv.subrange(0, k as int)),
        decreases pieces@.len() - k,
    {
        let ghost pre = pv.subrange(0, k + 1);
        assert(pre.drop_last() =~= pv.subrange(0, k as int));
        assert(pre.last() == (pieces@[k as int].0@, pieces@[k as int].1));
        let t = trim_chars(pieces[k].0.as_slice());
        if t.len() > 0 {
            let ghost before = out@;
            out.push((t, pieces[k].1));
            assert(pieces_view(out@) =~= pieces_view(before).push((t@, pieces@[k as int].1)));
        }
        k = k + 1;
    }
    assert(pv.subrange(0, pieces@.len() as int) =~= pv);
    out
}

impl Parser {
    /// Splits the bytes of a body into its expressions and tokens.
    fn split_pieces(&self, bytes: &[u8]) -> (r: Vec<(Vec<char>, bool)>)
        ensures
            pieces_view(r@) == chunks_of(self.exts(), latin1(bytes@)),
    {
        let ghost exts = self.exts();
        let ghost cs = latin1(bytes@);
        let sp = vec![' '];
        let nl = vec!['\n'];
        assert(sp@ =~= seq![' ']);
        assert(nl@ =~= seq!['\n']);
        let mut chunks: Vec<(Vec<char>, bool)> = Vec::new();
        let mut buf: Vec<char> = Vec::new();
        let mut is_expr = false;
        let mut is_token = false;
        let mut depth: usize = 0;
        let mut i: usize = 0;
        assert(cs.subrange(0, 0) =~= Seq::<char>::empty());
        assert(pieces_view(chunks@) =~= Seq::<(Seq<char>, bool)>::empty());
        assert(buf@ =~= Seq::<char>::empty());
        while i < bytes.len()
            invariant
                0 <= i <= bytes@.len(),
                exts == self.exts(),
                cs == latin1(bytes@),
                sp@ == seq![' '],
                nl@ == seq!['\n'],
                depth <= i,
                is_expr ==> depth >= 1,
                chunk_fold(exts, cs.subrange(0, i as int)) == (ChunkState {
                    chunks: pieces_view(chunks@),
                    buf: buf@,
                    is_expr,
                    is_token,
                    depth: depth as int,
                }),
            decreases bytes@.len() - i,
        {
            let ghost pre = cs.subrange(0, i + 1);
            assert(pre.drop_last() =~= cs.subrange(0, i as int));
            let c = bytes[i] as char;
            assert(pre.last() == c);
            let ghost before = chunks@;
            if is_expr {
                if c == '[' {
                    depth = depth + 1;
                } else if c == ']' {
                    depth = depth - 1;
                }
                buf.push(c);
                if depth == 0 {
                    let t = trim_chars(buf.as_slice());
                    if is_expr_start_exec(t.as_slice()) {
                        is_expr = false;
                        chunks.push((t, true));
                        assert(pieces_view(chunks@) =~= pieces_view(before).push((t@, true)));
                        buf = Vec::new();
                    } else {
                        is_expr = false;
                        is_token = true;
                    }
                }
            } else if is_token {
                buf.push(c);
                if ends_with_ext_chars(buf.as_slice(), &self.ext, sp.as_slice()) || ends_with_ext_chars(
                    buf.as_slice(),
                    &self.ext,
                    nl.as_slice(),
                ) {
                    is_token = false;
                    let piece = crate::text::slice_copy(buf.as_slice(), 0, buf.len() - 1);
                    assert(piece@ =~= buf@.drop_last());
                    chunks.push((piece, false));
                    assert(pieces_view(chunks@) =~= pieces_view(before).push((piece@, false)));
                    buf = Vec::new();
                }
            } else {
                if c == '[' {
                    is_expr = true;
                    depth = depth + 1;
                } else if !crate::text::is_ascii_ws_char(c) {
                    is_token = true;
                }
                buf.push(c);
            }
            i = i + 1;
            assert(buf@ =~= chunk_fold(exts, cs.subrange(0, i as int)).buf);
        }
        assert(cs.subrange(0, bytes@.len() as int) =~= cs);
        if buf.len() > 0 {
            let ghost before = chunks@;
            chunks.push((buf, is_expr));
            assert(pieces_view(chunks@) =~= pieces_view(before).push((chunk_fold(exts, cs).buf, is_expr)));
        }
        clean_pieces(chunks)
    }
}

pub open spec fn list_out(r: Result<Vec<Expression>, ParseError>) -> POut<Seq<ExprV>> {
    match r {
        Ok(v) => POut::Done(exprs_view(v@)),
        Err(e) => POut::Failed(e),
    }
}

pub open spec fn expr_out(r: Result<Expression, ParseError>) -> POut<ExprV> {
    match r {
        Ok(e) => POut::Done(expr_view(e)),
        Err(x) => POut::Failed(x),
    }
}

impl Parser {
    /// Parses all expressions of a body, given as bytes: its pieces are parsed in order
    /// and the first error is returned.
    pub fn parse_expressions(&self, reader: &[u8]) -> (r: Result<Vec<Expression>, ParseError>)
        ensures
            list_out(r) == parse_exprs(self.exts(), latin1(reader@)),
        decreases brackets(latin1(reader@)), 3nat,
    {
        proof {
            crate::syntax::lemma_exprs_done(self.exts(), latin1(reader@));
        }
        let ghost exts = self.exts();
        let ghost cs = latin1(reader@);
        let ghost bound = brackets(cs);
        let pieces = self.split_pieces(reader);
        let ghost pv = pieces_view(pieces@);
        proof {
            crate::syntax::lemma_chunks_within(exts, cs);
            assert(pv.subrange(0, 0) =~= Seq::<(Seq<char>, bool)>::empty());
        }
        let mut expressions: Vec<Expression> = Vec::new();
        let mut k: usize = 0;
        while k < pieces.len()
            invariant
                0 <= k <= pieces@.len(),
                exts == self.exts(),
                cs == latin1(reader@),
                bound == brackets(cs),
                pv == pieces_view(pieces@),
                pv == chunks_of(exts, cs),
                crate::syntax::chunks_within(pv, bound),
                !(parse_chunk_list(exts, pv, bound) is Stuck),
                parse_chunk_list(exts, pv.subrange(0, k as int), bound) == POut::Done(
                    exprs_view(expressions@),
                ),
            decreases pieces@.len() - k,
        {
            let ghost pre = pv.subrange(0, k + 1);
            assert(pre.drop_last() =~= pv.subrange(0, k as int));
            assert(pre.last() == pv[k as int]);
            assert(pv[k as int] == (pieces@[k as int].0@, pieces@[k as int].1));
            assert(brackets(pv[k as int].0) <= bound);
            proof {
                crate::syntax::lemma_chunk_list_prefix(exts, pv, bound, k + 1);
            }
            let text = chars_to_string(pieces[k].0.as_slice());
            match self.parse_expression(text.as_str(), pieces[k].1) {
                Ok(e) => {
                    let ghost before = expressions@;
                    expressions.push(e);
                    assert(exprs_view(expressions@).drop_last() =~= exprs_view(before)) by {
                        assert(expressions@.subrange(0, expressions@.len() - 1) =~= before);
                    }
                    assert(exprs_view(expressions@) =~= exprs_view(before).push(expr_view(e)));
                },
                Err(x) => {
                    return Err(x);
                },
            }
            k = k + 1;
        }
        assert(pv.subrange(0, pieces@.len() as int) =~= pv);
        Ok(expressions)
    }

    /// Parses one piece: a token must end with an extension and becomes an atomic
    /// expression; an expression is read by its kind.
    pub fn parse_expression(&self, reader: &str, is_expression: bool) -> (r: Result<
        Expression,
        ParseError,
    >)
        ensures
            expr_out(r) == parse_expr(self.exts(), reader@, is_expression),
        decreases brackets(reader@), 1nat,
    {
        proof {
            crate::syntax::lemma_expr_done(self.exts(), reader@, is_expression);
        }
        if !is_expression {
            if !self.ends_with_vec(reader) {
                return Err(ParseError::NotAnAtomic);
            }
            return Ok(Expression::Atomic(Atomic::from(reader)));
        }
        let c = str_chars(reader);
        if !starts_with_lit(c.as_slice(), "[") {
            Err(ParseError::NotAnExpression)
        } else if starts_with_lit(c.as_slice(), "[any") || starts_with_lit(c.as_slice(), "[all")
            || starts_with_lit(c.as_slice(), "[not") {
            self.parse_group_expression(reader)
        } else if starts_with_lit(c.as_slice(), "[desc") {
            self.parse_desc_expression(reader)
        } else if starts_with_lit(c.as_slice(), "[size") {
            self.parse_size_expression(reader)
        } else if starts_with_lit(c.as_slice(), "[ver") {
            self.parse_ver_expression(reader)
        } else {
            Err(ParseError::UnknownExpression)
        }
    }

    /// The body of an expression after its first `k` characters, without the last
    /// character, trimmed at the start.
    fn expression_body(reader: &str, k: usize) -> (r: Vec<char>)
        requires
            !body_cut_fails(reader@, k as int),
        ensures
            r@ == trim_start(expr_body(reader@, k as int)),
    {
        let c = str_chars(reader);
        let body = crate::text::slice_copy(c.as_slice(), k, c.len() - 1);
        crate::text::trim_start_chars(body.as_slice())
    }

    fn parse_group_expression(&self, reader: &str) -> (r: Result<Expression, ParseError>)
        requires
            !(parse_group(self.exts(), reader@) is Stuck),
        ensures
            expr_out(r) == parse_group(self.exts(), reader@),
        decreases brackets(reader@), 0nat,
    {
        let c0 = str_chars(reader);
        if !starts_with_lit(c0.as_slice(), "[") {
            return Err(ParseError::NotAnExpression);
        }
        if c0.len() <= 4 {
            return Err(ParseError::UnknownExpression);
        }
        let ghost s = reader@;
        proof {
            crate::syntax::lemma_inner_brackets(s, 4);
        }
        let t = Self::expression_body(reader, 4);
        let text = chars_to_string(t.as_slice());
        let bytes = text.as_str().as_bytes();
        assert(latin1(bytes@) == inner_text(s, 4));
        let mut expressions = match self.parse_expressions(bytes) {
            Ok(v) => v,
            Err(x) => {
                return Err(x);
            },
        };
        let c = str_chars(reader);
        if starts_with_lit(c.as_slice(), "[any") {
            Ok(Expression::ANY(ANY::new(expressions)))
        } else if starts_with_lit(c.as_slice(), "[all") {
            Ok(Expression::ALL(ALL::new(expressions)))
        } else {
            proof {
                lemma_exprs_view(expressions@);
            }
            let ghost before = expressions@;
            match expressions.pop() {
                Some(last) => {
                    assert(last == before.last());
                    Ok(Expression::NOT(NOT::new(last)))
                },
                None => Err(ParseError::UnknownExpression),
            }
        }
    }

    fn parse_desc_expression(&self, reader: &str) -> (r: Result<Expression, ParseError>)
        requires
            !(parse_desc_expr(self.exts(), reader@) is Stuck),
        ensures
            expr_out(r) == parse_desc_expr(self.exts(), reader@),
        decreases brackets(reader@), 0nat,
    {
        let c0 = str_chars(reader);
        if !starts_with_lit(c0.as_slice(), "[") {
            return Err(ParseError::NotAnExpression);
        }
        if c0.len() <= 5 {
            return Err(ParseError::UnknownExpression);
        }
        let ghost s = reader@;
        proof {
            crate::syntax::lemma_inner_brackets(s, 5);
        }
        let t = Self::expression_body(reader, 5);
        let text = chars_to_string(t.as_slice());
        proof {
            crate::syntax::lemma_parts_brackets(t@);
        }
        match parse_desc(text.as_str()) {
            None => Err(ParseError::UnknownExpression),
            Some((expr, regex, negated)) => {
                proof {
                    crate::syntax::lemma_reencode_brackets(expr@);
                }
                match self.single_child(
                    expr.as_str(),
                    ParseError::DescChildCount,
                    ParseError::DescChildAtomic,
                ) {
                    Ok(atomic) => Ok(Expression::DESC(DESC::new(atomic, regex, negated))),
                    Err(x) => Err(x),
                }
            },
        }
    }

    fn parse_size_expression(&self, reader: &str) -> (r: Result<Expression, ParseError>)
        requires
            !(parse_size_expr(self.exts(), reader@) is Stuck),
        ensures
            expr_out(r) == parse_size_expr(self.exts(), reader@),
        decreases brackets(reader@), 0nat,
    {
        let c0 = str_chars(reader);
        if !starts_with_lit(c0.as_slice(), "[") {
            return Err(ParseError::NotAnExpression);
        }
        if c0.len() <= 5 {
            return Err(ParseError::UnknownExpression);
        }
        let ghost s = reader@;
        proof {
            crate::syntax::lemma_inner_brackets(s, 5);
        }
        let t = Self::expression_body(reader, 5);
        let text = chars_to_string(t.as_slice());
        proof {
            crate::syntax::lemma_parts_brackets(t@);
        }
        match parse_size(text.as_str()) {
            None => Err(ParseError::UnknownExpression),
            Some((expr, size, negated)) => {
                proof {
                    crate::syntax::lemma_reencode_brackets(expr@);
                }
                match self.single_child(
                    expr.as_str(),
                    ParseError::SizeChildCount,
                    ParseError::SizeChildAtomic,
                ) {
                    Ok(atomic) => Ok(Expression::SIZE(SIZE::new(atomic, size, negated))),
                    Err(x) => Err(x),
                }
            },
        }
    }

    fn parse_ver_expression(&self, reader: &str) -> (r: Result<Expression, ParseError>)
        requires
            !(parse_ver_expr(self.exts(), reader@) is Stuck),
        ensures
            expr_out(r) == parse_ver_expr(self.exts(), reader@),
        decreases brackets(reader@), 0nat,
    {
        let c0 = str_chars(reader);
        if !starts_with_lit(c0.as_slice(), "[") {
            return Err(ParseError::NotAnExpression);
        }
        if c0.len() <= 4 {
            return Err(ParseError::UnknownExpression);
        }
        let ghost s = reader@;
        proof {
            crate::syntax::lemma_inner_brackets(s, 4);
        }
        let t = Self::expression_body(reader, 4);
        let text = chars_to_string(t.as_slice());
        proof {
            crate::syntax::lemma_parts_brackets(t@);
        }
        match parse_ver(text.as_str()) {
            None => Err(ParseError::UnknownExpression),
            Some((expr, operator, version)) => {
                proof {
                    crate::syntax::lemma_reencode_brackets(expr@);
                }
                match self.single_child(
                    expr.as_str(),
                    ParseError::VerChildCount,
                    ParseError::VerChildAtomic,
                ) {
                    Ok(atomic) => Ok(Expression::VER(VER::new(atomic, operator, version))),
                    Err(x) => Err(x),
                }
            },
        }
    }

    /// Parses the child of `[DESC`, `[SIZE` or `[VER`: exactly one atomic expression.
    fn single_child(&self, expr: &str, count_err: ParseError, atomic_err: ParseError) -> (r: Result<
        Atomic,
        ParseError,
    >)
        requires
            !(single_atomic(parse_exprs(self.exts(), reencode(expr@)), count_err, atomic_err) is Stuck),
        ensures
            match single_atomic(parse_exprs(self.exts(), reencode(expr@)), count_err, atomic_err) {
                POut::Done(item) => r matches Ok(a) && a.item@ == item,
                POut::Failed(x) => r == Err::<Atomic, ParseError>(x),
                POut::Stuck => false,
            },
        decreases brackets(reencode(expr@)), 4nat,
    {
        let bytes = expr.as_bytes();
        let expressions = match self.parse_expressions(bytes) {
            Ok(v) => v,
            Err(x) => {
                return Err(x);
            },
        };
        proof {
            lemma_exprs_view(expressions@);
        }
        if expressions.len() != 1 {
            return Err(count_err);
        }
        match &expressions[0] {
            Expression::Atomic(a) => Ok(a.clone()),
            _ => Err(atomic_err),
        }
    }
}

////////////////////////////////////////////////////////////////////////
// RULE BODIES
////////////////////////////////////////////////////////////////////////

/// The kind of a rule, with its comment for the warning rules.
pub open spec fn kind_of(r: ERule) -> RuleKind {
    match r {
        ERule::EOrderRule(EOrderRule::Order(_)) => RuleKind::Order,
        ERule::EOrderRule(EOrderRule::NearStart(_)) => RuleKind::NearStart,
        ERule::EOrderRule(EOrderRule::NearEnd(_)) => RuleKind::NearEnd,
        ERule::EWarningRule(EWarningRule::Note(n)) => RuleKind::Note(n.comment@),
        ERule::EWarningRule(EWarningRule::Conflict(n)) => RuleKind::Conflict(n.comment@),
        ERule::EWarningRule(EWarningRule::Requires(n)) => RuleKind::Requires(n.comment@),
        ERule::EWarningRule(EWarningRule::Patch(n)) => RuleKind::Patch(n.comment@),
    }
}

/// The plugins a rule recorded, none for the order rules.
pub open spec fn rule_plugins(r: ERule) -> Seq<Seq<char>> {
    match r {
        ERule::EWarningRule(w) => w.recorded(),
        _ => seq![],
    }
}

/// A rule's body is parsed for its kind.
pub trait TParser: Sized {
    spec fn kind(&self) -> RuleKind;

    spec fn as_rule(&self) -> RuleV;

    spec fn recorded_plugins(&self) -> Seq<Seq<char>>;

    /// Parses the body of the rule into it.
    fn parse(rule: &mut Self, body: &str, parser: &Parser) -> (r: Result<(), ParseError>)
        ensures
            match body_rule(parser.exts(), old(rule).kind(), body@) {
                POut::Done(v) => r is Ok && final(rule).as_rule() == v,
                POut::Failed(x) => r == Err::<(), ParseError>(x),
                POut::Stuck => false,
            },
            final(rule).recorded_plugins() == old(rule).recorded_plugins(),
    ;
}

/// The tokens of each line of a body.
fn body_tokens(body: &str, parser: &Parser) -> (r: Vec<String>)
    ensures
        strings_view(r@) == line_tokens(parser.exts(), lines(body@)),
{
    let c = str_chars(body);
    let ls = crate::text::split_lines(c.as_slice());
    let ghost lv = ls@.map_values(|l: Vec<char>| l@);
    let mut names: Vec<String> = Vec::new();
    let mut k: usize = 0;
    assert(lv.subrange(0, 0) =~= Seq::<Seq<char>>::empty());
    assert(strings_view(names@) =~= Seq::<Seq<char>>::empty());
    while k < ls.len()
        invariant
            0 <= k <= ls@.len(),
            lv == ls@.map_values(|l: Vec<char>| l@),
            strings_view(names@) == line_tokens(parser.exts(), lv.subrange(0, k as int)),
        decreases ls@.len() - k,
    {
        let ghost pre = lv.subrange(0, k + 1);
        assert(pre.drop_last() =~= lv.subrange(0, k as int));
        assert(pre.last() == ls@[k as int]@);
        let line = chars_to_string(ls[k].as_slice());
        let mut tokens = parser.tokenize(line);
        let ghost before = names@;
        let ghost added = tokens@;
        names.append(&mut tokens);
        assert(strings_view(names@) =~= strings_view(before) + strings_view(added));
        k = k + 1;
    }
    assert(lv.subrange(0, ls@.len() as int) =~= lv);
    names
}

/// Parses the expressions of a body given as text.
fn body_expressions(body: &str, parser: &Parser) -> (r: Result<Vec<Expression>, ParseError>)
    ensures
        list_out(r) == parse_exprs(parser.exts(), reencode(body@)),
{
    proof {
        crate::syntax::lemma_exprs_done(parser.exts(), reencode(body@));
    }
    parser.parse_expressions(body.as_bytes())
}

impl TParser for Order {
    open spec fn kind(&self) -> RuleKind {
        RuleKind::Order
    }

    open spec fn as_rule(&self) -> RuleV {
        RuleV::Order(strings_view(self.names@))
    }

    open spec fn recorded_plugins(&self) -> Seq<Seq<char>> {
        seq![]
    }

    fn parse(rule: &mut Self, body: &str, parser: &Parser) -> (r: Result<(), ParseError>) {
        rule.names = body_tokens(body, parser);
        Ok(())
    }
}

impl TParser for NearStart {
    open spec fn kind(&self) -> RuleKind {
        RuleKind::NearStart
    }

    open spec fn as_rule(&self) -> RuleV {
        RuleV::NearStart(strings_view(self.names@))
    }

    open spec fn recorded_plugins(&self) -> Seq<Seq<char>> {
        seq![]
    }

    fn parse(rule: &mut Self, body: &str, parser: &Parser) -> (r: Result<(), ParseError>) {
        rule.names = body_tokens(body, parser);
        Ok(())
    }
}

impl TParser for NearEnd {
    open spec fn kind(&self) -> RuleKind {
        RuleKind::NearEnd
    }

    open spec fn as_rule(&self) -> RuleV {
        RuleV::NearEnd(strings_view(self.names@))
    }

    open spec fn recorded_plugins(&self) -> Seq<Seq<char>> {
        seq![]
    }

    fn parse(rule: &mut Self, body: &str, parser: &Parser) -> (r: Result<(), ParseError>) {
        rule.names = body_tokens(body, parser);
        Ok(())
    }
}

impl TParser for Note {
    open spec fn kind(&self) -> RuleKind {
        RuleKind::Note(self.comment@)
    }

    open spec fn as_rule(&self) -> RuleV {
        RuleV::Note(self.comment@, exprs_view(self.expressions@))
    }

    open spec fn recorded_plugins(&self) -> Seq<Seq<char>> {
        strings_view(self.plugins@)
    }

    /// A note takes all expressions of its body.
    fn parse(rule: &mut Self, body: &str, parser: &Parser) -> (r: Result<(), ParseError>) {
        match body_expressions(body, parser) {
            Ok(es) => {
                rule.expressions = es;
                Ok(())
            },
            Err(x) => Err(x),
        }
    }
}

impl TParser for Conflict {
    open spec fn kind(&self) -> RuleKind {
        RuleKind::Conflict(self.comment@)
    }

    open spec fn as_rule(&self) -> RuleV {
        RuleV::Conflict(self.comment@, exprs_view(self.expressions@))
    }

    open spec fn recorded_plugins(&self) -> Seq<Seq<char>> {
        strings_view(self.plugins@)
    }

    /// A conflict takes all expressions of its body; it needs at least one.
    fn parse(rule: &mut Self, body: &str, parser: &Parser) -> (r: Result<(), ParseError>) {
        match body_expressions(body, parser) {
            Ok(es) => {
                proof {
                    lemma_exprs_view(es@);
                }
                if es.len() < 2 {
                    return Err(ParseError::MalformedConflict);
                }
                rule.expressions = es;
                Ok(())
            },
            Err(x) => Err(x),
        }
    }
}

/// The two expressions of a [Requires] or [Patch] body.
fn two_expressions(es: Vec<Expression>) -> (r: (Expression, Expression))
    requires
        es@.len() == 2,
    ensures
        expr_view(r.0) == exprs_view(es@)[0],
        expr_view(r.1) == exprs_view(es@)[1],
{
    proof {
        lemma_exprs_view(es@);
    }
    let ghost v = es@;
    let mut es = es;
    let b = es.pop().unwrap();
    let a = es.pop().unwrap();
    assert(a == v[0] && b == v[1]);
    (a, b)
}

impl TParser for Requires {
    open spec fn kind(&self) -> RuleKind {
        RuleKind::Requires(self.comment@)
    }

    open spec fn as_rule(&self) -> RuleV {
        RuleV::Requires(
            self.comment@,
            crate::syntax::opt_expr_view(self.expression_a),
            crate::syntax::opt_expr_view(self.expression_b),
        )
    }

    open spec fn recorded_plugins(&self) -> Seq<Seq<char>> {
        strings_view(self.plugins@)
    }

    /// A requirement takes exactly two expressions: A requires B.
    fn parse(rule: &mut Self, body: &str, parser: &Parser) -> (r: Result<(), ParseError>) {
        match body_expressions(body, parser) {
            Ok(es) => {
                proof {
                    lemma_exprs_view(es@);
                }
                if es.len() != 2 {
                    return Err(ParseError::MalformedRequires);
                }
                let (a, b) = two_expressions(es);
                rule.expression_a = Some(a);
                rule.expression_b = Some(b);
                Ok(())
            },
            Err(x) => Err(x),
        }
    }
}

impl TParser for Patch {
    open spec fn kind(&self) -> RuleKind {
        RuleKind::Patch(self.comment@)
    }

    open spec fn as_rule(&self) -> RuleV {
        RuleV::Patch(
            self.comment@,
            crate::syntax::opt_expr_view(self.expression_a),
            crate::syntax::opt_expr_view(self.expression_b),
        )
    }

    open spec fn recorded_plugins(&self) -> Seq<Seq<char>> {
        strings_view(self.plugins@)
    }

    /// A patch takes exactly two expressions: the patch and what it patches.
    fn parse(rule: &mut Self, body: &str, parser: &Parser) -> (r: Result<(), ParseError>) {
        match body_expressions(body, parser) {
            Ok(es) => {
                proof {
                    lemma_exprs_view(es@);
                }
                if es.len() != 2 {
                    return Err(ParseError::MalformedPatch);
                }
                let (a, b) = two_expressions(es);
                rule.expression_a = Some(a);
                rule.expression_b = Some(b);
                Ok(())
            },
            Err(x) => Err(x),
        }
    }
}

impl TParser for ERule {
    open spec fn kind(&self) -> RuleKind {
        kind_of(*self)
    }

    open spec fn as_rule(&self) -> RuleV {
        rule_view(*self)
    }

    open spec fn recorded_plugins(&self) -> Seq<Seq<char>> {
        rule_plugins(*self)
    }

    fn parse(rule: &mut Self, body: &str, parser: &Parser) -> (r: Result<(), ParseError>) {
        match rule {
            ERule::EOrderRule(EOrderRule::Order(x)) => Order::parse(x, body, parser),
            ERule::EOrderRule(EOrderRule::NearStart(x)) => NearStart::parse(x, body, parser),
            ERule::EOrderRule(EOrderRule::NearEnd(x)) => NearEnd::parse(x, body, parser),
            ERule::EWarningRule(EWarningRule::Note(x)) => Note::parse(x, body, parser),
            ERule::EWarningRule(EWarningRule::Conflict(x)) => Conflict::parse(x, body, parser),
            ERule::EWarningRule(EWarningRule::Requires(x)) => Requires::parse(x, body, parser),
            ERule::EWarningRule(EWarningRule::Patch(x)) => Patch::parse(x, body, parser),
        }
    }
}

////////////////////////////////////////////////////////////////////////
// RULE HEADS AND CHUNKS
////////////////////////////////////////////////////////////////////////

fn close_index(s: &[char]) -> (r: Option<usize>)
    ensures
        match r {
            Some(i) => i as int == close_from(s@, 0, 1),
            None => close_from(s@, 0, 1) == -1,
        },
{
    let mut scope: u128 = 1;
    let mut i: usize = 0;
    while i < s.len()
        invariant
            0 <= i <= s@.len(),
            1 <= scope <= i + 1,
            close_from(s@, 0, 1) == close_from(s@, i as int, scope as int),
        decreases s@.len() - i,
    {
        if s[i] == '[' {
            scope = scope + 1;
        } else if s[i] == ']' {
            scope = scope - 1;
            if scope == 0 {
                return Some(i);
            }
        }
        i = i + 1;
    }
    None
}

fn has_ws_chars(s: &[char]) -> (r: bool)
    ensures
        r == has_ws(s@),
{
    let mut i: usize = 0;
    while i < s.len()
        invariant
            0 <= i <= s@.len(),
            forall|k: int| 0 <= k < i ==> !is_ws(#[trigger] s@[k]),
        decreases s@.len() - i,
    {
        if crate::text::is_ws_char(s[i]) {
            assert(is_ws(s@[i as int]));
            return true;
        }
        i = i + 1;
    }
    false
}

fn first_index_exec(s: &[char], c: char) -> (r: usize)
    ensures
        r as int == first_index(s@, c),
{
    let mut i: usize = 0;
    assert(s@.subrange(0, s@.len() as int) =~= s@);
    while i < s.len()
        invariant
            0 <= i <= s@.len(),
            first_index(s@, c) == i + first_index(s@.subrange(i as int, s@.len() as int), c),
        decreases s@.len() - i,
    {
        assert(s@.subrange(i as int, s@.len() as int).drop_first() =~= s@.subrange(i + 1, s@.len() as int));
        if s[i] == c {
            return i;
        }
        i = i + 1;
    }
    i
}

pub open spec fn head_view(r: Result<(String, ERuleType, String), ParseError>) -> Option<
    (Seq<char>, ERuleType, Seq<char>),
> {
    match r {
        Ok(t) => Some((t.0@, t.1, t.2@)),
        Err(_) => None,
    }
}

/// Reads the head of a rule after its `[`: the rule expression up to the `]` that
/// closes it (trimmed, with the `]`), how the rule is written, and its body. A head
/// with a comment is inline; one without is inline when something follows it on its
/// line, and multiline when nothing does.
pub fn parse_rule_expression(input: &str) -> (r: Result<(String, ERuleType, String), ParseError>)
    ensures
        head_view(r) == rule_head(input@),
        r is Err ==> r == Err::<(String, ERuleType, String), ParseError>(ParseError::UnclosedRule),
{
    let s = str_chars(input);
    let ci = match close_index(s.as_slice()) {
        Some(i) => i,
        None => {
            return Err(ParseError::UnclosedRule);
        },
    };
    proof {
        crate::syntax::lemma_close_from(s@, 0, 1);
    }
    let n = s.len();
    assert(ci < n);
    let buf = crate::text::slice_copy(s.as_slice(), 0, ci + 1);
    let re = trim_chars(buf.as_slice());
    let rest = crate::text::slice_copy(s.as_slice(), ci + 1, s.len());
    if has_ws_chars(re.as_slice()) {
        return Ok((chars_to_string(re.as_slice()), ERuleType::Inline, chars_to_string(rest.as_slice())));
    }
    let e = first_index_exec(rest.as_slice(), '\n');
    proof {
        lemma_first_index(rest@, '\n');
    }
    let upto = if e < rest.len() {
        e + 1
    } else {
        rest.len()
    };
    let line = crate::text::slice_copy(rest.as_slice(), 0, upto);
    let t = trim_chars(line.as_slice());
    if t.len() == 0 {
        let after = crate::text::slice_copy(rest.as_slice(), upto, rest.len());
        Ok((chars_to_string(re.as_slice()), ERuleType::Multiline, chars_to_string(after.as_slice())))
    } else {
        Ok((chars_to_string(re.as_slice()), ERuleType::Inline, chars_to_string(rest.as_slice())))
    }
}

/// A rule of the kind that the name gives, with the comment of its head and no body.
fn new_rule(name: &[char]) -> (r: Option<ERule>)
    ensures
        match rule_kind(name@) {
            Some(k) => r matches Some(x) && kind_of(x) == k && rule_plugins(x).len() == 0,
            None => r is None,
        },
{
    proof {
        reveal_strlit("order");
        reveal_strlit("nearstart");
        reveal_strlit("nearend");
        reveal_strlit("note");
        reveal_strlit("conflict");
        reveal_strlit("requires");
        reveal_strlit("patch");
    }
    if starts_with_lit(name, "order") {
        Some(ERule::EOrderRule(EOrderRule::Order(Order::new(Vec::new()))))
    } else if starts_with_lit(name, "nearstart") {
        Some(ERule::EOrderRule(EOrderRule::NearStart(NearStart::new(Vec::new()))))
    } else if starts_with_lit(name, "nearend") {
        Some(ERule::EOrderRule(EOrderRule::NearEnd(NearEnd::new(Vec::new()))))
    } else {
        let (k, tag): (usize, u8) = if starts_with_lit(name, "note") {
            (4, 0)
        } else if starts_with_lit(name, "conflict") {
            (8, 1)
        } else if starts_with_lit(name, "requires") {
            (8, 2)
        } else if starts_with_lit(name, "patch") {
            (5, 3)
        } else {
            return None;
        };
        let rest = crate::text::slice_copy(name, k, name.len());
        let t = trim_chars(rest.as_slice());
        let comment = chars_to_string(t.as_slice());
        let empty: Vec<String> = Vec::new();
        assert(strings_view(empty@) =~= Seq::<Seq<char>>::empty());
        let rule = if tag == 0 {
            EWarningRule::Note(Note { comment, expressions: Vec::new(), plugins: empty })
        } else if tag == 1 {
            EWarningRule::Conflict(Conflict { comment, expressions: Vec::new(), plugins: empty })
        } else if tag == 2 {
            EWarningRule::Requires(
                Requires { comment, expression_a: None, expression_b: None, plugins: empty },
            )
        } else {
            EWarningRule::Patch(Patch { comment, expression_a: None, expression_b: None, plugins: empty })
        };
        Some(ERule::EWarningRule(rule))
    }
}

/// The comment and the body of a multiline rule's lines.
fn multiline_body(text: &str) -> (r: (Option<String>, String))
    ensures
        opt_text(r.0) == body_fold(nonblank_lines(lines(text@))).found,
        r.1@ == body_fold(nonblank_lines(lines(text@))).body,
{
    let c = str_chars(text);
    let ls = crate::text::split_lines(c.as_slice());
    let ghost lv = ls@.map_values(|l: Vec<char>| l@);
    let ghost pred = |l: Seq<char>| trim(l).len() > 0;
    let mut first = true;
    let mut comment: Vec<char> = Vec::new();
    let mut found: Option<Vec<char>> = None;
    let mut body: Vec<char> = Vec::new();
    let mut k: usize = 0;
    proof {
        reveal_with_fuel(Seq::<_>::filter, 1);
        assert(lv.subrange(0, 0) =~= Seq::<Seq<char>>::empty());
        assert(lv.subrange(0, 0).filter(pred) =~= Seq::<Seq<char>>::empty());
    }
    assert(comment@ =~= Seq::<char>::empty());
    assert(body@ =~= Seq::<char>::empty());
    while k < ls.len()
        invariant
            0 <= k <= ls@.len(),
            lv == ls@.map_values(|l: Vec<char>| l@),
            pred == (|l: Seq<char>| trim(l).len() > 0),
            body_fold(lv.subrange(0, k as int).filter(pred)) == (BodyState {
                first,
                comment: comment@,
                found: match found {
                    Some(f) => Some(f@),
                    None => None,
                },
                body: body@,
            }),
        decreases ls@.len() - k,
    {
        let ghost pre = lv.subrange(0, k + 1);
        proof {
            reveal_with_fuel(Seq::<_>::filter, 1);
            assert(pre.drop_last() =~= lv.subrange(0, k as int));
            assert(pre.last() == ls@[k as int]@);
        }
        let line = &ls[k];
        let t = trim_chars(line.as_slice());
        let ghost st = body_fold(lv.subrange(0, k as int).filter(pred));
        let ghost nst = crate::syntax::body_step(st, line@);
        let ghost b0 = body@;
        let ghost c0 = comment@;
        if t.len() > 0 {
            assert(pre.filter(pred) == lv.subrange(0, k as int).filter(pred).push(line@));
            assert(pre.filter(pred).drop_last() =~= lv.subrange(0, k as int).filter(pred));
            assert(body_fold(pre.filter(pred)) == nst);
            if first && line.len() > 0 && crate::text::is_ascii_ws_char(line[0]) {
                let mut l = line.clone();
                assert(l@ == line@);
                comment.append(&mut l);
                assert(comment@ =~= c0 + line@);
            } else if first {
                first = false;
                if comment.len() > 0 {
                    found = Some(trim_chars(comment.as_slice()));
                }
                comment = Vec::new();
                let mut l = line.clone();
                assert(l@ == line@);
                body.append(&mut l);
                body.push('\n');
                assert(body@ =~= b0 + line@ + seq!['\n']);
                assert(comment@ =~= Seq::<char>::empty());
            } else {
                let mut l = line.clone();
                assert(l@ == line@);
                body.append(&mut l);
                body.push('\n');
                assert(body@ =~= b0 + line@ + seq!['\n']);
            }
        } else {
            assert(pre.filter(pred) == lv.subrange(0, k as int).filter(pred));
        }
        k = k + 1;
    }
    assert(lv.subrange(0, ls@.len() as int) =~= lv);
    let f = match found {
        Some(v) => Some(chars_to_string(v.as_slice())),
        None => None,
    };
    (f, chars_to_string(body.as_slice()))
}

pub open spec fn opt_text(o: Option<String>) -> Option<Seq<char>> {
    match o {
        Some(s) => Some(s@),
        None => None,
    }
}

pub open spec fn rule_out(r: Result<ERule, ParseError>) -> POut<RuleV> {
    match r {
        Ok(x) => POut::Done(rule_view(x)),
        Err(e) => POut::Failed(e),
    }
}

impl Parser {
    /// Parses one chunk of a rules file: a rule's head and its body.
    fn parse_chunk(&self, chunk: &str) -> (r: Result<ERule, ParseError>)
        requires
            !(chunk_rule(self.exts(), chunk@) is Stuck),
        ensures
            rule_out(r) == chunk_rule(self.exts(), chunk@),
            r matches Ok(x) ==> rule_plugins(x).len() == 0,
    {
        let c = str_chars(chunk);
        if c.len() == 0 || c[0] != '[' {
            return Err(ParseError::NotARuleStart);
        }
        let rest = crate::text::slice_copy(c.as_slice(), 1, c.len());
        assert(rest@ =~= chunk@.drop_first());
        let rest_text = chars_to_string(rest.as_slice());
        let (re, ty, body) = match parse_rule_expression(rest_text.as_str()) {
            Ok(h) => h,
            Err(_) => {
                return Err(ParseError::UnknownRule);
            },
        };
        let rc = str_chars(re.as_str());
        let name = if rc.len() > 0 {
            crate::text::slice_copy(rc.as_slice(), 0, rc.len() - 1)
        } else {
            Vec::new()
        };
        assert(name@ =~= crate::syntax::pop_last(re@));
        let mut rule = match new_rule(name.as_slice()) {
            Some(x) => x,
            None => {
                return Err(ParseError::UnknownRule);
            },
        };
        match ty {
            ERuleType::Inline => {
                let res = ERule::parse(&mut rule, body.as_str(), self);
                match res {
                    Ok(()) => Ok(rule),
                    Err(x) => Err(x),
                }
            },
            ERuleType::Multiline => {
                let (found, text) = multiline_body(body.as_str());
                let ghost k0 = kind_of(rule);
                match found {
                    Some(comment) => {
                        if let ERule::EWarningRule(w) = &mut rule {
                            w.set_comment(comment);
                        }
                    },
                    None => {},
                }
                let bc = str_chars(text.as_str());
                let bt = trim_chars(bc.as_slice());
                let body_text = chars_to_string(bt.as_slice());
                let res = ERule::parse(&mut rule, body_text.as_str(), self);
                match res {
                    Ok(()) => Ok(rule),
                    Err(x) => Err(x),
                }
            },
        }
    }
}

////////////////////////////////////////////////////////////////////////
// RULES FILES
////////////////////////////////////////////////////////////////////////

/// A line of a rules file as the chunks take it.
fn prepare_line(line: &[char]) -> (r: Option<Vec<char>>)
    ensures
        match r {
            Some(l) => prep_line(line@) == Some(l@),
            None => prep_line(line@) is None,
        },
{
    let t = crate::text::trim_start_chars(line);
    if starts_with_lit(t.as_slice(), ";") {
        return None;
    }
    let text = chars_to_string(line);
    let lower = crate::text::to_lowercase(text.as_str());
    let l = str_chars(lower.as_str());
    let (before, found) = before_semicolon(&l);
    let l2 = if found {
        crate::text::trim_end_chars(before.as_slice())
    } else {
        crate::text::trim_end_chars(l.as_slice())
    };
    let t2 = trim_chars(l2.as_slice());
    if t2.len() == 0 {
        None
    } else {
        Some(l2)
    }
}

fn is_rule_start_exec(l: &[char]) -> (r: bool)
    ensures
        r == is_rule_start(l@),
{
    starts_with_lit(l, "[order") || starts_with_lit(l, "[nearstart") || starts_with_lit(l, "[nearend")
        || starts_with_lit(l, "[note") || starts_with_lit(l, "[conflict") || starts_with_lit(
        l,
        "[requires",
    ) || starts_with_lit(l, "[patch")
}

/// A chunk of a rules file: the text of one rule, and the number of its first line.
struct ChunkWrapper {
    data: Vec<char>,
    info: String,
}

impl ChunkWrapper {
    fn new(data: Vec<char>, info: String) -> (r: Self)
        ensures
            r.data == data,
            r.info == info,
    {
        Self { data, info }
    }
}

spec fn chunk_texts(v: Seq<ChunkWrapper>) -> Seq<Seq<char>> {
    v.map_values(|c: ChunkWrapper| c.data@)
}

/// Splits a rules file into chunks, one per rule.
fn file_chunk_list(text: &str) -> (r: Vec<ChunkWrapper>)
    ensures
        chunk_texts(r@) == file_chunks(text@),
{
    let c = str_chars(text);
    let ls = crate::text::split_lines(c.as_slice());
    let ghost lv = ls@.map_values(|l: Vec<char>| l@);
    let mut chunks: Vec<ChunkWrapper> = Vec::new();
    let mut chunk: Option<ChunkWrapper> = None;
    let mut idx: usize = 0;
    assert(lv.subrange(0, 0) =~= Seq::<Seq<char>>::empty());
    assert(chunk_texts(chunks@) =~= Seq::<Seq<char>>::empty());
    while idx < ls.len()
        invariant
            0 <= idx <= ls@.len(),
            lv == ls@.map_values(|l: Vec<char>| l@),
            file_fold(lv.subrange(0, idx as int)) == (
                chunk_texts(chunks@),
                match chunk {
                    Some(cw) => Some(cw.data@),
                    None => None,
                },
            ),
        decreases ls@.len() - idx,
    {
        let ghost pre = lv.subrange(0, idx + 1);
        assert(pre.drop_last() =~= lv.subrange(0, idx as int));
        assert(pre.last() == ls@[idx as int]@);
        match prepare_line(ls[idx].as_slice()) {
            None => {},
            Some(l) => {
                let ghost before = chunks@;
                if chunk.is_some() && is_rule_start_exec(l.as_slice()) {
                    let done = chunk.unwrap();
                    chunks.push(done);
                    assert(chunk_texts(chunks@) =~= chunk_texts(before).push(done.data@));
                    chunk = None;
                }
                let mut delimited = l;
                delimited.push('\n');
                match chunk {
                    Some(mut cw) => {
                        let ghost d0 = cw.data@;
                        cw.data.append(&mut delimited);
                        assert(cw.data@ =~= d0 + l@ + seq!['\n']);
                        chunk = Some(cw);
                    },
                    None => {
                        assert(delimited@ =~= l@ + seq!['\n']);
                        chunk = Some(ChunkWrapper::new(delimited, crate::text::decimal_string((idx + 1) as u64)));
                    },
                }
            },
        }
        idx = idx + 1;
    }
    assert(lv.subrange(0, ls@.len() as int) =~= lv);
    match chunk {
        Some(cw) => {
            let ghost before = chunks@;
            let ghost d = cw.data@;
            chunks.push(cw);
            assert(chunk_texts(chunks@) =~= chunk_texts(before).push(d));
        },
        None => {},
    }
    chunks
}

pub open spec fn rules_view(v: Seq<ERule>) -> Seq<RuleV> {
    v.map_values(|r: ERule| rule_view(r))
}

impl Parser {
    /// Parses the rules of a rules file: the file is split into one chunk per rule, and
    /// the chunks that do not parse are skipped.
    pub fn parse_rules_from_reader(&self, reader: &str) -> (r: Result<Vec<ERule>, ParseError>)
        ensures
            r matches Ok(v) && rules_view(v@) == chunk_rules(self.exts(), file_chunks(reader@))
                && forall|k: int| 0 <= k < v@.len() ==> rule_plugins(#[trigger] v@[k]).len() == 0,
    {
        let ghost exts = self.exts();
        proof {
            crate::syntax::lemma_chunks_ok(exts, file_chunks(reader@));
        }
        let chunks = file_chunk_list(reader);
        let ghost cv = chunk_texts(chunks@);
        let mut rules: Vec<ERule> = Vec::new();
        let mut idx: usize = 0;
        assert(cv.subrange(0, 0) =~= Seq::<Seq<char>>::empty());
        assert(rules_view(rules@) =~= Seq::<RuleV>::empty());
        while idx < chunks.len()
            invariant
                0 <= idx <= chunks@.len(),
                exts == self.exts(),
                cv == chunk_texts(chunks@),
                cv == file_chunks(reader@),
                chunks_ok(exts, cv),
                rules_view(rules@) == chunk_rules(exts, cv.subrange(0, idx as int)),
                forall|k: int| 0 <= k < rules@.len() ==> rule_plugins(#[trigger] rules@[k]).len() == 0,
            decreases chunks@.len() - idx,
        {
            let ghost pre = cv.subrange(0, idx + 1);
            assert(pre.drop_last() =~= cv.subrange(0, idx as int));
            assert(pre.last() == cv[idx as int]);
            assert(cv[idx as int] == chunks@[idx as int].data@);
            let text = chars_to_string(chunks[idx].data.as_slice());
            match self.parse_chunk(text.as_str()) {
                Ok(rule) => {
                    let ghost before = rules@;
                    rules.push(rule);
                    assert(rules_view(rules@) =~= rules_view(before).push(rule_view(rule)));
                },
                Err(_) => {},
            }
            idx = idx + 1;
        }
        assert(cv.subrange(0, chunks@.len() as int) =~= cv);
        Ok(rules)
    }
}

////////////////////////////////////////////////////////////////////////
// THE PARSER'S RULES
////////////////////////////////////////////////////////////////////////

pub open spec fn order_rules_view(v: Seq<EOrderRule>) -> Seq<RuleV> {
    v.map_values(|o: EOrderRule| rule_view(ERule::EOrderRule(o)))
}

pub open spec fn warning_rules_view(v: Seq<EWarningRule>) -> Seq<RuleV> {
    v.map_values(|w: EWarningRule| rule_view(ERule::EWarningRule(w)))
}

pub open spec fn is_order_rule(r: RuleV) -> bool {
    r is Order || r is NearStart || r is NearEnd
}

/// The order rules among the rules, in order.
pub open spec fn order_part(rs: Seq<RuleV>) -> Seq<RuleV> {
    rs.filter(|r: RuleV| is_order_rule(r))
}

/// The warning rules among the rules, in order.
pub open spec fn warning_part(rs: Seq<RuleV>) -> Seq<RuleV> {
    rs.filter(|r: RuleV| !is_order_rule(r))
}

/// The rules of a rules file, as the parser reads them.
pub open spec fn file_rules(exts: Seq<Seq<char>>, text: Seq<char>) -> Seq<RuleV> {
    chunk_rules(exts, file_chunks(text))
}

/// The rules files of a game, in the order they are read.
pub open spec fn rules_files(game: ESupportedGame) -> Seq<Seq<char>> {
    match game {
        ESupportedGame::Morrowind | ESupportedGame::OpenMW => seq![
            "mlox_base.txt"@,
            "mlox_user.txt"@,
            "mlox_my_rules.txt"@,
        ],
        ESupportedGame::Cyberpunk => seq!["plox_base.txt"@, "plox_my_rules.txt"@],
    }
}

/// The names of the rules files of a game, in the order they are read.
pub fn rules_file_names(game: ESupportedGame) -> (r: Vec<String>)
    ensures
        strings_view(r@) == rules_files(game),
{
    let r = match game {
        ESupportedGame::Morrowind | ESupportedGame::OpenMW => vec![
            String::from_str("mlox_base.txt"),
            String::from_str("mlox_user.txt"),
            String::from_str("mlox_my_rules.txt"),
        ],
        ESupportedGame::Cyberpunk => vec![
            String::from_str("plox_base.txt"),
            String::from_str("plox_my_rules.txt"),
        ],
    };
    assert(strings_view(r@) =~= rules_files(game));
    r
}

/// The rules of the files, one after the other.
pub open spec fn files_rules(exts: Seq<Seq<char>>, texts: Seq<Seq<char>>) -> Seq<RuleV>
    decreases texts.len(),
{
    if texts.len() == 0 {
        seq![]
    } else {
        files_rules(exts, texts.drop_last()) + file_rules(exts, texts.last())
    }
}

/// No chunk of any of the files is longer than the text it came from.
pub open spec fn files_ok(exts: Seq<Seq<char>>, texts: Seq<Seq<char>>) -> bool {
    forall|k: int| 0 <= k < texts.len() ==> chunks_ok(exts, file_chunks(#[trigger] texts[k]))
}

impl Parser {
    /// Parses a rules file and adds its order rules and its warning rules to the
    /// parser's.
    pub fn init_from_file(&mut self, contents: &str) -> (r: Result<(), ParseError>)
        ensures
            r is Ok,
            final(self).game == old(self).game,
            final(self).ext == old(self).ext,
            final(self).warnings == old(self).warnings,
            order_rules_view(final(self).order_rules@) == order_rules_view(old(self).order_rules@)
                + order_part(file_rules(old(self).exts(), contents@)),
            warning_rules_view(final(self).warning_rules@) == warning_rules_view(
                old(self).warning_rules@,
            ) + warning_part(file_rules(old(self).exts(), contents@)),
            final(self).warning_rules@.len() >= old(self).warning_rules@.len(),
            forall|k: int|
                0 <= k < old(self).warning_rules@.len() ==> #[trigger] final(self).warning_rules@[k]
                    == old(self).warning_rules@[k],
            forall|k: int|
                old(self).warning_rules@.len() <= k < final(self).warning_rules@.len() ==> (
                #[trigger] final(self).warning_rules@[k]).recorded().len() == 0,
    {
        let ghost exts = self.exts();
        let ghost w_old = self.warning_rules@;
        let rules = match self.parse_rules_from_reader(contents) {
            Ok(v) => v,
            Err(x) => {
                return Err(x);
            },
        };
        let ghost rv = rules_view(rules@);
        let ghost o0 = order_rules_view(self.order_rules@);
        let ghost w0 = warning_rules_view(self.warning_rules@);
        let ghost po = |r: RuleV| is_order_rule(r);
        let ghost pw = |r: RuleV| !is_order_rule(r);
        let mut rules = rules;
        proof {
            reveal_with_fuel(Seq::<_>::filter, 1);
            assert(rv.subrange(0, 0) =~= Seq::<RuleV>::empty());
        }
        let n = rules.len();
        let mut k: usize = 0;
        while k < n
            invariant
                0 <= k <= n,
                n == rv.len(),
                rules@.len() == n - k,
                forall|m: int| 0 <= m < n - k ==> rule_view(#[trigger] rules@[m]) == rv[k + m],
                exts == self.exts(),
                self.game == old(self).game,
                self.ext == old(self).ext,
                self.warnings == old(self).warnings,
                po == (|r: RuleV| is_order_rule(r)),
                pw == (|r: RuleV| !is_order_rule(r)),
                order_rules_view(self.order_rules@) == o0 + rv.subrange(0, k as int).filter(po),
                warning_rules_view(self.warning_rules@) == w0 + rv.subrange(0, k as int).filter(pw),
                forall|m: int| 0 <= m < n - k ==> rule_plugins(#[trigger] rules@[m]).len() == 0,
                w_old == old(self).warning_rules@,
                self.warning_rules@.len() >= w_old.len(),
                forall|m: int| 0 <= m < w_old.len() ==> #[trigger] self.warning_rules@[m] == w_old[m],
                forall|m: int|
                    w_old.len() <= m < self.warning_rules@.len() ==> (
                    #[trigger] self.warning_rules@[m]).recorded().len() == 0,
            decreases n - k,
        {
            let ghost pre = rv.subrange(0, k + 1);
            proof {
                reveal_with_fuel(Seq::<_>::filter, 1);
                assert(pre.drop_last() =~= rv.subrange(0, k as int));
                assert(pre.last() == rv[k as int]);
            }
            let ghost rb = rules@;
            let r = rules.remove(0);
            assert(rule_view(r) == rv[k as int]);
            assert forall|m: int| 0 <= m < n - (k + 1) implies rule_view(#[trigger] rules@[m]) == rv[k
                + 1 + m] by {
                assert(rules@[m] == rb[m + 1]);
            }
            assert(rule_plugins(r).len() == 0) by {
                assert(rule_plugins(rb[0]).len() == 0);
            }
            assert forall|m: int| 0 <= m < n - (k + 1) implies rule_plugins(#[trigger] rules@[m]).len()
                == 0 by {
                assert(rules@[m] == rb[m + 1]);
                assert(rule_plugins(rb[m + 1]).len() == 0);
            }
            let ghost ob = self.order_rules@;
            let ghost wb = self.warning_rules@;
            match r {
                ERule::EOrderRule(o) => {
                    self.order_rules.push(o);
                    assert(order_rules_view(self.order_rules@) =~= order_rules_view(ob).push(
                        rv[k as int],
                    ));
                },
                ERule::EWarningRule(w) => {
                    self.warning_rules.push(w);
                    assert(warning_rules_view(self.warning_rules@) =~= warning_rules_view(wb).push(
                        rv[k as int],
                    ));
                },
            }
            k = k + 1;
        }
        assert(rv.subrange(0, n as int) =~= rv);
        Ok(())
    }
}

impl Parser {
    /// Clears the parser's rules and reads the rules files of its game, given by their
    /// contents in the order of [rules_file_names]; a file that is not there is left out.
    pub fn init(&mut self, texts: &[String]) -> (r: Result<(), ParseError>)
        ensures
            r is Ok,
            final(self).game == old(self).game,
            final(self).ext == old(self).ext,
            final(self).warnings == old(self).warnings,
            order_rules_view(final(self).order_rules@) == order_part(
                files_rules(old(self).exts(), strings_view(texts@)),
            ),
            warning_rules_view(final(self).warning_rules@) == warning_part(
                files_rules(old(self).exts(), strings_view(texts@)),
            ),
            forall|k: int|
                0 <= k < final(self).warning_rules@.len() ==> (
                #[trigger] final(self).warning_rules@[k]).recorded().len() == 0,
    {
        let ghost exts = self.exts();
        let ghost tv = strings_view(texts@);
        assert(files_ok(exts, tv)) by {
            assert forall|k: int| 0 <= k < tv.len() implies chunks_ok(
                exts,
                file_chunks(#[trigger] tv[k]),
            ) by {
                crate::syntax::lemma_chunks_ok(exts, file_chunks(tv[k]));
            }
        }
        self.warning_rules.clear();
        self.order_rules.clear();
        let mut k: usize = 0;
        proof {
            reveal_with_fuel(Seq::<_>::filter, 1);
            assert(tv.subrange(0, 0) =~= Seq::<Seq<char>>::empty());
            assert(order_rules_view(self.order_rules@) =~= Seq::<RuleV>::empty());
            assert(warning_rules_view(self.warning_rules@) =~= Seq::<RuleV>::empty());
        }
        while k < texts.len()
            invariant
                0 <= k <= texts@.len(),
                exts == self.exts(),
                tv == strings_view(texts@),
                files_ok(exts, tv),
                self.game == old(self).game,
                self.ext == old(self).ext,
                self.warnings == old(self).warnings,
                order_rules_view(self.order_rules@) == order_part(
                    files_rules(exts, tv.subrange(0, k as int)),
                ),
                warning_rules_view(self.warning_rules@) == warning_part(
                    files_rules(exts, tv.subrange(0, k as int)),
                ),
                forall|j: int|
                    0 <= j < self.warning_rules@.len() ==> (
                    #[trigger] self.warning_rules@[j]).recorded().len() == 0,
            decreases texts@.len() - k,
        {
            let ghost pre = tv.subrange(0, k + 1);
            assert(pre.drop_last() =~= tv.subrange(0, k as int));
            assert(pre.last() == texts@[k as int]@);
            assert(chunks_ok(exts, file_chunks(tv[k as int])));
            let ghost before = files_rules(exts, tv.subrange(0, k as int));
            let ghost added = file_rules(exts, texts@[k as int]@);
            match self.init_from_file(texts[k].as_str()) {
                Ok(()) => {},
                Err(x) => {
                    return Err(x);
                },
            }
            proof {
                let po = |r: RuleV| is_order_rule(r);
                let pw = |r: RuleV| !is_order_rule(r);
                Seq::filter_distributes_over_add(before, added, po);
                Seq::filter_distributes_over_add(before, added, pw);
            }
            k = k + 1;
        }
        assert(tv.subrange(0, texts@.len() as int) =~= tv);
        Ok(())
    }
}

////////////////////////////////////////////////////////////////////////
// EVALUATION
////////////////////////////////////////////////////////////////////////

/// A plugin with its name in lowercase.
pub open spec fn lower_plugin(p: PluginView) -> PluginView {
    PluginView {
        name: lowercase(p.name),
        size: p.size,
        description: p.description,
        version: p.version,
        masters: p.masters,
    }
}

pub open spec fn lower_plugins(ps: Seq<PluginView>) -> Seq<PluginView> {
    ps.map_values(|p: PluginView| lower_plugin(p))
}

/// The indices of the rules that hold, in order.
pub open spec fn held(rules: Seq<EWarningRule>, items: Seq<PluginView>) -> Seq<int>
    decreases rules.len(),
{
    if rules.len() == 0 {
        seq![]
    } else {
        let h = held(rules.drop_last(), items);
        if rules.last().holds(items) {
            h.push(rules.len() - 1)
        } else {
            h
        }
    }
}

/// The plugins with their names in lowercase.
pub fn lowercase_plugins(plugins: &[PluginData]) -> (r: Vec<PluginData>)
    ensures
        plugins_view(r@) == lower_plugins(plugins_view(plugins@)),
{
    let ghost pv = plugins_view(plugins@);
    let mut out: Vec<PluginData> = Vec::new();
    let mut i: usize = 0;
    while i < plugins.len()
        invariant
            0 <= i <= plugins@.len(),
            pv == plugins_view(plugins@),
            plugins_view(out@) == lower_plugins(pv.subrange(0, i as int)),
        decreases plugins@.len() - i,
    {
        let mut x = plugins[i].clone();
        let name_lc = crate::text::to_lowercase(x.name.as_str());
        x.name = name_lc;
        let ghost before = out@;
        out.push(x);
        assert(pv[i as int] == plugins@[i as int]@);
        assert(plugins_view(out@) =~= plugins_view(before).push(lower_plugin(pv[i as int])));
        assert(lower_plugins(pv.subrange(0, i + 1)) =~= lower_plugins(pv.subrange(0, i as int)).push(
            lower_plugin(pv[i as int]),
        ));
        i = i + 1;
    }
    assert(pv.subrange(0, plugins@.len() as int) =~= pv);
    out
}

/// What evaluating the warning rules against the plugins does to the parser: the rules
/// record the plugins that make them hold, and the warnings are the rules that hold.
pub open spec fn evaluated(before: Parser, after: Parser, items: Seq<PluginView>) -> bool {
    &&& after.game == before.game
    &&& after.ext == before.ext
    &&& after.order_rules == before.order_rules
    &&& after.warning_rules@.len() == before.warning_rules@.len()
    &&& forall|k: int|
        0 <= k < before.warning_rules@.len() ==> {
            &&& (#[trigger] after.warning_rules@[k]).recorded() == before.warning_rules@[k].found(
                items,
            )
            &&& after.warning_rules@[k].comment_view() == before.warning_rules@[k].comment_view()
            &&& after.warning_rules@[k].same_body(&before.warning_rules@[k])
        }
    &&& after.warnings@.len() == held(before.warning_rules@, items).len()
    &&& forall|j: int|
        0 <= j < after.warnings@.len() ==> crate::rules::same_warning(
            (#[trigger] after.warnings@[j]).rule,
            after.warning_rules@[held(before.warning_rules@, items)[j]],
        )
}

impl Parser {
    /// Evaluates the warning rules where every `[VER` among them compares against a
    /// version that `semver` reads, and then gives `true`; else it leaves the parser as
    /// it is and gives `false`.
    pub fn try_evaluate_plugins(&mut self, plugins: &[PluginData]) -> (r: bool)
        ensures
            r == (forall|k: int|
                0 <= k < old(self).warning_rules@.len() ==> crate::rules::rule_wf(
                    #[trigger] old(self).warning_rules@[k],
                )),
            r ==> evaluated(*old(self), *final(self), lower_plugins(plugins_view(plugins@))),
            !r ==> *final(self) == *old(self),
    {
        let mut k: usize = 0;
        while k < self.warning_rules.len()
            invariant
                0 <= k <= self.warning_rules@.len(),
                forall|m: int| 0 <= m < k ==> crate::rules::rule_wf(#[trigger] self.warning_rules@[m]),
            decreases self.warning_rules@.len() - k,
        {
            if !crate::rules::rule_wf_exec(&self.warning_rules[k]) {
                return false;
            }
            k = k + 1;
        }
        proof {
            assert forall|m: int| 0 <= m < self.warning_rules@.len() implies (#[trigger] self.warning_rules@[m]).eval_ok(
                lower_plugins(plugins_view(plugins@)),
            ) by {
                crate::rules::lemma_rule_wf_ok(self.warning_rules@[m], lower_plugins(plugins_view(plugins@)));
            }
        }
        self.evaluate_plugins(plugins);
        true
    }
}

impl Parser {
    /// Evaluates all warning rules against the plugins (by their lowercase names), and
    /// keeps a copy of each rule that holds in [Parser::warnings].
    pub fn evaluate_plugins(&mut self, plugins: &[PluginData])
        requires
            forall|k: int|
                0 <= k < old(self).warning_rules@.len() ==> (#[trigger] old(
                    self,
                ).warning_rules@[k]).eval_ok(lower_plugins(plugins_view(plugins@))),
        ensures
            final(self).game == old(self).game,
            final(self).ext == old(self).ext,
            final(self).order_rules == old(self).order_rules,
            final(self).warning_rules@.len() == old(self).warning_rules@.len(),
            forall|k: int|
                0 <= k < old(self).warning_rules@.len() ==> {
                    let items = lower_plugins(plugins_view(plugins@));
                    &&& (#[trigger] final(self).warning_rules@[k]).recorded() == old(
                        self,
                    ).warning_rules@[k].found(items)
                    &&& final(self).warning_rules@[k].comment_view() == old(
                        self,
                    ).warning_rules@[k].comment_view()
                    &&& final(self).warning_rules@[k].same_body(&old(self).warning_rules@[k])
                },
            final(self).warnings@.len() == held(
                old(self).warning_rules@,
                lower_plugins(plugins_view(plugins@)),
            ).len(),
            forall|j: int|
                0 <= j < final(self).warnings@.len() ==> crate::rules::same_warning(
                    (#[trigger] final(self).warnings@[j]).rule,
                    final(self).warning_rules@[held(
                        old(self).warning_rules@,
                        lower_plugins(plugins_view(plugins@)),
                    )[j]],
                ),
    {
        let mods_cpy = lowercase_plugins(plugins);
        let ghost items = plugins_view(mods_cpy@);
        let ghost w0 = self.warning_rules@;
        let mut result: Vec<Warning> = Vec::new();
        let mut i: usize = 0;
        while i < self.warning_rules.len()
            invariant
                0 <= i <= self.warning_rules@.len(),
                self.warning_rules@.len() == w0.len(),
                w0 == old(self).warning_rules@,
                items == lower_plugins(plugins_view(plugins@)),
                items == plugins_view(mods_cpy@),
                self.game == old(self).game,
                self.ext == old(self).ext,
                self.order_rules == old(self).order_rules,
                forall|k: int| 0 <= k < w0.len() ==> (#[trigger] w0[k]).eval_ok(items),
                forall|k: int| i <= k < w0.len() ==> #[trigger] self.warning_rules@[k] == w0[k],
                forall|k: int|
                    0 <= k < i ==> {
                        &&& (#[trigger] self.warning_rules@[k]).recorded() == w0[k].found(items)
                        &&& self.warning_rules@[k].comment_view() == w0[k].comment_view()
                        &&& self.warning_rules@[k].same_body(&w0[k])
                    },
                result@.len() == held(w0.subrange(0, i as int), items).len(),
                forall|j: int|
                    0 <= j < result@.len() ==> crate::rules::same_warning(
                        (#[trigger] result@[j]).rule,
                        self.warning_rules@[held(w0.subrange(0, i as int), items)[j]],
                    ),
                forall|j: int|
                    0 <= j < result@.len() ==> 0 <= #[trigger] held(w0.subrange(0, i as int), items)[j] < i,
            decreases w0.len() - i,
        {
            let ghost pre = w0.subrange(0, i + 1);
            assert(pre.drop_last() =~= w0.subrange(0, i as int));
            assert(pre.last() == w0[i as int]);
            let ghost hb = held(w0.subrange(0, i as int), items);
            let ghost rules_before = self.warning_rules@;
            let holds = self.warning_rules[i].eval(mods_cpy.as_slice());
            assert(forall|k: int| 0 <= k < w0.len() && k != i ==> self.warning_rules@[k] == rules_before[k]);
            if holds {
                let w = Warning { rule: self.warning_rules[i].clone() };
                result.push(w);
            }
            i = i + 1;
        }
        assert(w0.subrange(0, w0.len() as int) =~= w0);
        self.warnings = result;
    }
}

} // verus!
