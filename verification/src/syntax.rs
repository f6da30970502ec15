//! What the rules' expressions say: the grammar that the parser reads, stated over
//! characters, with the expression trees as values.
use vstd::prelude::*;

use crate::expressions::{EVerOperator, Expression};
use crate::rules::{EOrderRule, ERule, EWarningRule, TWarningRule};
use crate::text::{lines, lowercase};
use crate::wildcard::strings_view;
use crate::parser::{ends_with_ext, ParseError};
use crate::text::{is_ascii_ws, is_ws, parse_u64, starts_with, trim, trim_start};
use crate::versions::lenient_version;

verus! {

////////////////////////////////////////////////////////////////////////
// EXPRESSIONS AS VALUES
////////////////////////////////////////////////////////////////////////

/// An expression as a value.
pub enum ExprV {
    Atomic(Seq<char>),
    All(Seq<ExprV>),
    Any(Seq<ExprV>),
    Not(Box<ExprV>),
    Desc(Seq<char>, Seq<char>, bool),
    Size(Seq<char>, u64, bool),
    Ver(Seq<char>, EVerOperator, Seq<char>),
}

pub open spec fn expr_view(e: Expression) -> ExprV
    decreases e,
{
    match e {
        Expression::Atomic(a) => ExprV::Atomic(a.item@),
        Expression::ALL(x) => ExprV::All(exprs_view(x.expressions@)),
        Expression::ANY(x) => ExprV::Any(exprs_view(x.expressions@)),
        Expression::NOT(x) => ExprV::Not(Box::new(expr_view(*x.expression))),
        Expression::DESC(d) => ExprV::Desc(d.expression.item@, d.regex@, d.is_negated),
        Expression::SIZE(s) => ExprV::Size(s.expression.item@, s.size, s.is_negated),
        Expression::VER(v) => ExprV::Ver(v.expression.item@, v.operator, v.version@),
    }
}

pub open spec fn exprs_view(es: Seq<Expression>) -> Seq<ExprV>
    decreases es,
{
    if es.len() == 0 {
        seq![]
    } else {
        exprs_view(es.subrange(0, es.len() - 1)).push(expr_view(es[es.len() - 1]))
    }
}

pub proof fn lemma_exprs_view(es: Seq<Expression>)
    ensures
        exprs_view(es).len() == es.len(),
        forall|i: int| 0 <= i < es.len() ==> #[trigger] exprs_view(es)[i] == expr_view(es[i]),
    decreases es.len(),
{
    if es.len() > 0 {
        let d = es.subrange(0, es.len() - 1);
        lemma_exprs_view(d);
        assert forall|i: int| 0 <= i < es.len() implies #[trigger] exprs_view(es)[i] == expr_view(
            es[i],
        ) by {
            if i < es.len() - 1 {
                assert(d[i] == es[i]);
            }
        }
    }
}

/// What parsing gives: a value or an error. `Stuck` only marks a piece that is longer
/// than the text it came from, which [lemma_exprs_done] shows never happens.
pub enum POut<T> {
    Done(T),
    Failed(ParseError),
    Stuck,
}

////////////////////////////////////////////////////////////////////////
// BRACKETS
////////////////////////////////////////////////////////////////////////

/// The number of `[` in the text.
pub open spec fn brackets(s: Seq<char>) -> nat
    decreases s.len(),
{
    if s.len() == 0 {
        0
    } else {
        brackets(s.drop_last()) + if s.last() == '[' {
            1nat
        } else {
            0nat
        }
    }
}

pub proof fn lemma_brackets_add(a: Seq<char>, b: Seq<char>)
    ensures
        brackets(a + b) == brackets(a) + brackets(b),
    decreases b.len(),
{
    if b.len() > 0 {
        assert((a + b).drop_last() =~= a + b.drop_last());
        lemma_brackets_add(a, b.drop_last());
    }
}

pub proof fn lemma_brackets_subrange(s: Seq<char>, i: int, j: int)
    requires
        0 <= i <= j <= s.len(),
    ensures
        brackets(s.subrange(i, j)) <= brackets(s),
        i > 0 && s[0] == '[' ==> brackets(s.subrange(i, j)) < brackets(s),
{
    assert(s =~= s.subrange(0, i) + s.subrange(i, j) + s.subrange(j, s.len() as int));
    lemma_brackets_add(s.subrange(0, i) + s.subrange(i, j), s.subrange(j, s.len() as int));
    lemma_brackets_add(s.subrange(0, i), s.subrange(i, j));
    if i > 0 && s[0] == '[' {
        assert(s.subrange(0, i) =~= seq![s[0]] + s.subrange(1, i));
        lemma_brackets_add(seq![s[0]], s.subrange(1, i));
        assert(seq![s[0]].drop_last() =~= Seq::<char>::empty());
    }
}

pub proof fn lemma_brackets_trim_start(s: Seq<char>)
    ensures
        brackets(trim_start(s)) <= brackets(s),
    decreases s.len(),
{
    if s.len() > 0 && is_ws(s[0]) {
        lemma_brackets_trim_start(s.drop_first());
        assert(s.drop_first() =~= s.subrange(1, s.len() as int));
        lemma_brackets_subrange(s, 1, s.len() as int);
    }
}

pub proof fn lemma_brackets_trim_end(s: Seq<char>)
    ensures
        brackets(crate::text::trim_end(s)) <= brackets(s),
    decreases s.len(),
{
    if s.len() > 0 && is_ws(s.last()) {
        lemma_brackets_trim_end(s.drop_last());
    }
}

pub proof fn lemma_brackets_trim(s: Seq<char>)
    ensures
        brackets(trim_start(s)) <= brackets(s),
        brackets(crate::text::trim_end(s)) <= brackets(s),
        brackets(trim(s)) <= brackets(s),
{
    lemma_brackets_trim_start(s);
    lemma_brackets_trim_end(s);
    lemma_brackets_trim_end(trim_start(s));
}

/// The bytes of a text, each read back as the character with its value.
pub open spec fn latin1(bs: Seq<u8>) -> Seq<char> {
    bs.map_values(|b: u8| b as char)
}

/// A text written as UTF-8 and read back byte by byte.
pub open spec fn reencode(s: Seq<char>) -> Seq<char> {
    latin1(vstd::utf8::encode_utf8(s))
}

proof fn lemma_brackets_single(c: char)
    ensures
        brackets(seq![c]) == if c == '[' {
            1nat
        } else {
            0nat
        },
{
    assert(seq![c].drop_last() =~= Seq::<char>::empty());
    assert(brackets(Seq::<char>::empty()) == 0);
    assert(seq![c].last() == c);
}

proof fn lemma_scalar_brackets(c: char)
    ensures
        brackets(latin1(vstd::utf8::encode_scalar(c as u32))) == if c == '[' {
            1nat
        } else {
            0nat
        },
{
    let u = c as u32;
    let e = vstd::utf8::encode_scalar(u);
    if vstd::utf8::has_width_1_encoding(u) {
        assert((u & 0x7F) == u) by (bit_vector)
            requires
                u <= 0x7F,
        ;
        assert(((u & 0x7F) as u8) as char == c);
        assert(latin1(e) =~= seq![c]);
        lemma_brackets_single(c);
    } else {
        assert forall|k: int| 0 <= k < e.len() implies e[k] >= 0x80 by {
            let b0 = vstd::utf8::leading_byte_width_2(u);
            let b1 = vstd::utf8::last_continuation_byte(u);
            let b2 = vstd::utf8::leading_byte_width_3(u);
            let b3 = vstd::utf8::second_last_continuation_byte(u);
            let b4 = vstd::utf8::leading_byte_width_4(u);
            let b5 = vstd::utf8::third_last_continuation_byte(u);
            assert(b0 >= 0x80) by (bit_vector)
                requires
                    b0 == 0xC0 | ((u >> 6) & 0x1F) as u8,
            ;
            assert(b1 >= 0x80) by (bit_vector)
                requires
                    b1 == 0x80 | (u & 0x3F) as u8,
            ;
            assert(b2 >= 0x80) by (bit_vector)
                requires
                    b2 == 0xE0 | ((u >> 12) & 0x0F) as u8,
            ;
            assert(b3 >= 0x80) by (bit_vector)
                requires
                    b3 == 0x80 | ((u >> 6) & 0x3F) as u8,
            ;
            assert(b4 >= 0x80) by (bit_vector)
                requires
                    b4 == 0xF0 | ((u >> 18) & 0x7) as u8,
            ;
            assert(b5 >= 0x80) by (bit_vector)
                requires
                    b5 == 0x80 | ((u >> 12) & 0x3F) as u8,
            ;
        }
        lemma_no_brackets(latin1(e));
        assert forall|k: int| 0 <= k < latin1(e).len() implies #[trigger] latin1(e)[k] != '[' by {
            assert(e[k] >= 0x80);
            assert((e[k] as char) != '[');
        }
        assert(c != '[') by {
            assert(u >= 0x80);
        }
    }
}

proof fn lemma_no_brackets(s: Seq<char>)
    ensures
        (forall|k: int| 0 <= k < s.len() ==> #[trigger] s[k] != '[') ==> brackets(s) == 0,
    decreases s.len(),
{
    if s.len() > 0 {
        lemma_no_brackets(s.drop_last());
        if forall|k: int| 0 <= k < s.len() ==> #[trigger] s[k] != '[' {
            assert forall|k: int| 0 <= k < s.drop_last().len() implies #[trigger] s.drop_last()[k]
                != '[' by {
                assert(s.drop_last()[k] == s[k]);
            }
            assert(s.last() == s[s.len() - 1]);
        }
    }
}

/// Writing a text as UTF-8 and reading it back byte by byte keeps its `[`.
pub proof fn lemma_reencode_brackets(s: Seq<char>)
    ensures
        brackets(reencode(s)) == brackets(s),
    decreases s.len(),
{
    if s.len() > 0 {
        let e0 = vstd::utf8::encode_scalar(s[0] as u32);
        let rest = vstd::utf8::encode_utf8(s.drop_first());
        assert(vstd::utf8::encode_utf8(s) == e0 + rest);
        assert(latin1(e0 + rest) =~= latin1(e0) + latin1(rest));
        lemma_brackets_add(latin1(e0), latin1(rest));
        lemma_scalar_brackets(s[0]);
        lemma_reencode_brackets(s.drop_first());
        assert(s =~= seq![s[0]] + s.drop_first());
        lemma_brackets_add(seq![s[0]], s.drop_first());
        lemma_brackets_single(s[0]);
    }
}

////////////////////////////////////////////////////////////////////////
// SPLITTING A BODY INTO EXPRESSIONS AND TOKENS
////////////////////////////////////////////////////////////////////////

/// The text starts with `arg` and a space or a tab.
pub open spec fn starts_with_ws(s: Seq<char>, arg: Seq<char>) -> bool {
    starts_with(s, arg + seq![' ']) || starts_with(s, arg + seq!['\t'])
}

/// The text starts like one of the expressions `[ANY`, `[ALL`, `[NOT`, `[DESC`,
/// `[SIZE` and `[VER` (in lowercase) and a space or a tab.
pub open spec fn is_expr_start(t: Seq<char>) -> bool {
    ||| starts_with_ws(t, "[any"@)
    ||| starts_with_ws(t, "[all"@)
    ||| starts_with_ws(t, "[not"@)
    ||| starts_with_ws(t, "[desc"@)
    ||| starts_with_ws(t, "[size"@)
    ||| starts_with_ws(t, "[ver"@)
}

/// The state of the splitter: the pieces so far (each with whether it is an
/// expression), the current piece, whether it is an expression or a token, and the
/// depth of the brackets of an expression.
pub struct ChunkState {
    pub chunks: Seq<(Seq<char>, bool)>,
    pub buf: Seq<char>,
    pub is_expr: bool,
    pub is_token: bool,
    pub depth: int,
}

/// One character of the splitter. An expression runs from a `[` to the matching `]`
/// and is kept (trimmed) if it starts like an expression, else it goes on as a token;
/// a token runs to an extension followed by a space or a line feed.
pub open spec fn chunk_step(exts: Seq<Seq<char>>, st: ChunkState, c: char) -> ChunkState {
    if st.is_expr {
        let depth = if c == '[' {
            st.depth + 1
        } else if c == ']' {
            st.depth - 1
        } else {
            st.depth
        };
        let buf = st.buf.push(c);
        if depth == 0 {
            if is_expr_start(trim(buf)) {
                ChunkState {
                    chunks: st.chunks.push((trim(buf), true)),
                    buf: seq![],
                    is_expr: false,
                    is_token: st.is_token,
                    depth,
                }
            } else {
                ChunkState { chunks: st.chunks, buf, is_expr: false, is_token: true, depth }
            }
        } else {
            ChunkState { chunks: st.chunks, buf, is_expr: true, is_token: st.is_token, depth }
        }
    } else if st.is_token {
        let buf = st.buf.push(c);
        if ends_with_ext(buf, exts, seq![' ']) || ends_with_ext(buf, exts, seq!['\n']) {
            ChunkState {
                chunks: st.chunks.push((buf.drop_last(), false)),
                buf: seq![],
                is_expr: false,
                is_token: false,
                depth: st.depth,
            }
        } else {
            ChunkState { chunks: st.chunks, buf, is_expr: false, is_token: true, depth: st.depth }
        }
    } else if c == '[' {
        ChunkState {
            chunks: st.chunks,
            buf: st.buf.push(c),
            is_expr: true,
            is_token: false,
            depth: st.depth + 1,
        }
    } else if !is_ascii_ws(c) {
        ChunkState {
            chunks: st.chunks,
            buf: st.buf.push(c),
            is_expr: false,
            is_token: true,
            depth: st.depth,
        }
    } else {
        ChunkState { chunks: st.chunks, buf: st.buf.push(c), is_expr: false, is_token: false, depth: st.depth }
    }
}

pub open spec fn chunk_fold(exts: Seq<Seq<char>>, cs: Seq<char>) -> ChunkState
    decreases cs.len(),
{
    if cs.len() == 0 {
        ChunkState { chunks: seq![], buf: seq![], is_expr: false, is_token: false, depth: 0 }
    } else {
        chunk_step(exts, chunk_fold(exts, cs.drop_last()), cs.last())
    }
}

/// The pieces trimmed, the empty ones dropped.
pub open spec fn clean_chunks(chunks: Seq<(Seq<char>, bool)>) -> Seq<(Seq<char>, bool)>
    decreases chunks.len(),
{
    if chunks.len() == 0 {
        seq![]
    } else {
        let prev = clean_chunks(chunks.drop_last());
        let t = trim(chunks.last().0);
        if t.len() == 0 {
            prev
        } else {
            prev.push((t, chunks.last().1))
        }
    }
}

/// The pieces of a body: its expressions and its tokens, in order.
pub open spec fn chunks_of(exts: Seq<Seq<char>>, cs: Seq<char>) -> Seq<(Seq<char>, bool)> {
    let st = chunk_fold(exts, cs);
    clean_chunks(
        if st.buf.len() > 0 {
            st.chunks.push((st.buf, st.is_expr))
        } else {
            st.chunks
        },
    )
}

/// No piece has more `[` than the bound.
pub open spec fn chunks_within(chunks: Seq<(Seq<char>, bool)>, bound: nat) -> bool {
    forall|k: int| 0 <= k < chunks.len() ==> brackets((#[trigger] chunks[k]).0) <= bound
}

proof fn lemma_brackets_push(s: Seq<char>, c: char)
    ensures
        brackets(s.push(c)) == brackets(s) + if c == '[' {
            1nat
        } else {
            0nat
        },
{
    assert(s.push(c).drop_last() =~= s);
}

proof fn lemma_chunk_fold_within(exts: Seq<Seq<char>>, cs: Seq<char>)
    ensures
        chunks_within(chunk_fold(exts, cs).chunks, brackets(cs)),
        brackets(chunk_fold(exts, cs).buf) <= brackets(cs),
    decreases cs.len(),
{
    if cs.len() > 0 {
        let d = cs.drop_last();
        let c = cs.last();
        lemma_chunk_fold_within(exts, d);
        let st = chunk_fold(exts, d);
        lemma_brackets_push(st.buf, c);
        let buf = st.buf.push(c);
        lemma_brackets_trim(buf);
        assert(buf.drop_last() =~= buf.subrange(0, buf.len() - 1));
        lemma_brackets_subrange(buf, 0, buf.len() - 1);
        let r = chunk_fold(exts, cs);
        assert forall|k: int| 0 <= k < r.chunks.len() implies brackets((#[trigger] r.chunks[k]).0)
            <= brackets(cs) by {
            if k < st.chunks.len() {
                assert(r.chunks[k] == st.chunks[k]);
            }
        }
    }
}

proof fn lemma_clean_within(chunks: Seq<(Seq<char>, bool)>, bound: nat)
    requires
        chunks_within(chunks, bound),
    ensures
        chunks_within(clean_chunks(chunks), bound),
    decreases chunks.len(),
{
    if chunks.len() > 0 {
        let d = chunks.drop_last();
        assert(chunks_within(d, bound)) by {
            assert forall|k: int| 0 <= k < d.len() implies brackets((#[trigger] d[k]).0) <= bound by {
                assert(d[k] == chunks[k]);
            }
        }
        lemma_clean_within(d, bound);
        lemma_brackets_trim(chunks.last().0);
        assert(brackets(chunks[chunks.len() - 1].0) <= bound);
        let r = clean_chunks(chunks);
        let p = clean_chunks(d);
        assert forall|k: int| 0 <= k < r.len() implies brackets((#[trigger] r[k]).0) <= bound by {
            if k < p.len() {
                assert(r[k] == p[k]);
            }
        }
    }
}

/// No piece of a body has more `[` than the body.
pub proof fn lemma_chunks_within(exts: Seq<Seq<char>>, cs: Seq<char>)
    ensures
        chunks_within(chunks_of(exts, cs), brackets(cs)),
{
    lemma_chunk_fold_within(exts, cs);
    let st = chunk_fold(exts, cs);
    let all = if st.buf.len() > 0 {
        st.chunks.push((st.buf, st.is_expr))
    } else {
        st.chunks
    };
    assert(chunks_within(all, brackets(cs))) by {
        assert forall|k: int| 0 <= k < all.len() implies brackets((#[trigger] all[k]).0) <= brackets(cs) by {
            if k < st.chunks.len() {
                assert(all[k] == st.chunks[k]);
            }
        }
    }
    lemma_clean_within(all, brackets(cs));
}

////////////////////////////////////////////////////////////////////////
// THE PARTS OF [DESC], [SIZE] AND [VER]
////////////////////////////////////////////////////////////////////////

/// The index of the last `c` in the text, or -1.
pub open spec fn last_char_index(s: Seq<char>, c: char) -> int
    decreases s.len(),
{
    if s.len() == 0 {
        -1
    } else if s.last() == c {
        s.len() - 1
    } else {
        last_char_index(s.drop_last(), c)
    }
}

/// The parts of a `[DESC` body: `/regex/ plugin` or `!/regex/ plugin` give the plugin,
/// the regular expression (trimmed) and whether it is negated.
pub open spec fn desc_parts(input: Seq<char>) -> Option<(Seq<char>, Seq<char>, bool)> {
    if starts_with(input, "!/"@) {
        let inner = input.subrange(2, input.len() as int);
        let e = last_char_index(inner, '/');
        if e >= 0 {
            Some((trim(inner.subrange(e + 1, inner.len() as int)), trim(inner.subrange(0, e)), true))
        } else {
            None
        }
    } else if starts_with(input, "/"@) {
        let inner = input.subrange(1, input.len() as int);
        let e = last_char_index(inner, '/');
        if e >= 0 {
            Some((trim(inner.subrange(e + 1, inner.len() as int)), trim(inner.subrange(0, e)), false))
        } else {
            None
        }
    } else {
        None
    }
}

/// The index of the first whitespace character, or the length.
pub open spec fn first_ws_index(s: Seq<char>) -> int
    decreases s.len(),
{
    if s.len() == 0 {
        0
    } else if is_ws(s[0]) {
        0
    } else {
        first_ws_index(s.drop_first()) + 1
    }
}

/// The first word of a text that does not start with whitespace.
pub open spec fn first_word(t: Seq<char>) -> Seq<char> {
    t.subrange(0, first_ws_index(t))
}

/// The parts of a `[SIZE` body.
pub enum SizeParts {
    NoMatch,
    Parts(Seq<char>, u64, bool),
}

/// The parts of a `[SIZE` body: `### plugin` or `!### plugin` give the plugin, the
/// size and whether it is negated. The plugin is what follows the number and the
/// whitespace character after it; with nothing after the number there is no plugin.
pub open spec fn size_parts(input: Seq<char>) -> SizeParts {
    let neg = starts_with(input, "!"@);
    let inp = if neg {
        input.drop_first()
    } else {
        input
    };
    let t = trim_start(inp);
    if t.len() == 0 {
        SizeParts::NoMatch
    } else {
        let w = first_word(t);
        let right = t.subrange(w.len() as int, t.len() as int);
        match parse_u64(w) {
            None => SizeParts::NoMatch,
            Some(size) => if right.len() == 0 {
                SizeParts::Parts(seq![], size, neg)
            } else {
                SizeParts::Parts(right.drop_first(), size, neg)
            },
        }
    }
}

/// The parts of a `[VER` body: `<`, `=` or `>`, a version and the plugin give the
/// plugin, the operator and the version as `lenient_semver` reads it.
pub open spec fn ver_parts(input: Seq<char>) -> Option<(Seq<char>, EVerOperator, Seq<char>)> {
    let op = if starts_with(input, "<"@) {
        Some(EVerOperator::Less)
    } else if starts_with(input, ">"@) {
        Some(EVerOperator::Greater)
    } else if starts_with(input, "="@) {
        Some(EVerOperator::Equal)
    } else {
        None
    };
    match op {
        None => None,
        Some(o) => {
            let t = trim_start(input.drop_first());
            if t.len() == 0 {
                None
            } else {
                let w = first_word(t);
                match lenient_version(w) {
                    Some(v) => Some((t.subrange(w.len() as int, t.len() as int), o, v)),
                    None => None,
                }
            }
        },
    }
}

pub proof fn lemma_last_char_index(s: Seq<char>, c: char)
    ensures
        -1 <= last_char_index(s, c) < s.len(),
    decreases s.len(),
{
    if s.len() > 0 {
        lemma_last_char_index(s.drop_last(), c);
    }
}

pub proof fn lemma_first_ws_index(s: Seq<char>)
    ensures
        0 <= first_ws_index(s) <= s.len(),
    decreases s.len(),
{
    if s.len() > 0 && !is_ws(s[0]) {
        lemma_first_ws_index(s.drop_first());
    }
}

/// The plugin part of a `[DESC`, `[SIZE` or `[VER` body has no more `[` than the body.
pub proof fn lemma_parts_brackets(input: Seq<char>)
    ensures
        desc_parts(input) matches Some(p) ==> brackets(p.0) <= brackets(input),
        size_parts(input) matches SizeParts::Parts(e, _, _) ==> brackets(e) <= brackets(input),
        ver_parts(input) matches Some(p) ==> brackets(p.0) <= brackets(input),
{
    reveal_strlit("!/");
    reveal_strlit("/");
    reveal_strlit("!");
    reveal_strlit("<");
    reveal_strlit(">");
    reveal_strlit("=");
    if input.len() > 0 {
        lemma_brackets_subrange(input, 1, input.len() as int);
        assert(input.drop_first() =~= input.subrange(1, input.len() as int));
    }
    if starts_with(input, "!/"@) {
        let inner = input.subrange(2, input.len() as int);
        lemma_brackets_subrange(input, 2, input.len() as int);
        lemma_last_char_index(inner, '/');
        let e = last_char_index(inner, '/');
        if e >= 0 {
            lemma_brackets_subrange(inner, e + 1, inner.len() as int);
            lemma_brackets_trim(inner.subrange(e + 1, inner.len() as int));
        }
    } else if starts_with(input, "/"@) {
        let inner = input.subrange(1, input.len() as int);
        lemma_last_char_index(inner, '/');
        let e = last_char_index(inner, '/');
        if e >= 0 {
            lemma_brackets_subrange(inner, e + 1, inner.len() as int);
            lemma_brackets_trim(inner.subrange(e + 1, inner.len() as int));
        }
    }
    let inp = if starts_with(input, "!"@) {
        input.drop_first()
    } else {
        input
    };
    let t = trim_start(inp);
    lemma_brackets_trim(inp);
    lemma_first_ws_index(t);
    if t.len() > 0 {
        let w = first_word(t);
        let right = t.subrange(w.len() as int, t.len() as int);
        lemma_brackets_subrange(t, w.len() as int, t.len() as int);
        if right.len() > 0 {
            lemma_brackets_subrange(right, 1, right.len() as int);
            assert(right.drop_first() =~= right.subrange(1, right.len() as int));
        }
    }
    if input.len() > 0 {
        let t2 = trim_start(input.drop_first());
        lemma_brackets_trim(input.drop_first());
        lemma_first_ws_index(t2);
        if t2.len() > 0 {
            lemma_brackets_subrange(t2, first_word(t2).len() as int, t2.len() as int);
        }
    }
}

////////////////////////////////////////////////////////////////////////
// PARSING
////////////////////////////////////////////////////////////////////////

/// The body of an expression: what follows its first `k` characters, without its last
/// character.
pub open spec fn expr_body(s: Seq<char>, k: int) -> Seq<char> {
    s.subrange(k, s.len() - 1)
}

/// Nothing follows the kind of the expression.
pub open spec fn body_cut_fails(s: Seq<char>, k: int) -> bool {
    s.len() <= k
}

/// The expressions of a body, written back as UTF-8 and read byte by byte.
pub open spec fn inner_text(s: Seq<char>, k: int) -> Seq<char> {
    reencode(trim_start(expr_body(s, k)))
}

pub proof fn lemma_inner_brackets(s: Seq<char>, k: int)
    requires
        starts_with(s, "["@),
        1 <= k < s.len(),
    ensures
        brackets(inner_text(s, k)) < brackets(s),
        brackets(trim_start(expr_body(s, k))) < brackets(s),
{
    reveal_strlit("[");
    assert(s.subrange(0, 1)[0] == s[0]);
    lemma_brackets_subrange(s, k, s.len() - 1);
    lemma_brackets_trim(expr_body(s, k));
    lemma_reencode_brackets(trim_start(expr_body(s, k)));
}

/// Parses the expressions of a body, given as the bytes of its text read as characters.
pub open spec fn parse_exprs(exts: Seq<Seq<char>>, cs: Seq<char>) -> POut<Seq<ExprV>>
    decreases brackets(cs), 3nat, 0nat,
{
    proof {
        lemma_chunks_within(exts, cs);
    }
    parse_chunk_list(exts, chunks_of(exts, cs), brackets(cs))
}

/// Parses the pieces of a body in order; the first error ends it.
pub open spec fn parse_chunk_list(exts: Seq<Seq<char>>, chunks: Seq<(Seq<char>, bool)>, bound: nat) -> POut<
    Seq<ExprV>,
>
    decreases bound, 2nat, chunks.len(),
{
    if chunks.len() == 0 {
        POut::Done(seq![])
    } else if brackets(chunks.last().0) > bound {
        POut::Stuck
    } else {
        match parse_chunk_list(exts, chunks.drop_last(), bound) {
            POut::Done(es) => match parse_expr(exts, chunks.last().0, chunks.last().1) {
                POut::Done(e) => POut::Done(es.push(e)),
                POut::Failed(x) => POut::Failed(x),
                POut::Stuck => POut::Stuck,
            },
            POut::Failed(x) => POut::Failed(x),
            POut::Stuck => POut::Stuck,
        }
    }
}

/// The single atomic child of `[DESC`, `[SIZE` or `[VER`, or the error.
pub open spec fn single_atomic(r: POut<Seq<ExprV>>, count_err: ParseError, atomic_err: ParseError) -> POut<
    Seq<char>,
> {
    match r {
        POut::Done(es) => if es.len() != 1 {
            POut::Failed(count_err)
        } else {
            match es[0] {
                ExprV::Atomic(item) => POut::Done(item),
                _ => POut::Failed(atomic_err),
            }
        },
        POut::Failed(x) => POut::Failed(x),
        POut::Stuck => POut::Stuck,
    }
}

/// Parses one piece: a token is an atomic expression when it ends with an extension;
/// an expression is parsed by its kind.
pub open spec fn parse_expr(exts: Seq<Seq<char>>, s: Seq<char>, is_expr: bool) -> POut<ExprV>
    decreases brackets(s), 1nat, 0nat,
{
    if !is_expr {
        if ends_with_ext(s, exts, seq![]) {
            POut::Done(ExprV::Atomic(s))
        } else {
            POut::Failed(ParseError::NotAnAtomic)
        }
    } else if !starts_with(s, "["@) {
        POut::Failed(ParseError::NotAnExpression)
    } else if starts_with(s, "[any"@) || starts_with(s, "[all"@) || starts_with(s, "[not"@) {
        parse_group(exts, s)
    } else if starts_with(s, "[desc"@) {
        parse_desc_expr(exts, s)
    } else if starts_with(s, "[size"@) {
        parse_size_expr(exts, s)
    } else if starts_with(s, "[ver"@) {
        parse_ver_expr(exts, s)
    } else {
        POut::Failed(ParseError::UnknownExpression)
    }
}

/// `[ANY ...]`, `[ALL ...]` and `[NOT ...]`: the expressions of the body; `[NOT` takes
/// the last of them.
pub open spec fn parse_group(exts: Seq<Seq<char>>, s: Seq<char>) -> POut<ExprV>
    decreases brackets(s), 0nat, 0nat,
{
    if !starts_with(s, "["@) {
        POut::Failed(ParseError::NotAnExpression)
    } else if body_cut_fails(s, 4) {
        POut::Failed(ParseError::UnknownExpression)
    } else {
        proof {
            lemma_inner_brackets(s, 4);
        }
        match parse_exprs(exts, inner_text(s, 4)) {
            POut::Done(es) => if starts_with(s, "[any"@) {
                POut::Done(ExprV::Any(es))
            } else if starts_with(s, "[all"@) {
                POut::Done(ExprV::All(es))
            } else if es.len() > 0 {
                POut::Done(ExprV::Not(Box::new(es.last())))
            } else {
                POut::Failed(ParseError::UnknownExpression)
            },
            POut::Failed(x) => POut::Failed(x),
            POut::Stuck => POut::Stuck,
        }
    }
}

/// `[DESC /regex/ plugin]` and `[DESC !/regex/ plugin]`.
pub open spec fn parse_desc_expr(exts: Seq<Seq<char>>, s: Seq<char>) -> POut<ExprV>
    decreases brackets(s), 0nat, 0nat,
{
    if !starts_with(s, "["@) {
        POut::Failed(ParseError::NotAnExpression)
    } else if body_cut_fails(s, 5) {
        POut::Failed(ParseError::UnknownExpression)
    } else {
        let body = trim_start(expr_body(s, 5));
        match desc_parts(body) {
            None => POut::Failed(ParseError::UnknownExpression),
            Some(p) => {
                proof {
                    lemma_inner_brackets(s, 5);
                    lemma_parts_brackets(body);
                    lemma_reencode_brackets(p.0);
                }
                match single_atomic(
                    parse_exprs(exts, reencode(p.0)),
                    ParseError::DescChildCount,
                    ParseError::DescChildAtomic,
                ) {
                    POut::Done(item) => POut::Done(ExprV::Desc(item, p.1, p.2)),
                    POut::Failed(x) => POut::Failed(x),
                    POut::Stuck => POut::Stuck,
                }
            },
        }
    }
}

/// `[SIZE ### plugin]` and `[SIZE !### plugin]`.
pub open spec fn parse_size_expr(exts: Seq<Seq<char>>, s: Seq<char>) -> POut<ExprV>
    decreases brackets(s), 0nat, 0nat,
{
    if !starts_with(s, "["@) {
        POut::Failed(ParseError::NotAnExpression)
    } else if body_cut_fails(s, 5) {
        POut::Failed(ParseError::UnknownExpression)
    } else {
        let body = trim_start(expr_body(s, 5));
        match size_parts(body) {
            SizeParts::NoMatch => POut::Failed(ParseError::UnknownExpression),
            SizeParts::Parts(e, size, neg) => {
                proof {
                    lemma_inner_brackets(s, 5);
                    lemma_parts_brackets(body);
                    lemma_reencode_brackets(e);
                }
                match single_atomic(
                    parse_exprs(exts, reencode(e)),
                    ParseError::SizeChildCount,
                    ParseError::SizeChildAtomic,
                ) {
                    POut::Done(item) => POut::Done(ExprV::Size(item, size, neg)),
                    POut::Failed(x) => POut::Failed(x),
                    POut::Stuck => POut::Stuck,
                }
            },
        }
    }
}

/// `[VER < version plugin]`, with `<`, `=` or `>`.
pub open spec fn parse_ver_expr(exts: Seq<Seq<char>>, s: Seq<char>) -> POut<ExprV>
    decreases brackets(s), 0nat, 0nat,
{
    if !starts_with(s, "["@) {
        POut::Failed(ParseError::NotAnExpression)
    } else if body_cut_fails(s, 4) {
        POut::Failed(ParseError::UnknownExpression)
    } else {
        let body = trim_start(expr_body(s, 4));
        match ver_parts(body) {
            None => POut::Failed(ParseError::UnknownExpression),
            Some(p) => {
                proof {
                    lemma_inner_brackets(s, 4);
                    lemma_parts_brackets(body);
                    lemma_reencode_brackets(p.0);
                }
                match single_atomic(
                    parse_exprs(exts, reencode(p.0)),
                    ParseError::VerChildCount,
                    ParseError::VerChildAtomic,
                ) {
                    POut::Done(item) => POut::Done(ExprV::Ver(item, p.1, p.2)),
                    POut::Failed(x) => POut::Failed(x),
                    POut::Stuck => POut::Stuck,
                }
            },
        }
    }
}

/// A failure on the first pieces is the outcome of the whole list.
pub proof fn lemma_chunk_list_prefix(
    exts: Seq<Seq<char>>,
    chunks: Seq<(Seq<char>, bool)>,
    bound: nat,
    k: int,
)
    requires
        0 <= k <= chunks.len(),
        chunks_within(chunks, bound),
    ensures
        !(parse_chunk_list(exts, chunks.subrange(0, k), bound) is Done) ==> parse_chunk_list(
            exts,
            chunks,
            bound,
        ) == parse_chunk_list(exts, chunks.subrange(0, k), bound),
    decreases chunks.len() - k,
{
    if k < chunks.len() {
        lemma_chunk_list_prefix(exts, chunks, bound, k + 1);
        let p = chunks.subrange(0, k + 1);
        assert(p.drop_last() =~= chunks.subrange(0, k));
        assert(p.last() == chunks[k]);
    } else {
        assert(chunks.subrange(0, k) =~= chunks);
    }
}

////////////////////////////////////////////////////////////////////////
// RULES AS VALUES
////////////////////////////////////////////////////////////////////////

/// A rule as a value. The warning rules hold their comment and expressions.
pub enum RuleV {
    Order(Seq<Seq<char>>),
    NearStart(Seq<Seq<char>>),
    NearEnd(Seq<Seq<char>>),
    Note(Seq<char>, Seq<ExprV>),
    Conflict(Seq<char>, Seq<ExprV>),
    Requires(Seq<char>, Option<ExprV>, Option<ExprV>),
    Patch(Seq<char>, Option<ExprV>, Option<ExprV>),
}

pub open spec fn opt_expr_view(o: Option<Expression>) -> Option<ExprV> {
    match o {
        Some(e) => Some(expr_view(e)),
        None => None,
    }
}

pub open spec fn rule_view(r: ERule) -> RuleV {
    match r {
        ERule::EOrderRule(EOrderRule::Order(o)) => RuleV::Order(strings_view(o.names@)),
        ERule::EOrderRule(EOrderRule::NearStart(o)) => RuleV::NearStart(strings_view(o.names@)),
        ERule::EOrderRule(EOrderRule::NearEnd(o)) => RuleV::NearEnd(strings_view(o.names@)),
        ERule::EWarningRule(EWarningRule::Note(n)) => RuleV::Note(n.comment@, exprs_view(n.expressions@)),
        ERule::EWarningRule(EWarningRule::Conflict(n)) => RuleV::Conflict(
            n.comment@,
            exprs_view(n.expressions@),
        ),
        ERule::EWarningRule(EWarningRule::Requires(n)) => RuleV::Requires(
            n.comment@,
            opt_expr_view(n.expression_a),
            opt_expr_view(n.expression_b),
        ),
        ERule::EWarningRule(EWarningRule::Patch(n)) => RuleV::Patch(
            n.comment@,
            opt_expr_view(n.expression_a),
            opt_expr_view(n.expression_b),
        ),
    }
}

////////////////////////////////////////////////////////////////////////
// RULE HEADS
////////////////////////////////////////////////////////////////////////

/// How a rule is written: its body on the line of its head, or on the lines after.
#[derive(Debug, Clone, Copy, PartialEq, Eq, Structural)]
pub enum ERuleType {
    Inline,
    Multiline,
}

/// The index of the `]` that closes the rule's `[` (whose scope is open at 1), counting
/// nested brackets from `i` on; -1 when it is never closed.
pub open spec fn close_from(s: Seq<char>, i: int, scope: int) -> int
    decreases s.len() - i,
{
    if i < 0 || i >= s.len() {
        -1
    } else {
        let sc = if s[i] == '[' {
            scope + 1
        } else if s[i] == ']' {
            scope - 1
        } else {
            scope
        };
        if s[i] == ']' && sc == 0 {
            i
        } else {
            close_from(s, i + 1, sc)
        }
    }
}

pub open spec fn has_ws(s: Seq<char>) -> bool {
    exists|k: int| 0 <= k < s.len() && is_ws(#[trigger] s[k])
}

/// The head of a rule after its `[`: the rule expression (trimmed, up to and with its
/// `]`), how the rule is written, and the text of its body. A head with a comment is
/// inline; one without is inline if something follows it on its line.
pub open spec fn rule_head(s: Seq<char>) -> Option<(Seq<char>, ERuleType, Seq<char>)> {
    let ci = close_from(s, 0, 1);
    if ci < 0 {
        None
    } else {
        let re = trim(s.subrange(0, ci + 1));
        let rest = s.subrange(ci + 1, s.len() as int);
        if has_ws(re) {
            Some((re, ERuleType::Inline, rest))
        } else {
            let e = crate::parser::first_index(rest, '\n');
            let upto = if e < rest.len() {
                e + 1
            } else {
                rest.len() as int
            };
            if trim(rest.subrange(0, upto)).len() == 0 {
                Some((re, ERuleType::Multiline, rest.subrange(upto, rest.len() as int)))
            } else {
                Some((re, ERuleType::Inline, rest))
            }
        }
    }
}

/// The text without its last character (the `]` of a rule expression).
pub open spec fn pop_last(s: Seq<char>) -> Seq<char> {
    if s.len() > 0 {
        s.drop_last()
    } else {
        s
    }
}

/// The kind of a rule, with the comment of its head for the warning rules.
pub enum RuleKind {
    Order,
    NearStart,
    NearEnd,
    Note(Seq<char>),
    Conflict(Seq<char>),
    Requires(Seq<char>),
    Patch(Seq<char>),
}

/// The kind of a rule from its name (the rule expression without its `]`).
pub open spec fn rule_kind(name: Seq<char>) -> Option<RuleKind> {
    if starts_with(name, "order"@) {
        Some(RuleKind::Order)
    } else if starts_with(name, "nearstart"@) {
        Some(RuleKind::NearStart)
    } else if starts_with(name, "nearend"@) {
        Some(RuleKind::NearEnd)
    } else if starts_with(name, "note"@) {
        Some(RuleKind::Note(trim(name.subrange(4, name.len() as int))))
    } else if starts_with(name, "conflict"@) {
        Some(RuleKind::Conflict(trim(name.subrange(8, name.len() as int))))
    } else if starts_with(name, "requires"@) {
        Some(RuleKind::Requires(trim(name.subrange(8, name.len() as int))))
    } else if starts_with(name, "patch"@) {
        Some(RuleKind::Patch(trim(name.subrange(5, name.len() as int))))
    } else {
        None
    }
}

/// The kind with another comment; order rules have none.
pub open spec fn with_comment(k: RuleKind, c: Seq<char>) -> RuleKind {
    match k {
        RuleKind::Note(_) => RuleKind::Note(c),
        RuleKind::Conflict(_) => RuleKind::Conflict(c),
        RuleKind::Requires(_) => RuleKind::Requires(c),
        RuleKind::Patch(_) => RuleKind::Patch(c),
        _ => k,
    }
}

////////////////////////////////////////////////////////////////////////
// RULE BODIES
////////////////////////////////////////////////////////////////////////

/// The state of reading a multiline body: whether the leading comment lines may still
/// come, the comment so far, the comment found, and the body so far.
pub struct BodyState {
    pub first: bool,
    pub comment: Seq<char>,
    pub found: Option<Seq<char>>,
    pub body: Seq<char>,
}

/// One line of a multiline body: the first lines that start with whitespace make the
/// comment; the others make the body, each with a line feed.
pub open spec fn body_step(st: BodyState, line: Seq<char>) -> BodyState {
    if st.first && line.len() > 0 && is_ascii_ws(line[0]) {
        BodyState { first: true, comment: st.comment + line, found: st.found, body: st.body }
    } else if st.first {
        BodyState {
            first: false,
            comment: seq![],
            found: if st.comment.len() > 0 {
                Some(trim(st.comment))
            } else {
                st.found
            },
            body: st.body + line + seq!['\n'],
        }
    } else {
        BodyState { first: false, comment: st.comment, found: st.found, body: st.body + line + seq!['\n'] }
    }
}

pub open spec fn body_fold(ls: Seq<Seq<char>>) -> BodyState
    decreases ls.len(),
{
    if ls.len() == 0 {
        BodyState { first: true, comment: seq![], found: None, body: seq![] }
    } else {
        body_step(body_fold(ls.drop_last()), ls.last())
    }
}

/// The lines that are not blank.
pub open spec fn nonblank_lines(ls: Seq<Seq<char>>) -> Seq<Seq<char>> {
    ls.filter(|l: Seq<char>| trim(l).len() > 0)
}

/// The tokens of each line, in order.
pub open spec fn line_tokens(exts: Seq<Seq<char>>, ls: Seq<Seq<char>>) -> Seq<Seq<char>>
    decreases ls.len(),
{
    if ls.len() == 0 {
        seq![]
    } else {
        line_tokens(exts, ls.drop_last()) + crate::parser::tokenize_spec(exts, ls.last())
    }
}

/// The rule that a body makes, for the kind.
pub open spec fn body_rule(exts: Seq<Seq<char>>, k: RuleKind, body: Seq<char>) -> POut<RuleV> {
    match k {
        RuleKind::Order => POut::Done(RuleV::Order(line_tokens(exts, lines(body)))),
        RuleKind::NearStart => POut::Done(RuleV::NearStart(line_tokens(exts, lines(body)))),
        RuleKind::NearEnd => POut::Done(RuleV::NearEnd(line_tokens(exts, lines(body)))),
        RuleKind::Note(c) => match parse_exprs(exts, reencode(body)) {
            POut::Done(es) => POut::Done(RuleV::Note(c, es)),
            POut::Failed(x) => POut::Failed(x),
            POut::Stuck => POut::Stuck,
        },
        RuleKind::Conflict(c) => match parse_exprs(exts, reencode(body)) {
            POut::Done(es) => if es.len() < 2 {
                POut::Failed(ParseError::MalformedConflict)
            } else {
                POut::Done(RuleV::Conflict(c, es))
            },
            POut::Failed(x) => POut::Failed(x),
            POut::Stuck => POut::Stuck,
        },
        RuleKind::Requires(c) => match parse_exprs(exts, reencode(body)) {
            POut::Done(es) => if es.len() != 2 {
                POut::Failed(ParseError::MalformedRequires)
            } else {
                POut::Done(RuleV::Requires(c, Some(es[0]), Some(es[1])))
            },
            POut::Failed(x) => POut::Failed(x),
            POut::Stuck => POut::Stuck,
        },
        RuleKind::Patch(c) => match parse_exprs(exts, reencode(body)) {
            POut::Done(es) => if es.len() != 2 {
                POut::Failed(ParseError::MalformedPatch)
            } else {
                POut::Done(RuleV::Patch(c, Some(es[0]), Some(es[1])))
            },
            POut::Failed(x) => POut::Failed(x),
            POut::Stuck => POut::Stuck,
        },
    }
}

/// The rule a chunk of a rules file makes: its head, then its body, inline or on the
/// lines after (where leading indented lines give the comment of a warning rule).
pub open spec fn chunk_rule(exts: Seq<Seq<char>>, chunk: Seq<char>) -> POut<RuleV> {
    if chunk.len() == 0 || chunk[0] != '[' {
        POut::Failed(ParseError::NotARuleStart)
    } else {
        match rule_head(chunk.drop_first()) {
            None => POut::Failed(ParseError::UnknownRule),
            Some(h) => match rule_kind(pop_last(h.0)) {
                None => POut::Failed(ParseError::UnknownRule),
                Some(k) => if h.1 == ERuleType::Inline {
                    body_rule(exts, k, h.2)
                } else {
                    let st = body_fold(nonblank_lines(lines(h.2)));
                    let k2 = match st.found {
                        Some(c) => with_comment(k, c),
                        None => k,
                    };
                    body_rule(exts, k2, trim(st.body))
                },
            },
        }
    }
}

////////////////////////////////////////////////////////////////////////
// RULES FILES
////////////////////////////////////////////////////////////////////////

/// A line of a rules file as the chunks take it: lowercase, without what follows a `;`,
/// trimmed at the end; nothing for a comment line or a blank one.
pub open spec fn prep_line(line: Seq<char>) -> Option<Seq<char>> {
    if starts_with(trim_start(line), ";"@) {
        None
    } else {
        let l = lowercase(line);
        let l2 = if l.contains(';') {
            crate::text::trim_end(l.subrange(0, crate::parser::first_index(l, ';')))
        } else {
            crate::text::trim_end(l)
        };
        if trim(l2).len() == 0 {
            None
        } else {
            Some(l2)
        }
    }
}

/// The line starts a new rule.
pub open spec fn is_rule_start(l: Seq<char>) -> bool {
    ||| starts_with(l, "[order"@)
    ||| starts_with(l, "[nearstart"@)
    ||| starts_with(l, "[nearend"@)
    ||| starts_with(l, "[note"@)
    ||| starts_with(l, "[conflict"@)
    ||| starts_with(l, "[requires"@)
    ||| starts_with(l, "[patch"@)
}

/// The chunks so far and the open one.
pub open spec fn file_fold(ls: Seq<Seq<char>>) -> (Seq<Seq<char>>, Option<Seq<char>>)
    decreases ls.len(),
{
    if ls.len() == 0 {
        (seq![], None)
    } else {
        let st = file_fold(ls.drop_last());
        match prep_line(ls.last()) {
            None => st,
            Some(l) => {
                let closed = st.1 is Some && is_rule_start(l);
                let done = if closed {
                    st.0.push(st.1->0)
                } else {
                    st.0
                };
                let open = if closed || st.1 is None {
                    l + seq!['\n']
                } else {
                    st.1->0 + l + seq!['\n']
                };
                (done, Some(open))
            },
        }
    }
}

/// The chunks of a rules file: each runs from a line that starts a rule to the next.
pub open spec fn file_chunks(text: Seq<char>) -> Seq<Seq<char>> {
    let st = file_fold(lines(text));
    if st.1 is Some {
        st.0.push(st.1->0)
    } else {
        st.0
    }
}

/// The rules of the chunks that parse, in order; the others are skipped.
pub open spec fn chunk_rules(exts: Seq<Seq<char>>, chunks: Seq<Seq<char>>) -> Seq<RuleV>
    decreases chunks.len(),
{
    if chunks.len() == 0 {
        seq![]
    } else {
        let prev = chunk_rules(exts, chunks.drop_last());
        match chunk_rule(exts, chunks.last()) {
            POut::Done(r) => prev.push(r),
            _ => prev,
        }
    }
}

/// No chunk is longer than the text it came from (see [lemma_chunks_ok]).
pub open spec fn chunks_ok(exts: Seq<Seq<char>>, chunks: Seq<Seq<char>>) -> bool {
    forall|k: int| 0 <= k < chunks.len() ==> !(chunk_rule(exts, #[trigger] chunks[k]) is Stuck)
}

pub proof fn lemma_close_from(s: Seq<char>, i: int, scope: int)
    ensures
        close_from(s, i, scope) == -1 || (i <= close_from(s, i, scope) < s.len()),
    decreases s.len() - i,
{
    if 0 <= i < s.len() {
        let sc = if s[i] == '[' {
            scope + 1
        } else if s[i] == ']' {
            scope - 1
        } else {
            scope
        };
        lemma_close_from(s, i + 1, sc);
    }
}

////////////////////////////////////////////////////////////////////////
// PARSING ALWAYS ENDS IN A VALUE OR AN ERROR
////////////////////////////////////////////////////////////////////////

/// Parsing a body gives its expressions or an error.
pub proof fn lemma_exprs_done(exts: Seq<Seq<char>>, cs: Seq<char>)
    ensures
        !(parse_exprs(exts, cs) is Stuck),
    decreases brackets(cs), 3nat, 0nat,
{
    lemma_chunks_within(exts, cs);
    lemma_list_done(exts, chunks_of(exts, cs), brackets(cs));
}

proof fn lemma_list_done(exts: Seq<Seq<char>>, chunks: Seq<(Seq<char>, bool)>, bound: nat)
    requires
        chunks_within(chunks, bound),
    ensures
        !(parse_chunk_list(exts, chunks, bound) is Stuck),
    decreases bound, 2nat, chunks.len(),
{
    if chunks.len() > 0 {
        let d = chunks.drop_last();
        assert(chunks_within(d, bound)) by {
            assert forall|k: int| 0 <= k < d.len() implies brackets((#[trigger] d[k]).0) <= bound by {
                assert(d[k] == chunks[k]);
            }
        }
        assert(brackets(chunks[chunks.len() - 1].0) <= bound);
        lemma_list_done(exts, d, bound);
        lemma_expr_done(exts, chunks.last().0, chunks.last().1);
    }
}

/// Parsing one piece gives an expression or an error.
pub proof fn lemma_expr_done(exts: Seq<Seq<char>>, s: Seq<char>, is_expr: bool)
    ensures
        !(parse_expr(exts, s, is_expr) is Stuck),
    decreases brackets(s), 1nat, 0nat,
{
    lemma_group_done(exts, s);
    lemma_desc_done(exts, s);
    lemma_size_done(exts, s);
    lemma_ver_done(exts, s);
}

proof fn lemma_group_done(exts: Seq<Seq<char>>, s: Seq<char>)
    ensures
        !(parse_group(exts, s) is Stuck),
    decreases brackets(s), 0nat, 0nat,
{
    if starts_with(s, "["@) && !body_cut_fails(s, 4) {
        lemma_inner_brackets(s, 4);
        lemma_exprs_done(exts, inner_text(s, 4));
    }
}

proof fn lemma_desc_done(exts: Seq<Seq<char>>, s: Seq<char>)
    ensures
        !(parse_desc_expr(exts, s) is Stuck),
    decreases brackets(s), 0nat, 0nat,
{
    if starts_with(s, "["@) && !body_cut_fails(s, 5) {
        let body = trim_start(expr_body(s, 5));
        lemma_inner_brackets(s, 5);
        lemma_parts_brackets(body);
        if let Some(p) = desc_parts(body) {
            lemma_reencode_brackets(p.0);
            lemma_exprs_done(exts, reencode(p.0));
        }
    }
}

proof fn lemma_size_done(exts: Seq<Seq<char>>, s: Seq<char>)
    ensures
        !(parse_size_expr(exts, s) is Stuck),
    decreases brackets(s), 0nat, 0nat,
{
    if starts_with(s, "["@) && !body_cut_fails(s, 5) {
        let body = trim_start(expr_body(s, 5));
        lemma_inner_brackets(s, 5);
        lemma_parts_brackets(body);
        if let SizeParts::Parts(e, _, _) = size_parts(body) {
            lemma_reencode_brackets(e);
            lemma_exprs_done(exts, reencode(e));
        }
    }
}

proof fn lemma_ver_done(exts: Seq<Seq<char>>, s: Seq<char>)
    ensures
        !(parse_ver_expr(exts, s) is Stuck),
    decreases brackets(s), 0nat, 0nat,
{
    if starts_with(s, "["@) && !body_cut_fails(s, 4) {
        let body = trim_start(expr_body(s, 4));
        lemma_inner_brackets(s, 4);
        lemma_parts_brackets(body);
        if let Some(p) = ver_parts(body) {
            lemma_reencode_brackets(p.0);
            lemma_exprs_done(exts, reencode(p.0));
        }
    }
}

/// A rule's body gives the rule or an error.
pub proof fn lemma_body_done(exts: Seq<Seq<char>>, k: RuleKind, body: Seq<char>)
    ensures
        !(body_rule(exts, k, body) is Stuck),
{
    lemma_exprs_done(exts, reencode(body));
}

/// A chunk of a rules file gives a rule or an error.
pub proof fn lemma_chunk_done(exts: Seq<Seq<char>>, chunk: Seq<char>)
    ensures
        !(chunk_rule(exts, chunk) is Stuck),
{
    if chunk.len() > 0 && chunk[0] == '[' {
        if let Some(h) = rule_head(chunk.drop_first()) {
            if let Some(k) = rule_kind(pop_last(h.0)) {
                lemma_body_done(exts, k, h.2);
                let st = body_fold(nonblank_lines(lines(h.2)));
                let k2 = match st.found {
                    Some(c) => with_comment(k, c),
                    None => k,
                };
                lemma_body_done(exts, k2, trim(st.body));
            }
        }
    }
}

/// Every chunk of a rules file gives a rule or an error.
pub proof fn lemma_chunks_ok(exts: Seq<Seq<char>>, chunks: Seq<Seq<char>>)
    ensures
        chunks_ok(exts, chunks),
{
    assert forall|k: int| 0 <= k < chunks.len() implies !(chunk_rule(
        exts,
        #[trigger] chunks[k],
    ) is Stuck) by {
        lemma_chunk_done(exts, chunks[k]);
    }
}

} // verus!
