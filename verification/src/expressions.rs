//! Expressions: what a warning rule asks of a load order. Each evaluates to the names
//! of the plugins that make it true, or to nothing when it is false.
use vstd::prelude::*;

use crate::text::{chars_to_string, decimal, decimal_chars, str_chars};
use crate::versions::{lenient_version, semver_matches, semver_req_matches, semver_valid};
use crate::wildcard::{
    contains_seq, opt_strings_view, plugin_names, regex_compiles, regex_first_group, ver_tag,
    wild_regex, regex_is_match, regex_match, strings_view,
    wild_contains, wild_contains_data, wild_contains_data_spec, wild_contains_spec,
};
use crate::{plugins_view, PluginData, PluginView};

verus! {

#[derive(Debug)]
pub enum Expression {
    Atomic(Atomic),
    ALL(ALL),
    ANY(ANY),
    NOT(NOT),
    DESC(DESC),
    SIZE(SIZE),
    VER(VER),
}

/// The atomic expression (EXISTS): true when the load order holds the plugin.
#[derive(Debug)]
pub struct Atomic {
    pub item: String,
}

/// True when all of its expressions are true.
#[derive(Debug)]
pub struct ALL {
    pub expressions: Vec<Expression>,
}

/// True when any of its expressions is true.
#[derive(Debug)]
pub struct ANY {
    pub expressions: Vec<Expression>,
}

/// True when its expression is false.
#[derive(Debug)]
pub struct NOT {
    pub expression: Box<Expression>,
}

/// Matches the description in a plugin's header against a regular expression:
/// `[DESC /regex/ A.esp]` or `[DESC !/regex/ A.esp]`.
#[derive(Debug)]
pub struct DESC {
    pub expression: Atomic,
    pub regex: String,
    pub is_negated: bool,
}

/// Matches the file size of a plugin: `[SIZE ### A.esp]` or `[SIZE !### A.esp]`.
#[derive(Debug)]
pub struct SIZE {
    pub expression: Atomic,
    pub size: u64,
    pub is_negated: bool,
}

#[derive(Debug, Clone, Copy, PartialEq, Eq, Structural)]
pub enum EVerOperator {
    Less,
    Equal,
    Greater,
}

/// Compares the version of a plugin: `[VER operator version plugin.esp]`.
#[derive(Debug)]
pub struct VER {
    pub expression: Atomic,
    pub operator: EVerOperator,
    pub version: String,
}

////////////////////////////////////////////////////////////////////////
// TEXT
////////////////////////////////////////////////////////////////////////

pub open spec fn operator_text(op: EVerOperator) -> Seq<char> {
    match op {
        EVerOperator::Less => "<"@,
        EVerOperator::Equal => "="@,
        EVerOperator::Greater => ">"@,
    }
}

/// How an expression is written out: the form the rules files use.
pub open spec fn expr_text(e: Expression) -> Seq<char>
    decreases e,
{
    match e {
        Expression::Atomic(a) => a.item@,
        Expression::ALL(x) => "[ALL "@ + join_texts(x.expressions@) + "]"@,
        Expression::ANY(x) => "[ANY "@ + join_texts(x.expressions@) + "]"@,
        Expression::NOT(x) => "[NOT "@ + expr_text(*x.expression) + "]"@,
        Expression::DESC(d) => if d.is_negated {
            "[DESC !/"@ + d.regex@ + "/ "@ + d.expression.item@ + "]"@
        } else {
            "[DESC /"@ + d.regex@ + "/ "@ + d.expression.item@ + "]"@
        },
        Expression::SIZE(s) => if s.is_negated {
            "[SIZE !"@ + decimal(s.size as nat) + " "@ + s.expression.item@ + "]"@
        } else {
            "[SIZE "@ + decimal(s.size as nat) + " "@ + s.expression.item@ + "]"@
        },
        Expression::VER(v) => "[VER "@ + operator_text(v.operator) + " "@ + v.version@ + " "@
            + v.expression.item@ + "]"@,
    }
}

/// The texts of the expressions, separated by a line feed and a tab.
pub open spec fn join_texts(es: Seq<Expression>) -> Seq<char>
    decreases es,
{
    if es.len() == 0 {
        seq![]
    } else if es.len() == 1 {
        expr_text(es[0])
    } else {
        join_texts(es.subrange(0, es.len() - 1)) + "\n\t"@ + expr_text(es[es.len() - 1])
    }
}

////////////////////////////////////////////////////////////////////////
// EVALUATION
////////////////////////////////////////////////////////////////////////

/// The names of the plugins of `ps`, in order, that `keep` selects.
pub open spec fn select_names(ps: Seq<PluginView>, keep: spec_fn(PluginView) -> bool) -> Seq<
    Seq<char>,
>
    decreases ps.len(),
{
    if ps.len() == 0 {
        seq![]
    } else {
        let r = select_names(ps.drop_last(), keep);
        if keep(ps.last()) {
            r.push(ps.last().name)
        } else {
            r
        }
    }
}

/// Keeps the plugins that `atom` names and `keep` selects; false when none is left.
pub open spec fn predicate_eval(
    items: Seq<PluginView>,
    atom: Seq<char>,
    keep: spec_fn(PluginView) -> bool,
) -> Option<Seq<Seq<char>>> {
    match wild_contains_data_spec(items, atom) {
        Some(ps) => {
            let r = select_names(ps, keep);
            if r.len() == 0 {
                None
            } else {
                Some(r)
            }
        },
        None => None,
    }
}

pub open spec fn desc_keep(regex: Seq<char>, negated: bool) -> spec_fn(PluginView) -> bool {
    |p: PluginView|
        match p.description {
            Some(d) => regex_compiles(regex) && (regex_is_match(regex, d) != negated),
            None => false,
        }
}

pub open spec fn size_keep(size: u64, negated: bool) -> spec_fn(PluginView) -> bool {
    |p: PluginView|
        if negated {
            p.size != size
        } else {
            p.size == size
        }
}

/// The version in a plugin's name: where the name pattern holds `<ver>`, the text the
/// version number takes in the name, read leniently.
pub open spec fn name_version(pattern: Seq<char>, name: Seq<char>) -> Option<Seq<char>> {
    if contains_seq(pattern, ver_tag()) && regex_compiles(wild_regex(pattern)) {
        match regex_first_group(wild_regex(pattern), name) {
            Some(t) => lenient_version(t),
            None => None,
        }
    } else {
        None
    }
}

/// A plugin's version: the one in its header, else the one in its name.
pub open spec fn plugin_version(p: PluginView, pattern: Seq<char>) -> Option<Seq<char>> {
    match p.version {
        Some(v) => Some(v),
        None => name_version(pattern, p.name),
    }
}

pub open spec fn ver_keep(op: EVerOperator, version: Seq<char>, pattern: Seq<char>) -> spec_fn(
    PluginView,
) -> bool {
    |p: PluginView|
        match plugin_version(p, pattern) {
            Some(v) => semver_matches(operator_text(op), version, v),
            None => false,
        }
}

/// What an expression evaluates to against a load order.
pub open spec fn eval_spec(e: Expression, items: Seq<PluginView>) -> Option<Seq<Seq<char>>>
    decreases e,
{
    match e {
        Expression::Atomic(a) => wild_contains_spec(
            items.map_values(|p: PluginView| p.name),
            a.item@,
        ),
        Expression::ALL(x) => eval_all(x.expressions@, items),
        Expression::ANY(x) => eval_any(x.expressions@, items),
        Expression::NOT(x) => match eval_spec(*x.expression, items) {
            Some(_) => None,
            None => Some(seq![expr_text(e)]),
        },
        Expression::DESC(d) => predicate_eval(
            items,
            d.expression.item@,
            desc_keep(d.regex@, d.is_negated),
        ),
        Expression::SIZE(s) => predicate_eval(
            items,
            s.expression.item@,
            size_keep(s.size, s.is_negated),
        ),
        Expression::VER(v) => predicate_eval(
            items,
            v.expression.item@,
            ver_keep(v.operator, v.version@, v.expression.item@),
        ),
    }
}

/// All true: the names of each in turn; false when any is false.
pub open spec fn eval_all(es: Seq<Expression>, items: Seq<PluginView>) -> Option<Seq<Seq<char>>>
    decreases es,
{
    if es.len() == 0 {
        Some(seq![])
    } else {
        match (eval_all(es.subrange(0, es.len() - 1), items), eval_spec(es[es.len() - 1], items)) {
            (Some(a), Some(b)) => Some(a + b),
            _ => None,
        }
    }
}

/// Any true: the names of the true ones in turn; false when none is true.
pub open spec fn eval_any(es: Seq<Expression>, items: Seq<PluginView>) -> Option<Seq<Seq<char>>>
    decreases es,
{
    if es.len() == 0 {
        None
    } else {
        match (eval_any(es.subrange(0, es.len() - 1), items), eval_spec(es[es.len() - 1], items)) {
            (Some(a), Some(b)) => Some(a + b),
            (Some(a), None) => Some(a),
            (None, Some(b)) => Some(b),
            (None, None) => None,
        }
    }
}

/// Evaluating the expression does not panic: every `VER` in it whose plugins have a
/// version, in their header or their name, compares against a version that `semver`
/// reads.
pub open spec fn expr_safe(e: Expression, items: Seq<PluginView>) -> bool
    decreases e,
{
    match e {
        Expression::ALL(x) => all_safe(x.expressions@, items),
        Expression::ANY(x) => all_safe(x.expressions@, items),
        Expression::NOT(x) => expr_safe(*x.expression, items),
        Expression::VER(v) => semver_valid(v.version@) || match wild_contains_data_spec(
            items,
            v.expression.item@,
        ) {
            Some(ps) => forall|i: int|
                0 <= i < ps.len() ==> plugin_version(#[trigger] ps[i], v.expression.item@) is None,
            None => true,
        },
        _ => true,
    }
}

pub open spec fn all_safe(es: Seq<Expression>, items: Seq<PluginView>) -> bool
    decreases es,
{
    if es.len() == 0 {
        true
    } else {
        all_safe(es.subrange(0, es.len() - 1), items) && expr_safe(es[es.len() - 1], items)
    }
}

/// Every `VER` in the expression compares against a version that `semver` reads.
pub open spec fn expr_wf(e: Expression) -> bool
    decreases e,
{
    match e {
        Expression::ALL(x) => all_wf(x.expressions@),
        Expression::ANY(x) => all_wf(x.expressions@),
        Expression::NOT(x) => expr_wf(*x.expression),
        Expression::VER(v) => semver_valid(v.version@),
        _ => true,
    }
}

pub open spec fn all_wf(es: Seq<Expression>) -> bool
    decreases es,
{
    if es.len() == 0 {
        true
    } else {
        all_wf(es.subrange(0, es.len() - 1)) && expr_wf(es[es.len() - 1])
    }
}

pub proof fn lemma_wf_safe(e: Expression, items: Seq<PluginView>)
    requires
        expr_wf(e),
    ensures
        expr_safe(e, items),
    decreases e,
{
    match e {
        Expression::ALL(x) => lemma_all_wf_safe(x.expressions@, items),
        Expression::ANY(x) => lemma_all_wf_safe(x.expressions@, items),
        Expression::NOT(x) => lemma_wf_safe(*x.expression, items),
        _ => {},
    }
}

pub proof fn lemma_all_wf_safe(es: Seq<Expression>, items: Seq<PluginView>)
    requires
        all_wf(es),
    ensures
        all_safe(es, items),
    decreases es,
{
    if es.len() > 0 {
        lemma_all_wf_safe(es.subrange(0, es.len() - 1), items);
        lemma_wf_safe(es[es.len() - 1], items);
    }
}


////////////////////////////////////////////////////////////////////////
// CONSTRUCTION
////////////////////////////////////////////////////////////////////////

/// An atomic expression for the plugin name.
impl From<&str> for Atomic {
    fn from(value: &str) -> (r: Atomic)
        ensures
            r.item@ == value@,
    {
        Atomic { item: value.to_owned() }
    }
}

/// A `String` is only known by its characters, so the text conversion is stated by the
/// `ensures` of [Atomic::from] rather than by a value here.
impl vstd::std_specs::convert::FromSpecImpl<&str> for Atomic {
    open spec fn obeys_from_spec() -> bool {
        false
    }

    open spec fn from_spec(value: &str) -> Self {
        Atomic { item: choose|s: String| s@ == value@ }
    }
}

/// An atomic expression for the plugin name.
impl From<String> for Atomic {
    fn from(value: String) -> (r: Atomic)
        ensures
            r.item == value,
    {
        Atomic { item: value }
    }
}

impl vstd::std_specs::convert::FromSpecImpl<String> for Atomic {
    open spec fn obeys_from_spec() -> bool {
        true
    }

    open spec fn from_spec(value: String) -> Self {
        Atomic { item: value }
    }
}

impl Atomic {

    pub fn get_item(&self) -> (r: String)
        ensures
            r@ == self.item@,
    {
        self.item.clone()
    }
}

impl Clone for Atomic {
    fn clone(&self) -> (r: Self)
        ensures
            r == *self,
    {
        Atomic { item: self.item.clone() }
    }
}

impl ALL {
    pub fn new(expressions: Vec<Expression>) -> (r: Self)
        ensures
            r.expressions == expressions,
    {
        Self { expressions }
    }
}

impl ANY {
    pub fn new(expressions: Vec<Expression>) -> (r: Self)
        ensures
            r.expressions == expressions,
    {
        Self { expressions }
    }
}

impl NOT {
    pub fn new(expression: Expression) -> (r: Self)
        ensures
            *r.expression == expression,
    {
        Self { expression: Box::new(expression) }
    }
}

impl DESC {
    pub fn new(expression: Atomic, regex: String, is_negated: bool) -> (r: Self)
        ensures
            r.expression == expression,
            r.regex == regex,
            r.is_negated == is_negated,
    {
        Self { expression, regex, is_negated }
    }
}

impl SIZE {
    pub fn new(expression: Atomic, size: u64, is_negated: bool) -> (r: Self)
        ensures
            r.expression == expression,
            r.size == size,
            r.is_negated == is_negated,
    {
        Self { expression, size, is_negated }
    }
}

impl VER {
    pub fn new(expression: Atomic, operator: EVerOperator, version: String) -> (r: Self)
        ensures
            r.expression == expression,
            r.operator == operator,
            r.version == version,
    {
        Self { expression, operator, version }
    }
}

impl From<Atomic> for Expression {
    fn from(val: Atomic) -> Self {
        Expression::Atomic(val)
    }
}

impl vstd::std_specs::convert::FromSpecImpl<Atomic> for Expression {
    open spec fn obeys_from_spec() -> bool {
        true
    }

    open spec fn from_spec(val: Atomic) -> Self {
        Expression::Atomic(val)
    }
}

impl From<ALL> for Expression {
    fn from(val: ALL) -> Self {
        Expression::ALL(val)
    }
}

impl vstd::std_specs::convert::FromSpecImpl<ALL> for Expression {
    open spec fn obeys_from_spec() -> bool {
        true
    }

    open spec fn from_spec(val: ALL) -> Self {
        Expression::ALL(val)
    }
}

impl From<ANY> for Expression {
    fn from(val: ANY) -> Self {
        Expression::ANY(val)
    }
}

impl vstd::std_specs::convert::FromSpecImpl<ANY> for Expression {
    open spec fn obeys_from_spec() -> bool {
        true
    }

    open spec fn from_spec(val: ANY) -> Self {
        Expression::ANY(val)
    }
}

impl From<NOT> for Expression {
    fn from(val: NOT) -> Self {
        Expression::NOT(val)
    }
}

impl vstd::std_specs::convert::FromSpecImpl<NOT> for Expression {
    open spec fn obeys_from_spec() -> bool {
        true
    }

    open spec fn from_spec(val: NOT) -> Self {
        Expression::NOT(val)
    }
}

impl From<DESC> for Expression {
    fn from(val: DESC) -> Self {
        Expression::DESC(val)
    }
}

impl vstd::std_specs::convert::FromSpecImpl<DESC> for Expression {
    open spec fn obeys_from_spec() -> bool {
        true
    }

    open spec fn from_spec(val: DESC) -> Self {
        Expression::DESC(val)
    }
}

impl From<SIZE> for Expression {
    fn from(val: SIZE) -> Self {
        Expression::SIZE(val)
    }
}

impl vstd::std_specs::convert::FromSpecImpl<SIZE> for Expression {
    open spec fn obeys_from_spec() -> bool {
        true
    }

    open spec fn from_spec(val: SIZE) -> Self {
        Expression::SIZE(val)
    }
}

impl From<VER> for Expression {
    fn from(val: VER) -> Self {
        Expression::VER(val)
    }
}

impl vstd::std_specs::convert::FromSpecImpl<VER> for Expression {
    open spec fn obeys_from_spec() -> bool {
        true
    }

    open spec fn from_spec(val: VER) -> Self {
        Expression::VER(val)
    }
}

////////////////////////////////////////////////////////////////////////
// TEXT
////////////////////////////////////////////////////////////////////////

/// Appends the characters of `s`.
pub fn push_str(out: &mut Vec<char>, s: &str)
    ensures
        final(out)@ == old(out)@ + s@,
{
    let mut v = str_chars(s);
    out.append(&mut v);
}

/// Appends the characters of `v`.
pub fn push_chars(out: &mut Vec<char>, v: &[char])
    ensures
        final(out)@ == old(out)@ + v@,
{
    let mut i: usize = 0;
    let ghost start = out@;
    while i < v.len()
        invariant
            0 <= i <= v@.len(),
            out@ == start + v@.subrange(0, i as int),
        decreases v@.len() - i,
    {
        out.push(v[i]);
        i = i + 1;
        assert(out@ =~= start + v@.subrange(0, i as int));
    }
    assert(v@.subrange(0, v@.len() as int) =~= v@);
}

impl EVerOperator {
    /// How the operator is written in a `[VER` expression.
    pub fn to_string(&self) -> (r: String)
        ensures
            r@ == operator_text(*self),
    {
        proof {
            reveal_strlit("<");
            reveal_strlit("=");
            reveal_strlit(">");
        }
        match self {
            EVerOperator::Less => String::from_str("<"),
            EVerOperator::Equal => String::from_str("="),
            EVerOperator::Greater => String::from_str(">"),
        }
    }
}

fn push_operator(out: &mut Vec<char>, op: EVerOperator)
    ensures
        final(out)@ == old(out)@ + operator_text(op),
{
    match op {
        EVerOperator::Less => push_str(out, "<"),
        EVerOperator::Equal => push_str(out, "="),
        EVerOperator::Greater => push_str(out, ">"),
    }
}

fn push_expr_text(out: &mut Vec<char>, e: &Expression)
    ensures
        final(out)@ == old(out)@ + expr_text(*e),
    decreases e,
{
    let ghost start = out@;
    match e {
        Expression::Atomic(a) => {
            push_str(out, a.item.as_str());
        },
        Expression::ALL(x) => {
            push_str(out, "[ALL ");
            push_joined(out, &x.expressions);
            push_str(out, "]");
        },
        Expression::ANY(x) => {
            push_str(out, "[ANY ");
            push_joined(out, &x.expressions);
            push_str(out, "]");
        },
        Expression::NOT(x) => {
            push_str(out, "[NOT ");
            push_expr_text(out, &x.expression);
            push_str(out, "]");
        },
        Expression::DESC(d) => {
            if d.is_negated {
                push_str(out, "[DESC !/");
            } else {
                push_str(out, "[DESC /");
            }
            push_str(out, d.regex.as_str());
            push_str(out, "/ ");
            push_str(out, d.expression.item.as_str());
            push_str(out, "]");
        },
        Expression::SIZE(z) => {
            if z.is_negated {
                push_str(out, "[SIZE !");
            } else {
                push_str(out, "[SIZE ");
            }
            let digits = decimal_chars(z.size);
            push_chars(out, digits.as_slice());
            push_str(out, " ");
            push_str(out, z.expression.item.as_str());
            push_str(out, "]");
        },
        Expression::VER(v) => {
            push_str(out, "[VER ");
            push_operator(out, v.operator);
            push_str(out, " ");
            push_str(out, v.version.as_str());
            push_str(out, " ");
            push_str(out, v.expression.item.as_str());
            push_str(out, "]");
        },
    }
    assert(out@ =~= start + expr_text(*e));
}

fn push_joined(out: &mut Vec<char>, es: &Vec<Expression>)
    ensures
        final(out)@ == old(out)@ + join_texts(es@),
    decreases es,
{
    let ghost start = out@;
    let mut i: usize = 0;
    while i < es.len()
        invariant
            0 <= i <= es@.len(),
            out@ == start + join_texts(es@.subrange(0, i as int)),
        decreases es@.len() - i,
    {
        let ghost before = out@;
        if i > 0 {
            push_str(out, "\n\t");
        }
        push_expr_text(out, &es[i]);
        proof {
            let ghost pre = es@.subrange(0, i + 1);
            assert(pre.subrange(0, pre.len() - 1) =~= es@.subrange(0, i as int));
            assert(pre[pre.len() - 1] == es@[i as int]);
            if i == 0 {
                assert(join_texts(es@.subrange(0, 0)) =~= Seq::<char>::empty());
            }
        }
        i = i + 1;
        assert(out@ =~= start + join_texts(es@.subrange(0, i as int)));
    }
    assert(es@.subrange(0, es@.len() as int) =~= es@);
}

impl Expression {
    /// How the expression is written out.
    pub fn to_string(&self) -> (r: String)
        ensures
            r@ == expr_text(*self),
    {
        let mut out: Vec<char> = Vec::new();
        push_expr_text(&mut out, self);
        assert(out@ =~= expr_text(*self));
        chars_to_string(out.as_slice())
    }
}

////////////////////////////////////////////////////////////////////////
// EVALUATION
////////////////////////////////////////////////////////////////////////

/// The names of the plugins, in order.
pub fn names_of(items: &[PluginData]) -> (r: Vec<String>)
    ensures
        strings_view(r@) == plugins_view(items@).map_values(|p: PluginView| p.name),
{
    let mut r: Vec<String> = Vec::new();
    let mut i: usize = 0;
    while i < items.len()
        invariant
            0 <= i <= items@.len(),
            r@.len() == i,
            forall|k: int| 0 <= k < i ==> (#[trigger] r@[k])@ == items@[k].name@,
        decreases items@.len() - i,
    {
        r.push(items[i].name.clone());
        i = i + 1;
    }
    assert(strings_view(r@) =~= plugins_view(items@).map_values(|p: PluginView| p.name));
    r
}

fn append_strings(results: &mut Vec<String>, more: Vec<String>)
    ensures
        strings_view(final(results)@) == strings_view(old(results)@) + strings_view(more@),
{
    let mut more = more;
    let ghost a = results@;
    let ghost b = more@;
    results.append(&mut more);
    assert(strings_view(results@) =~= strings_view(a) + strings_view(b));
}

/// The plugin name a predicate expression is about.
pub open spec fn atom_of(e: Expression) -> Seq<char> {
    match e {
        Expression::DESC(d) => d.expression.item@,
        Expression::SIZE(z) => z.expression.item@,
        Expression::VER(v) => v.expression.item@,
        _ => seq![],
    }
}

/// Which plugins a predicate expression keeps.
pub open spec fn keep_of(e: Expression) -> spec_fn(PluginView) -> bool {
    match e {
        Expression::DESC(d) => desc_keep(d.regex@, d.is_negated),
        Expression::SIZE(z) => size_keep(z.size, z.is_negated),
        Expression::VER(v) => ver_keep(v.operator, v.version@, v.expression.item@),
        _ => size_keep(0, false),
    }
}

/// The version in a plugin's name, as the name pattern gives it.
fn name_version_exec(pattern: &String, name: &String) -> (r: Option<String>)
    ensures
        crate::versions::opt_view(r) == name_version(pattern@, name@),
{
    let pc = str_chars(pattern.as_str());
    let tag = crate::wildcard::ver_tag_chars();
    if !crate::wildcard::contains_seq_exec(pc.as_slice(), tag.as_slice()) {
        return None;
    }
    let re = crate::wildcard::wild_regex_exec(pc.as_slice());
    match crate::wildcard::regex_capture(re.as_str(), name.as_str()) {
        Some(t) => crate::versions::lenient_version_text(t.as_str()),
        None => None,
    }
}

/// A plugin's version: the one in its header, else the one in its name.
fn plugin_version_exec(p: &PluginData, pattern: &String) -> (r: Option<String>)
    ensures
        crate::versions::opt_view(r) == plugin_version(p@, pattern@),
{
    match &p.version {
        Some(v) => Some(v.clone()),
        None => name_version_exec(pattern, &p.name),
    }
}

/// Keeps the plugins that `keep` selects, as the predicate expressions do.
fn eval_predicate(
    e: &Expression,
    items: &[PluginData],
) -> (r: Option<Vec<String>>)
    requires
        e is DESC || e is SIZE || e is VER,
        expr_safe(*e, plugins_view(items@)),
    ensures
        opt_strings_view(r) == eval_spec(*e, plugins_view(items@)),
{
    let (atom, kind) = match e {
        Expression::DESC(d) => (&d.expression, 0u8),
        Expression::SIZE(z) => (&z.expression, 1u8),
        Expression::VER(v) => (&v.expression, 2u8),
        _ => {
            assert(false);
            return None;
        },
    };
    let ghost keep = keep_of(*e);
    let ghost iv = plugins_view(items@);
    assert(eval_spec(*e, iv) == predicate_eval(iv, atom.item@, keep));
    match wild_contains_data(items, &atom.item) {
        None => None,
        Some(plugins) => {
            let ghost pv = plugins_view(plugins@);
            let mut results: Vec<String> = Vec::new();
            let mut i: usize = 0;
            while i < plugins.len()
                invariant
                    0 <= i <= plugins@.len(),
                    pv == plugins_view(plugins@),
                    wild_contains_data_spec(iv, atom.item@) == Some(pv),
                    expr_safe(*e, iv),
                    e is DESC || e is SIZE || e is VER,
                    keep == keep_of(*e),
                    atom.item@ == atom_of(*e),
                    strings_view(results@) == select_names(pv.subrange(0, i as int), keep),
                decreases plugins@.len() - i,
            {
                let p = &plugins[i];
                let ghost v = pv[i as int];
                assert(v == p@);
                let selected = match e {
                    Expression::DESC(d) => match &p.description {
                        Some(desc) => match regex_match(d.regex.as_str(), desc.as_str()) {
                            Some(m) => m != d.is_negated,
                            None => false,
                        },
                        None => false,
                    },
                    Expression::SIZE(z) => if z.is_negated {
                        p.size != z.size
                    } else {
                        p.size == z.size
                    },
                    Expression::VER(x) => match plugin_version_exec(p, &x.expression.item) {
                        Some(pver) => {
                            proof {
                                assert(expr_safe(*e, iv));
                                assert(wild_contains_data_spec(iv, x.expression.item@) == Some(pv));
                                if !semver_valid(x.version@) {
                                    assert(plugin_version(pv[i as int], x.expression.item@) is None);
                                }
                            }
                            let op = match x.operator {
                                EVerOperator::Less => "<",
                                EVerOperator::Equal => "=",
                                EVerOperator::Greater => ">",
                            };
                            assert(op@ == operator_text(x.operator));
                            semver_req_matches(op, x.version.as_str(), pver.as_str())
                        },
                        None => false,
                    },
                    _ => false,
                };
                assert(selected == keep(v));
                let ghost prev = results@;
                let ghost pre = pv.subrange(0, i + 1);
                assert(pre.drop_last() =~= pv.subrange(0, i as int));
                assert(pre.last() == v);
                if selected {
                    results.push(p.name.clone());
                    assert(strings_view(results@) =~= strings_view(prev).push(v.name));
                }
                i = i + 1;
            }
            assert(pv.subrange(0, plugins@.len() as int) =~= pv);
            if results.len() == 0 {
                None
            } else {
                Some(results)
            }
        },
    }
}

/// Evaluates an expression against a load order.
pub fn eval_expression(e: &Expression, items: &[PluginData]) -> (r: Option<Vec<String>>)
    requires
        expr_safe(*e, plugins_view(items@)),
    ensures
        opt_strings_view(r) == eval_spec(*e, plugins_view(items@)),
    decreases e,
{
    match e {
        Expression::Atomic(a) => {
            let names = names_of(items);
            wild_contains(names.as_slice(), &a.item)
        },
        Expression::ALL(x) => eval_all_exec(&x.expressions, items),
        Expression::ANY(x) => eval_any_exec(&x.expressions, items),
        Expression::NOT(x) => {
            match eval_expression(&x.expression, items) {
                Some(_) => None,
                None => {
                    let t = e.to_string();
                    let v = vec![t];
                    assert(strings_view(v@) =~= seq![expr_text(*e)]);
                    Some(v)
                },
            }
        },
        _ => eval_predicate(e, items),
    }
}

fn eval_all_exec(es: &Vec<Expression>, items: &[PluginData]) -> (r: Option<Vec<String>>)
    requires
        all_safe(es@, plugins_view(items@)),
    ensures
        opt_strings_view(r) == eval_all(es@, plugins_view(items@)),
    decreases es,
{
    let ghost iv = plugins_view(items@);
    let mut result = true;
    let mut results: Vec<String> = Vec::new();
    let mut i: usize = 0;
    proof {
        assert(es@.subrange(0, es@.len() as int) =~= es@);
        lemma_all_safe_prefix(es@, iv, es@.len() as int);
    }
    while i < es.len()
        invariant
            0 <= i <= es@.len(),
            iv == plugins_view(items@),
            forall|k: int| 0 <= k < es@.len() ==> expr_safe(#[trigger] es@[k], iv),
            result == (eval_all(es@.subrange(0, i as int), iv) is Some),
            result ==> strings_view(results@) == eval_all(es@.subrange(0, i as int), iv)->0,
        decreases es@.len() - i,
    {
        let ghost pre = es@.subrange(0, i + 1);
        assert(pre.subrange(0, pre.len() - 1) =~= es@.subrange(0, i as int));
        assert(pre[pre.len() - 1] == es@[i as int]);
        match eval_expression(&es[i], items) {
            Some(ps) => {
                append_strings(&mut results, ps);
            },
            None => {
                result = false;
            },
        }
        i = i + 1;
    }
    assert(es@.subrange(0, es@.len() as int) =~= es@);
    if result {
        Some(results)
    } else {
        None
    }
}

fn eval_any_exec(es: &Vec<Expression>, items: &[PluginData]) -> (r: Option<Vec<String>>)
    requires
        all_safe(es@, plugins_view(items@)),
    ensures
        opt_strings_view(r) == eval_any(es@, plugins_view(items@)),
    decreases es,
{
    let ghost iv = plugins_view(items@);
    let mut result = false;
    let mut results: Vec<String> = Vec::new();
    let mut i: usize = 0;
    proof {
        assert(es@.subrange(0, es@.len() as int) =~= es@);
        lemma_all_safe_prefix(es@, iv, es@.len() as int);
    }
    while i < es.len()
        invariant
            0 <= i <= es@.len(),
            iv == plugins_view(items@),
            forall|k: int| 0 <= k < es@.len() ==> expr_safe(#[trigger] es@[k], iv),
            result == (eval_any(es@.subrange(0, i as int), iv) is Some),
            result ==> strings_view(results@) == eval_any(es@.subrange(0, i as int), iv)->0,
            !result ==> results@.len() == 0,
        decreases es@.len() - i,
    {
        let ghost pre = es@.subrange(0, i + 1);
        assert(pre.subrange(0, pre.len() - 1) =~= es@.subrange(0, i as int));
        assert(pre[pre.len() - 1] == es@[i as int]);
        let ghost before = results@;
        match eval_expression(&es[i], items) {
            Some(ps) => {
                result = true;
                append_strings(&mut results, ps);
                assert(strings_view(before) =~= Seq::<Seq<char>>::empty() || eval_any(
                    es@.subrange(0, i as int),
                    iv,
                ) is Some);
            },
            None => {},
        }
        i = i + 1;
    }
    assert(es@.subrange(0, es@.len() as int) =~= es@);
    if result {
        Some(results)
    } else {
        None
    }
}

/// Every expression of a list that is well formed is well formed.
pub proof fn lemma_all_wf_prefix(es: Seq<Expression>, n: int)
    requires
        0 <= n <= es.len(),
        all_wf(es.subrange(0, n)),
    ensures
        forall|k: int| 0 <= k < n ==> expr_wf(#[trigger] es[k]),
    decreases n,
{
    if n > 0 {
        let pre = es.subrange(0, n);
        assert(pre.subrange(0, pre.len() - 1) =~= es.subrange(0, n - 1));
        lemma_all_wf_prefix(es, n - 1);
    }
}

/// Whether every `[VER` in the expression compares against a version that `semver`
/// reads.
pub fn expr_wf_exec(e: &Expression) -> (r: bool)
    ensures
        r == expr_wf(*e),
    decreases e,
{
    match e {
        Expression::ALL(x) => all_wf_exec(&x.expressions),
        Expression::ANY(x) => all_wf_exec(&x.expressions),
        Expression::NOT(x) => expr_wf_exec(&x.expression),
        Expression::VER(v) => crate::versions::semver_parses(v.version.as_str()),
        _ => true,
    }
}

/// Whether every expression of the list is well formed.
pub fn all_wf_exec(es: &Vec<Expression>) -> (r: bool)
    ensures
        r == all_wf(es@),
    decreases es,
{
    let mut i: usize = 0;
    assert(es@.subrange(0, 0) =~= Seq::<Expression>::empty());
    while i < es.len()
        invariant
            0 <= i <= es@.len(),
            all_wf(es@.subrange(0, i as int)),
        decreases es@.len() - i,
    {
        let ghost pre = es@.subrange(0, i + 1);
        assert(pre.subrange(0, pre.len() - 1) =~= es@.subrange(0, i as int));
        assert(pre[pre.len() - 1] == es@[i as int]);
        if !expr_wf_exec(&es[i]) {
            proof {
                if all_wf(es@) {
                    assert(es@.subrange(0, es@.len() as int) =~= es@);
                    lemma_all_wf_prefix(es@, es@.len() as int);
                }
            }
            return false;
        }
        i = i + 1;
    }
    assert(es@.subrange(0, es@.len() as int) =~= es@);
    true
}

/// Every expression of a list whose prefix is safe is safe.
pub proof fn lemma_all_safe_prefix(es: Seq<Expression>, items: Seq<PluginView>, n: int)
    requires
        0 <= n <= es.len(),
        all_safe(es.subrange(0, n), items),
    ensures
        forall|k: int| 0 <= k < n ==> expr_safe(#[trigger] es[k], items),
    decreases n,
{
    if n > 0 {
        let pre = es.subrange(0, n);
        assert(pre.subrange(0, pre.len() - 1) =~= es.subrange(0, n - 1));
        lemma_all_safe_prefix(es, items, n - 1);
    }
}

/// An expression may be evaluated against a load order: it is true, naming the plugins
/// that made it true, or false.
pub trait TExpression {
    /// Evaluating the expression against the load order does not panic.
    spec fn eval_safe(&self, items: Seq<PluginView>) -> bool;

    /// What the expression evaluates to against the load order.
    spec fn eval_view(&self, items: Seq<PluginView>) -> Option<Seq<Seq<char>>>;

    fn eval(&self, items: &[PluginData]) -> (r: Option<Vec<String>>)
        requires
            self.eval_safe(plugins_view(items@)),
        ensures
            opt_strings_view(r) == self.eval_view(plugins_view(items@)),
    ;
}

impl TExpression for ALL {
    open spec fn eval_safe(&self, items: Seq<PluginView>) -> bool {
        all_safe(self.expressions@, items)
    }

    open spec fn eval_view(&self, items: Seq<PluginView>) -> Option<Seq<Seq<char>>> {
        eval_all(self.expressions@, items)
    }

    /// True when all expressions are true: then the names they give, in order.
    fn eval(&self, items: &[PluginData]) -> (r: Option<Vec<String>>)
    {
        eval_all_exec(&self.expressions, items)
    }
}

impl TExpression for ANY {
    open spec fn eval_safe(&self, items: Seq<PluginView>) -> bool {
        all_safe(self.expressions@, items)
    }

    open spec fn eval_view(&self, items: Seq<PluginView>) -> Option<Seq<Seq<char>>> {
        eval_any(self.expressions@, items)
    }

    /// True when any expression is true: then the names the true ones give, in order.
    fn eval(&self, items: &[PluginData]) -> (r: Option<Vec<String>>)
    {
        eval_any_exec(&self.expressions, items)
    }
}

impl TExpression for Expression {
    open spec fn eval_safe(&self, items: Seq<PluginView>) -> bool {
        expr_safe(*self, items)
    }

    open spec fn eval_view(&self, items: Seq<PluginView>) -> Option<Seq<Seq<char>>> {
        eval_spec(*self, items)
    }

    fn eval(&self, items: &[PluginData]) -> (r: Option<Vec<String>>)
    {
        eval_expression(self, items)
    }
}


impl TExpression for Atomic {
    open spec fn eval_safe(&self, items: Seq<PluginView>) -> bool {
        true
    }

    open spec fn eval_view(&self, items: Seq<PluginView>) -> Option<Seq<Seq<char>>> {
        wild_contains_spec(items.map_values(|p: PluginView| p.name), self.item@)
    }

    /// True when the load order holds the plugin: then the names it refers to.
    fn eval(&self, items: &[PluginData]) -> (r: Option<Vec<String>>)
    {
        let names = names_of(items);
        wild_contains(names.as_slice(), &self.item)
    }
}

impl TExpression for NOT {
    open spec fn eval_safe(&self, items: Seq<PluginView>) -> bool {
        expr_safe(*self.expression, items)
    }

    open spec fn eval_view(&self, items: Seq<PluginView>) -> Option<Seq<Seq<char>>> {
        match eval_spec(*self.expression, items) {
            Some(_) => None,
            None => Some(seq!["[NOT "@ + expr_text(*self.expression) + "]"@]),
        }
    }

    /// True, naming itself, when its expression is false.
    fn eval(&self, items: &[PluginData]) -> (r: Option<Vec<String>>)
    {
        match eval_expression(&self.expression, items) {
            Some(_) => None,
            None => {
                let mut out: Vec<char> = Vec::new();
                push_str(&mut out, "[NOT ");
                push_expr_text(&mut out, &self.expression);
                push_str(&mut out, "]");
                assert(out@ =~= "[NOT "@ + expr_text(*self.expression) + "]"@);
                let v = vec![chars_to_string(out.as_slice())];
                assert(strings_view(v@) =~= seq!["[NOT "@ + expr_text(*self.expression) + "]"@]);
                Some(v)
            },
        }
    }
}

impl TExpression for DESC {
    open spec fn eval_safe(&self, items: Seq<PluginView>) -> bool {
        true
    }

    open spec fn eval_view(&self, items: Seq<PluginView>) -> Option<Seq<Seq<char>>> {
        predicate_eval(items, self.expression.item@, desc_keep(self.regex@, self.is_negated))
    }

    /// The plugins named by the expression whose description the regular expression
    /// matches (or, negated, does not match).
    fn eval(&self, items: &[PluginData]) -> (r: Option<Vec<String>>)
    {
        let e = Expression::DESC(
            DESC {
                expression: self.expression.clone(),
                regex: self.regex.clone(),
                is_negated: self.is_negated,
            },
        );
        eval_predicate(&e, items)
    }
}

impl TExpression for SIZE {
    open spec fn eval_safe(&self, items: Seq<PluginView>) -> bool {
        true
    }

    open spec fn eval_view(&self, items: Seq<PluginView>) -> Option<Seq<Seq<char>>> {
        predicate_eval(items, self.expression.item@, size_keep(self.size, self.is_negated))
    }

    /// The plugins named by the expression whose size is (or, negated, is not) the given one.
    fn eval(&self, items: &[PluginData]) -> (r: Option<Vec<String>>)
    {
        let e = Expression::SIZE(
            SIZE {
                expression: self.expression.clone(),
                size: self.size,
                is_negated: self.is_negated,
            },
        );
        eval_predicate(&e, items)
    }
}

impl TExpression for VER {
    /// A version that `semver` cannot read is only compared where no plugin it names
    /// has a version, in its header or in its name.
    open spec fn eval_safe(&self, items: Seq<PluginView>) -> bool {
        semver_valid(self.version@) || match wild_contains_data_spec(items, self.expression.item@) {
            Some(ps) => forall|i: int|
                0 <= i < ps.len() ==> plugin_version(#[trigger] ps[i], self.expression.item@) is None,
            None => true,
        }
    }

    open spec fn eval_view(&self, items: Seq<PluginView>) -> Option<Seq<Seq<char>>> {
        predicate_eval(items, self.expression.item@, ver_keep(self.operator, self.version@, self.expression.item@))
    }

    /// The plugins named by the expression whose version satisfies the comparison.
    fn eval(&self, items: &[PluginData]) -> (r: Option<Vec<String>>)
    {
        let e = Expression::VER(
            VER {
                expression: self.expression.clone(),
                operator: self.operator,
                version: self.version.clone(),
            },
        );
        eval_predicate(&e, items)
    }
}


////////////////////////////////////////////////////////////////////////
// COPIES
////////////////////////////////////////////////////////////////////////

/// Two expressions of the same shape with the same names, texts and numbers.
pub open spec fn expr_same(a: Expression, b: Expression) -> bool
    decreases a,
{
    match a {
        Expression::Atomic(x) => b is Atomic && b->Atomic_0 == x,
        Expression::ALL(x) => b is ALL && all_same(x.expressions@, b->ALL_0.expressions@),
        Expression::ANY(x) => b is ANY && all_same(x.expressions@, b->ANY_0.expressions@),
        Expression::NOT(x) => b is NOT && expr_same(*x.expression, *b->NOT_0.expression),
        Expression::DESC(x) => b is DESC && b->DESC_0 == x,
        Expression::SIZE(x) => b is SIZE && b->SIZE_0 == x,
        Expression::VER(x) => b is VER && b->VER_0 == x,
    }
}

pub open spec fn all_same(a: Seq<Expression>, b: Seq<Expression>) -> bool
    decreases a,
{
    a.len() == b.len() && (a.len() == 0 || (all_same(
        a.subrange(0, a.len() - 1),
        b.subrange(0, b.len() - 1),
    ) && expr_same(a[a.len() - 1], b[b.len() - 1])))
}

/// Copies of an expression evaluate, print and check alike.
pub proof fn lemma_same(a: Expression, b: Expression, items: Seq<PluginView>)
    requires
        expr_same(a, b),
    ensures
        eval_spec(a, items) == eval_spec(b, items),
        expr_text(a) == expr_text(b),
        expr_safe(a, items) == expr_safe(b, items),
        expr_wf(a) == expr_wf(b),
    decreases a,
{
    match a {
        Expression::ALL(x) => {
            lemma_all_same(x.expressions@, b->ALL_0.expressions@, items);
        },
        Expression::ANY(x) => {
            lemma_all_same(x.expressions@, b->ANY_0.expressions@, items);
        },
        Expression::NOT(x) => {
            lemma_same(*x.expression, *b->NOT_0.expression, items);
        },
        _ => {},
    }
}

pub proof fn lemma_all_same(a: Seq<Expression>, b: Seq<Expression>, items: Seq<PluginView>)
    requires
        all_same(a, b),
    ensures
        eval_all(a, items) == eval_all(b, items),
        eval_any(a, items) == eval_any(b, items),
        join_texts(a) == join_texts(b),
        all_safe(a, items) == all_safe(b, items),
        all_wf(a) == all_wf(b),
    decreases a,
{
    if a.len() > 0 {
        lemma_all_same(a.subrange(0, a.len() - 1), b.subrange(0, b.len() - 1), items);
        lemma_same(a[a.len() - 1], b[b.len() - 1], items);
        if a.len() == 1 {
            lemma_same(a[0], b[0], items);
        }
    }
}

/// Copies a list of expressions.
pub fn clone_expressions(es: &Vec<Expression>) -> (r: Vec<Expression>)
    ensures
        all_same(r@, es@),
    decreases es,
{
    let mut r: Vec<Expression> = Vec::new();
    let mut i: usize = 0;
    while i < es.len()
        invariant
            0 <= i <= es@.len(),
            all_same(r@, es@.subrange(0, i as int)),
        decreases es@.len() - i,
    {
        let c = es[i].clone();
        let ghost prev = r@;
        r.push(c);
        proof {
            let pre = es@.subrange(0, i + 1);
            assert(pre.subrange(0, pre.len() - 1) =~= es@.subrange(0, i as int));
            assert(r@.subrange(0, r@.len() - 1) =~= prev);
        }
        i = i + 1;
    }
    assert(es@.subrange(0, es@.len() as int) =~= es@);
    r
}

/// Copies a slice of expressions.
pub fn clone_expression_slice(es: &[Expression]) -> (r: Vec<Expression>)
    ensures
        all_same(r@, es@),
{
    let mut r: Vec<Expression> = Vec::new();
    let mut i: usize = 0;
    while i < es.len()
        invariant
            0 <= i <= es@.len(),
            all_same(r@, es@.subrange(0, i as int)),
        decreases es@.len() - i,
    {
        let c = es[i].clone();
        let ghost prev = r@;
        r.push(c);
        proof {
            let pre = es@.subrange(0, i + 1);
            assert(pre.subrange(0, pre.len() - 1) =~= es@.subrange(0, i as int));
            assert(r@.subrange(0, r@.len() - 1) =~= prev);
        }
        i = i + 1;
    }
    assert(es@.subrange(0, es@.len() as int) =~= es@);
    r
}

impl Clone for Expression {
    fn clone(&self) -> (r: Self)
        ensures
            expr_same(r, *self),
        decreases self,
    {
        match self {
            Expression::Atomic(a) => Expression::Atomic(a.clone()),
            Expression::ALL(x) => Expression::ALL(ALL { expressions: clone_expressions(&x.expressions) }),
            Expression::ANY(x) => Expression::ANY(ANY { expressions: clone_expressions(&x.expressions) }),
            Expression::NOT(x) => {
                let inner: Expression = (*x.expression).clone();
                Expression::NOT(NOT { expression: Box::new(inner) })
            },
            Expression::DESC(d) => Expression::DESC(
                DESC {
                    expression: d.expression.clone(),
                    regex: d.regex.clone(),
                    is_negated: d.is_negated,
                },
            ),
            Expression::SIZE(z) => Expression::SIZE(
                SIZE { expression: z.expression.clone(), size: z.size, is_negated: z.is_negated },
            ),
            Expression::VER(v) => Expression::VER(
                VER {
                    expression: v.expression.clone(),
                    operator: v.operator,
                    version: v.version.clone(),
                },
            ),
        }
    }
}


////////////////////////////////////////////////////////////////////////
// LAWS OF ALL AND ANY
////////////////////////////////////////////////////////////////////////

/// The names each expression gives, one sequence per expression; a false expression
/// gives none.
pub open spec fn child_names(es: Seq<Expression>, items: Seq<PluginView>) -> Seq<Seq<Seq<char>>> {
    es.map_values(
        |e: Expression|
            match eval_spec(e, items) {
                Some(v) => v,
                None => seq![],
            },
    )
}

/// Every expression is true.
pub open spec fn every_true(es: Seq<Expression>, items: Seq<PluginView>) -> bool {
    forall|k: int| 0 <= k < es.len() ==> (#[trigger] eval_spec(es[k], items)) is Some
}

/// Some expression is true.
pub open spec fn some_true(es: Seq<Expression>, items: Seq<PluginView>) -> bool {
    exists|k: int| 0 <= k < es.len() && (#[trigger] eval_spec(es[k], items)) is Some
}

proof fn lemma_child_names_push(es: Seq<Expression>, items: Seq<PluginView>)
    requires
        es.len() > 0,
    ensures
        child_names(es, items) == child_names(es.subrange(0, es.len() - 1), items).push(
            child_names(es, items)[es.len() - 1],
        ),
{
    let d = es.subrange(0, es.len() - 1);
    assert(child_names(es, items) =~= child_names(d, items).push(child_names(es, items)[es.len() - 1]));
}

proof fn lemma_eval_all_flat(es: Seq<Expression>, items: Seq<PluginView>)
    ensures
        eval_all(es, items) is Some <==> every_true(es, items),
        every_true(es, items) ==> eval_all(es, items) == Some(child_names(es, items).flatten()),
    decreases es.len(),
{
    if es.len() == 0 {
        assert(child_names(es, items) =~= Seq::<Seq<Seq<char>>>::empty());
    } else {
        let n = es.len();
        let d = es.subrange(0, n - 1);
        lemma_eval_all_flat(d, items);
        lemma_child_names_push(es, items);
        child_names(d, items).lemma_flatten_push(child_names(es, items)[n - 1]);
        if every_true(es, items) {
            assert forall|k: int| 0 <= k < d.len() implies (#[trigger] eval_spec(d[k], items)) is Some by {
                assert(d[k] == es[k]);
                assert(eval_spec(es[k], items) is Some);
            }
            assert(eval_spec(es[n - 1], items) is Some);
        }
        if !every_true(d, items) {
            let k = choose|k: int| 0 <= k < d.len() && !(eval_spec(d[k], items) is Some);
            assert(d[k] == es[k]);
        }
        if eval_spec(es[n - 1], items) is Some && every_true(d, items) {
            assert forall|k: int| 0 <= k < n implies (#[trigger] eval_spec(es[k], items)) is Some by {
                if k < n - 1 {
                    assert(d[k] == es[k]);
                    assert(eval_spec(d[k], items) is Some);
                }
            }
        }
    }
}

pub proof fn lemma_eval_any_flat(es: Seq<Expression>, items: Seq<PluginView>)
    ensures
        eval_any(es, items) is Some <==> some_true(es, items),
        eval_any(es, items) is Some ==> eval_any(es, items) == Some(child_names(es, items).flatten()),
        eval_any(es, items) is None ==> child_names(es, items).flatten() == Seq::<Seq<char>>::empty(),
    decreases es.len(),
{
    if es.len() == 0 {
        assert(child_names(es, items) =~= Seq::<Seq<Seq<char>>>::empty());
    } else {
        let n = es.len();
        let d = es.subrange(0, n - 1);
        lemma_eval_any_flat(d, items);
        lemma_child_names_push(es, items);
        child_names(d, items).lemma_flatten_push(child_names(es, items)[n - 1]);
        if eval_spec(es[n - 1], items) is None {
            assert(child_names(es, items)[n - 1] =~= Seq::<Seq<char>>::empty());
        }
        if some_true(d, items) {
            let k = choose|k: int| 0 <= k < d.len() && (eval_spec(d[k], items)) is Some;
            assert(d[k] == es[k]);
            assert(eval_spec(es[k], items) is Some);
        }
        if eval_spec(es[n - 1], items) is Some {
            assert(some_true(es, items));
        }
        if some_true(es, items) && eval_spec(es[n - 1], items) is None {
            let k = choose|k: int| 0 <= k < es.len() && (eval_spec(es[k], items)) is Some;
            assert(k < n - 1);
            assert(d[k] == es[k]);
            assert(eval_spec(d[k], items) is Some);
        }
    }
}

proof fn lemma_flatten_has<A>(ss: Seq<Seq<A>>, k: int, i: int)
    requires
        0 <= k < ss.len(),
        0 <= i < ss[k].len(),
    ensures
        ss.flatten().contains(ss[k][i]),
    decreases ss.len(),
{
    let n = ss.len();
    let d = ss.drop_last();
    assert(d.push(ss[n - 1]) =~= ss);
    d.lemma_flatten_push(ss[n - 1]);
    if k == n - 1 {
        assert((d.flatten() + ss[k])[d.flatten().len() + i] == ss[k][i]);
    } else {
        assert(d[k] == ss[k]);
        lemma_flatten_has(d, k, i);
        let j = choose|j: int| 0 <= j < d.flatten().len() && d.flatten()[j] == ss[k][i];
        assert((d.flatten() + ss[n - 1])[j] == ss[k][i]);
    }
}

/// `[ALL ...]` is true exactly when each of its expressions is true, and then gives the
/// names of its expressions one after the other, in their order; so each name that one
/// of them gives is in the result.
pub proof fn lemma_all_is_concatenation(x: ALL, items: Seq<PluginView>)
    ensures
        eval_spec(Expression::ALL(x), items) is Some <==> every_true(x.expressions@, items),
        every_true(x.expressions@, items) ==> eval_spec(Expression::ALL(x), items) == Some(
            child_names(x.expressions@, items).flatten(),
        ),
        forall|k: int, i: int|
            0 <= k < x.expressions@.len() && every_true(x.expressions@, items) && 0 <= i < eval_spec(
                x.expressions@[k],
                items,
            )->0.len() ==> eval_spec(Expression::ALL(x), items)->0.contains(
                #[trigger] eval_spec(x.expressions@[k], items)->0[i],
            ),
{
    let es = x.expressions@;
    lemma_eval_all_flat(es, items);
    assert forall|k: int, i: int|
        0 <= k < es.len() && every_true(es, items) && 0 <= i < eval_spec(es[k], items)->0.len()
            implies eval_spec(Expression::ALL(x), items)->0.contains(
        #[trigger] eval_spec(es[k], items)->0[i],
    ) by {
        assert(eval_spec(es[k], items) is Some);
        let v = eval_spec(es[k], items)->0;
        assert(child_names(es, items)[k] == v);
        lemma_flatten_has(child_names(es, items), k, i);
    }
}

/// `[ANY ...]` is true exactly when one of its expressions is true, and then gives the
/// names of the true ones one after the other, in their order.
pub proof fn lemma_any_is_concatenation(x: ANY, items: Seq<PluginView>)
    ensures
        eval_spec(Expression::ANY(x), items) is Some <==> some_true(x.expressions@, items),
        some_true(x.expressions@, items) ==> eval_spec(Expression::ANY(x), items) == Some(
            child_names(x.expressions@, items).flatten(),
        ),
{
    lemma_eval_any_flat(x.expressions@, items);
}

/// `[NOT ...]` is true exactly when its expression is false.
pub proof fn lemma_not_negates(x: NOT, items: Seq<PluginView>)
    ensures
        eval_spec(Expression::NOT(x), items) is Some <==> eval_spec(*x.expression, items) is None,
{
}

/// A plain plugin name (no `*`, `?` or `<ver>`) is true exactly when a plugin of the load
/// order has that name, and then gives that name once.
pub proof fn lemma_plain_name(a: Atomic, items: Seq<PluginView>)
    requires
        !crate::wildcard::is_wild(a.item@),
    ensures
        (exists|k: int| 0 <= k < items.len() && (#[trigger] items[k]).name == a.item@) ==> eval_spec(
            Expression::Atomic(a),
            items,
        ) == Some(seq![a.item@]),
        !(exists|k: int| 0 <= k < items.len() && (#[trigger] items[k]).name == a.item@) ==> eval_spec(
            Expression::Atomic(a),
            items,
        ) is None,
{
    let names = items.map_values(|p: PluginView| p.name);
    if exists|k: int| 0 <= k < items.len() && (#[trigger] items[k]).name == a.item@ {
        let k = choose|k: int| 0 <= k < items.len() && (#[trigger] items[k]).name == a.item@;
        assert(names[k] == a.item@);
        assert(names.contains(a.item@));
    } else if names.contains(a.item@) {
        let k = choose|k: int| 0 <= k < names.len() && names[k] == a.item@;
        assert(items[k].name == a.item@);
    }
}

} // verus!
