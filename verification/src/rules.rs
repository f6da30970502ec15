//! Rules: ordering rules that the sorter follows, and warning rules that are evaluated
//! against a load order.
use vstd::prelude::*;

use crate::expressions::{
    all_safe, all_same, child_names, clone_expression_slice, eval_any, eval_expression, eval_spec,
    expr_safe, lemma_eval_any_flat, some_true, Expression,
};
use crate::wildcard::strings_view;
use crate::{plugins_view, PluginData, PluginView};

verus! {

////////////////////////////////////////////////////////////////////////
// ENUMS
////////////////////////////////////////////////////////////////////////

#[derive(Debug)]
pub enum ERule {
    EOrderRule(EOrderRule),
    EWarningRule(EWarningRule),
}

#[derive(Debug)]
pub enum EOrderRule {
    Order(Order),
    NearStart(NearStart),
    NearEnd(NearEnd),
}

#[derive(Debug)]
pub enum EWarningRule {
    Note(Note),
    Conflict(Conflict),
    Requires(Requires),
    Patch(Patch),
}

////////////////////////////////////////////////////////////////////////
// ORDER RULES
////////////////////////////////////////////////////////////////////////

/// The [Order] rule: each plugin goes before the ones listed after it.
#[derive(Debug)]
pub struct Order {
    pub names: Vec<String>,
}

/// The [NearStart] rule: the plugins go as near as possible to the start of the load order.
#[derive(Debug)]
pub struct NearStart {
    pub names: Vec<String>,
}

/// The [NearEnd] rule: the plugins go as near as possible to the end of the load order.
#[derive(Debug)]
pub struct NearEnd {
    pub names: Vec<String>,
}

impl Order {
    pub fn new(names: Vec<String>) -> (r: Self)
        ensures
            r.names == names,
    {
        Self { names }
    }
}

impl NearStart {
    pub fn new(names: Vec<String>) -> (r: Self)
        ensures
            r.names == names,
    {
        Self { names }
    }
}

impl NearEnd {
    pub fn new(names: Vec<String>) -> (r: Self)
        ensures
            r.names == names,
    {
        Self { names }
    }
}

pub fn clone_names(v: &Vec<String>) -> (r: Vec<String>)
    ensures
        r@ == v@,
{
    let r = v.clone();
    assert(r@ =~= v@);
    r
}

impl Clone for Order {
    fn clone(&self) -> (r: Self)
        ensures
            r.names@ == self.names@,
    {
        Order { names: clone_names(&self.names) }
    }
}

impl Clone for NearStart {
    fn clone(&self) -> (r: Self)
        ensures
            r.names@ == self.names@,
    {
        NearStart { names: clone_names(&self.names) }
    }
}

impl Clone for NearEnd {
    fn clone(&self) -> (r: Self)
        ensures
            r.names@ == self.names@,
    {
        NearEnd { names: clone_names(&self.names) }
    }
}

////////////////////////////////////////////////////////////////////////
// WARNING RULES
////////////////////////////////////////////////////////////////////////

/// The [Note] rule: holds when any of its expressions is true.
#[derive(Debug)]
pub struct Note {
    pub comment: String,
    pub expressions: Vec<Expression>,
    /// The plugins that made the rule hold when it was last evaluated.
    pub plugins: Vec<String>,
}

/// The [Conflict] rule: holds when at least two of its expressions are true.
#[derive(Debug)]
pub struct Conflict {
    pub comment: String,
    pub expressions: Vec<Expression>,
    /// The plugins that made the rule hold when it was last evaluated.
    pub plugins: Vec<String>,
}

/// The [Requires] rule: holds when A is true and B is not.
#[derive(Debug)]
pub struct Requires {
    pub comment: String,
    pub expression_a: Option<Expression>,
    pub expression_b: Option<Expression>,
    /// The plugins that made the rule hold when it was last evaluated.
    pub plugins: Vec<String>,
}

/// The [Patch] rule: a mutual dependency. Holds when exactly one of A (the patch) and
/// B (what it patches) is true.
#[derive(Debug)]
pub struct Patch {
    pub comment: String,
    pub expression_a: Option<Expression>,
    pub expression_b: Option<Expression>,
    /// The plugins that made the rule hold when it was last evaluated.
    pub plugins: Vec<String>,
}

/// How many of the expressions are true.
pub open spec fn count_true(es: Seq<Expression>, items: Seq<PluginView>) -> nat
    decreases es.len(),
{
    if es.len() == 0 {
        0
    } else {
        count_true(es.subrange(0, es.len() - 1), items) + if eval_spec(es[es.len() - 1], items) is Some {
            1nat
        } else {
            0nat
        }
    }
}

/// The names the true expressions give, in order.
pub open spec fn any_names(es: Seq<Expression>, items: Seq<PluginView>) -> Seq<Seq<char>> {
    match eval_any(es, items) {
        Some(v) => v,
        None => seq![],
    }
}

pub open spec fn opt_eval(e: Option<Expression>, items: Seq<PluginView>) -> Option<Seq<Seq<char>>> {
    match e {
        Some(x) => eval_spec(x, items),
        None => None,
    }
}

pub open spec fn opt_safe(e: Option<Expression>, items: Seq<PluginView>) -> bool {
    match e {
        Some(x) => expr_safe(x, items),
        None => true,
    }
}

pub open spec fn names_or_empty(o: Option<Seq<Seq<char>>>) -> Seq<Seq<char>> {
    match o {
        Some(v) => v,
        None => seq![],
    }
}

/// Whether a [Requires] rule with these expressions holds.
pub open spec fn requires_holds(
    a: Option<Expression>,
    b: Option<Expression>,
    items: Seq<PluginView>,
) -> bool {
    a is Some && b is Some && opt_eval(a, items) is Some && opt_eval(b, items) is None
}

/// Whether a [Patch] rule with these expressions holds.
pub open spec fn patch_holds(a: Option<Expression>, b: Option<Expression>, items: Seq<PluginView>) -> bool {
    a is Some && b is Some && (opt_eval(a, items) is Some != opt_eval(b, items) is Some)
}

/// Evaluates a list of expressions: how many are true and the names the true ones give.
fn count_and_names(es: &Vec<Expression>, items: &[PluginData]) -> (r: (usize, Vec<String>))
    requires
        all_safe(es@, plugins_view(items@)),
    ensures
        r.0 == count_true(es@, plugins_view(items@)),
        strings_view(r.1@) == any_names(es@, plugins_view(items@)),
{
    let ghost iv = plugins_view(items@);
    let mut count: usize = 0;
    let mut names: Vec<String> = Vec::new();
    let mut i: usize = 0;
    proof {
        assert(es@.subrange(0, es@.len() as int) =~= es@);
        crate::expressions::lemma_all_safe_prefix(es@, iv, es@.len() as int);
    }
    while i < es.len()
        invariant
            0 <= i <= es@.len(),
            iv == plugins_view(items@),
            forall|k: int| 0 <= k < es@.len() ==> expr_safe(#[trigger] es@[k], iv),
            count == count_true(es@.subrange(0, i as int), iv),
            count <= i,
            strings_view(names@) == any_names(es@.subrange(0, i as int), iv),
        decreases es@.len() - i,
    {
        let ghost pre = es@.subrange(0, i + 1);
        assert(pre.subrange(0, pre.len() - 1) =~= es@.subrange(0, i as int));
        assert(pre[pre.len() - 1] == es@[i as int]);
        let ghost before = names@;
        match eval_expression(&es[i], items) {
            Some(ps) => {
                count = count + 1;
                let mut ps = ps;
                let ghost added = ps@;
                names.append(&mut ps);
                assert(strings_view(names@) =~= strings_view(before) + strings_view(added));
                proof {
                    if eval_any(es@.subrange(0, i as int), iv) is None {
                        assert(strings_view(before) =~= Seq::<Seq<char>>::empty());
                        assert(strings_view(names@) =~= strings_view(added));
                    }
                }
            },
            None => {},
        }
        i = i + 1;
    }
    assert(es@.subrange(0, es@.len() as int) =~= es@);
    (count, names)
}

fn eval_opt(e: &Option<Expression>, items: &[PluginData]) -> (r: Option<Vec<String>>)
    requires
        opt_safe(*e, plugins_view(items@)),
    ensures
        crate::wildcard::opt_strings_view(r) == opt_eval(*e, plugins_view(items@)),
{
    match e {
        Some(x) => eval_expression(x, items),
        None => None,
    }
}

/// A warning rule as specified in the rules document.
pub trait TWarningRule {
    spec fn comment_view(&self) -> Seq<char>;

    /// Evaluating the rule against the load order does not panic.
    spec fn eval_ok(&self, items: Seq<PluginView>) -> bool;

    /// Whether the rule holds for the load order.
    spec fn holds(&self, items: Seq<PluginView>) -> bool;

    /// The plugins that make the rule hold for the load order.
    spec fn found(&self, items: Seq<PluginView>) -> Seq<Seq<char>>;

    /// The plugins recorded by the last evaluation.
    spec fn recorded(&self) -> Seq<Seq<char>>;

    /// Everything but the recorded plugins and the comment is the same.
    spec fn same_body(&self, other: &Self) -> bool;

    /// Every rule may have a comment describing why it failed.
    fn get_comment(&self) -> (r: &str)
        ensures
            r@ == self.comment_view(),
    ;

    fn set_comment(&mut self, comment: String)
        ensures
            final(self).comment_view() == comment@,
            final(self).same_body(old(self)),
            final(self).recorded() == old(self).recorded(),
    ;

    /// Evaluates the rule against the load order and records the plugins that make it hold.
    fn eval(&mut self, items: &[PluginData]) -> (r: bool)
        requires
            old(self).eval_ok(plugins_view(items@)),
        ensures
            r == old(self).holds(plugins_view(items@)),
            final(self).recorded() == old(self).found(plugins_view(items@)),
            final(self).comment_view() == old(self).comment_view(),
            final(self).same_body(old(self)),
    ;
}

impl TWarningRule for Note {
    open spec fn comment_view(&self) -> Seq<char> {
        self.comment@
    }

    open spec fn eval_ok(&self, items: Seq<PluginView>) -> bool {
        all_safe(self.expressions@, items)
    }

    /// Notes hold when any of their expressions is true.
    open spec fn holds(&self, items: Seq<PluginView>) -> bool {
        eval_any(self.expressions@, items) is Some
    }

    open spec fn found(&self, items: Seq<PluginView>) -> Seq<Seq<char>> {
        any_names(self.expressions@, items)
    }

    open spec fn recorded(&self) -> Seq<Seq<char>> {
        strings_view(self.plugins@)
    }

    open spec fn same_body(&self, other: &Self) -> bool {
        self.expressions == other.expressions
    }

    fn get_comment(&self) -> (r: &str) {
        self.comment.as_str()
    }

    fn set_comment(&mut self, comment: String) {
        self.comment = comment;
    }

    fn eval(&mut self, items: &[PluginData]) -> (r: bool) {
        let (count, names) = count_and_names(&self.expressions, items);
        self.plugins = names;
        proof {
            lemma_count_any(self.expressions@, plugins_view(items@));
        }
        count > 0
    }
}

impl TWarningRule for Conflict {
    open spec fn comment_view(&self) -> Seq<char> {
        self.comment@
    }

    open spec fn eval_ok(&self, items: Seq<PluginView>) -> bool {
        all_safe(self.expressions@, items)
    }

    /// Conflicts hold when at least two of their expressions are true.
    open spec fn holds(&self, items: Seq<PluginView>) -> bool {
        count_true(self.expressions@, items) > 1
    }

    open spec fn found(&self, items: Seq<PluginView>) -> Seq<Seq<char>> {
        if count_true(self.expressions@, items) > 1 {
            any_names(self.expressions@, items)
        } else {
            seq![]
        }
    }

    open spec fn recorded(&self) -> Seq<Seq<char>> {
        strings_view(self.plugins@)
    }

    open spec fn same_body(&self, other: &Self) -> bool {
        self.expressions == other.expressions
    }

    fn get_comment(&self) -> (r: &str) {
        self.comment.as_str()
    }

    fn set_comment(&mut self, comment: String) {
        self.comment = comment;
    }

    fn eval(&mut self, items: &[PluginData]) -> (r: bool) {
        let (count, names) = count_and_names(&self.expressions, items);
        if count > 1 {
            self.plugins = names;
        } else {
            self.plugins = Vec::new();
            assert(strings_view(self.plugins@) =~= Seq::<Seq<char>>::empty());
        }
        count > 1
    }
}

impl TWarningRule for Requires {
    open spec fn comment_view(&self) -> Seq<char> {
        self.comment@
    }

    open spec fn eval_ok(&self, items: Seq<PluginView>) -> bool {
        opt_safe(self.expression_a, items) && opt_safe(self.expression_b, items)
    }

    /// Requires holds when A is true and B is not.
    open spec fn holds(&self, items: Seq<PluginView>) -> bool {
        requires_holds(self.expression_a, self.expression_b, items)
    }

    open spec fn found(&self, items: Seq<PluginView>) -> Seq<Seq<char>> {
        if requires_holds(self.expression_a, self.expression_b, items) {
            names_or_empty(opt_eval(self.expression_a, items))
        } else {
            seq![]
        }
    }

    open spec fn recorded(&self) -> Seq<Seq<char>> {
        strings_view(self.plugins@)
    }

    open spec fn same_body(&self, other: &Self) -> bool {
        self.expression_a == other.expression_a && self.expression_b == other.expression_b
    }

    fn get_comment(&self) -> (r: &str) {
        self.comment.as_str()
    }

    fn set_comment(&mut self, comment: String) {
        self.comment = comment;
    }

    fn eval(&mut self, items: &[PluginData]) -> (r: bool) {
        if self.expression_a.is_some() && self.expression_b.is_some() {
            let a = eval_opt(&self.expression_a, items);
            let b = eval_opt(&self.expression_b, items);
            match (a, b) {
                (Some(names), None) => {
                    self.plugins = names;
                    return true;
                },
                _ => {},
            }
        }
        self.plugins = Vec::new();
        assert(strings_view(self.plugins@) =~= Seq::<Seq<char>>::empty());
        false
    }
}

impl TWarningRule for Patch {
    open spec fn comment_view(&self) -> Seq<char> {
        self.comment@
    }

    open spec fn eval_ok(&self, items: Seq<PluginView>) -> bool {
        opt_safe(self.expression_a, items) && opt_safe(self.expression_b, items)
    }

    /// Patch holds when A is true and B is not, or when B is true and A is not.
    open spec fn holds(&self, items: Seq<PluginView>) -> bool {
        patch_holds(self.expression_a, self.expression_b, items)
    }

    open spec fn found(&self, items: Seq<PluginView>) -> Seq<Seq<char>> {
        if patch_holds(self.expression_a, self.expression_b, items) {
            names_or_empty(opt_eval(self.expression_a, items)) + names_or_empty(
                opt_eval(self.expression_b, items),
            )
        } else {
            seq![]
        }
    }

    open spec fn recorded(&self) -> Seq<Seq<char>> {
        strings_view(self.plugins@)
    }

    open spec fn same_body(&self, other: &Self) -> bool {
        self.expression_a == other.expression_a && self.expression_b == other.expression_b
    }

    fn get_comment(&self) -> (r: &str) {
        self.comment.as_str()
    }

    fn set_comment(&mut self, comment: String) {
        self.comment = comment;
    }

    fn eval(&mut self, items: &[PluginData]) -> (r: bool) {
        if self.expression_a.is_some() && self.expression_b.is_some() {
            let a = eval_opt(&self.expression_a, items);
            let b = eval_opt(&self.expression_b, items);
            match (a, b) {
                (Some(names), None) => {
                    self.plugins = names;
                    assert(strings_view(self.plugins@) =~= strings_view(self.plugins@) + seq![]);
                    return true;
                },
                (None, Some(names)) => {
                    self.plugins = names;
                    assert(strings_view(self.plugins@) =~= seq![] + strings_view(self.plugins@));
                    return true;
                },
                _ => {},
            }
        }
        self.plugins = Vec::new();
        assert(strings_view(self.plugins@) =~= Seq::<Seq<char>>::empty());
        false
    }
}

/// Some expression is true exactly when at least one is counted.
pub proof fn lemma_count_any(es: Seq<Expression>, items: Seq<PluginView>)
    ensures
        (count_true(es, items) > 0) == (eval_any(es, items) is Some),
    decreases es.len(),
{
    if es.len() > 0 {
        lemma_count_any(es.subrange(0, es.len() - 1), items);
    }
}

impl Note {
    pub fn new(comment: String, expressions: &[Expression]) -> (r: Self)
        ensures
            r.comment == comment,
            all_same(r.expressions@, expressions@),
            r.plugins@.len() == 0,
    {
        Self { comment, expressions: clone_expression_slice(expressions), plugins: Vec::new() }
    }
}

impl Conflict {
    pub fn new(comment: String, expressions: &[Expression]) -> (r: Self)
        ensures
            r.comment == comment,
            all_same(r.expressions@, expressions@),
            r.plugins@.len() == 0,
    {
        Self { comment, expressions: clone_expression_slice(expressions), plugins: Vec::new() }
    }
}

impl Requires {
    pub fn new(comment: String, expression_a: Expression, expression_b: Expression) -> (r: Self)
        ensures
            r.comment == comment,
            r.expression_a == Some(expression_a),
            r.expression_b == Some(expression_b),
            r.plugins@.len() == 0,
    {
        Self {
            comment,
            expression_a: Some(expression_a),
            expression_b: Some(expression_b),
            plugins: Vec::new(),
        }
    }
}

impl Patch {
    pub fn new(comment: String, expression_a: Expression, expression_b: Expression) -> (r: Self)
        ensures
            r.comment == comment,
            r.expression_a == Some(expression_a),
            r.expression_b == Some(expression_b),
            r.plugins@.len() == 0,
    {
        Self {
            comment,
            expression_a: Some(expression_a),
            expression_b: Some(expression_b),
            plugins: Vec::new(),
        }
    }
}

////////////////////////////////////////////////////////////////////////
// CONVERSIONS
////////////////////////////////////////////////////////////////////////

impl From<EOrderRule> for ERule {
    fn from(val: EOrderRule) -> Self {
        ERule::EOrderRule(val)
    }
}

impl vstd::std_specs::convert::FromSpecImpl<EOrderRule> for ERule {
    open spec fn obeys_from_spec() -> bool {
        true
    }

    open spec fn from_spec(val: EOrderRule) -> Self {
        ERule::EOrderRule(val)
    }
}

impl From<EWarningRule> for ERule {
    fn from(val: EWarningRule) -> Self {
        ERule::EWarningRule(val)
    }
}

impl vstd::std_specs::convert::FromSpecImpl<EWarningRule> for ERule {
    open spec fn obeys_from_spec() -> bool {
        true
    }

    open spec fn from_spec(val: EWarningRule) -> Self {
        ERule::EWarningRule(val)
    }
}

impl From<Order> for ERule {
    fn from(val: Order) -> Self {
        ERule::EOrderRule(EOrderRule::Order(val))
    }
}

impl vstd::std_specs::convert::FromSpecImpl<Order> for ERule {
    open spec fn obeys_from_spec() -> bool {
        true
    }

    open spec fn from_spec(val: Order) -> Self {
        ERule::EOrderRule(EOrderRule::Order(val))
    }
}

impl From<NearStart> for ERule {
    fn from(val: NearStart) -> Self {
        ERule::EOrderRule(EOrderRule::NearStart(val))
    }
}

impl vstd::std_specs::convert::FromSpecImpl<NearStart> for ERule {
    open spec fn obeys_from_spec() -> bool {
        true
    }

    open spec fn from_spec(val: NearStart) -> Self {
        ERule::EOrderRule(EOrderRule::NearStart(val))
    }
}

impl From<NearEnd> for ERule {
    fn from(val: NearEnd) -> Self {
        ERule::EOrderRule(EOrderRule::NearEnd(val))
    }
}

impl vstd::std_specs::convert::FromSpecImpl<NearEnd> for ERule {
    open spec fn obeys_from_spec() -> bool {
        true
    }

    open spec fn from_spec(val: NearEnd) -> Self {
        ERule::EOrderRule(EOrderRule::NearEnd(val))
    }
}

impl From<Order> for EOrderRule {
    fn from(val: Order) -> Self {
        EOrderRule::Order(val)
    }
}

impl vstd::std_specs::convert::FromSpecImpl<Order> for EOrderRule {
    open spec fn obeys_from_spec() -> bool {
        true
    }

    open spec fn from_spec(val: Order) -> Self {
        EOrderRule::Order(val)
    }
}

impl From<NearStart> for EOrderRule {
    fn from(val: NearStart) -> Self {
        EOrderRule::NearStart(val)
    }
}

impl vstd::std_specs::convert::FromSpecImpl<NearStart> for EOrderRule {
    open spec fn obeys_from_spec() -> bool {
        true
    }

    open spec fn from_spec(val: NearStart) -> Self {
        EOrderRule::NearStart(val)
    }
}

impl From<NearEnd> for EOrderRule {
    fn from(val: NearEnd) -> Self {
        EOrderRule::NearEnd(val)
    }
}

impl vstd::std_specs::convert::FromSpecImpl<NearEnd> for EOrderRule {
    open spec fn obeys_from_spec() -> bool {
        true
    }

    open spec fn from_spec(val: NearEnd) -> Self {
        EOrderRule::NearEnd(val)
    }
}

impl From<Note> for ERule {
    fn from(val: Note) -> Self {
        ERule::EWarningRule(EWarningRule::Note(val))
    }
}

impl vstd::std_specs::convert::FromSpecImpl<Note> for ERule {
    open spec fn obeys_from_spec() -> bool {
        true
    }

    open spec fn from_spec(val: Note) -> Self {
        ERule::EWarningRule(EWarningRule::Note(val))
    }
}

impl From<Conflict> for ERule {
    fn from(val: Conflict) -> Self {
        ERule::EWarningRule(EWarningRule::Conflict(val))
    }
}

impl vstd::std_specs::convert::FromSpecImpl<Conflict> for ERule {
    open spec fn obeys_from_spec() -> bool {
        true
    }

    open spec fn from_spec(val: Conflict) -> Self {
        ERule::EWarningRule(EWarningRule::Conflict(val))
    }
}

impl From<Requires> for ERule {
    fn from(val: Requires) -> Self {
        ERule::EWarningRule(EWarningRule::Requires(val))
    }
}

impl vstd::std_specs::convert::FromSpecImpl<Requires> for ERule {
    open spec fn obeys_from_spec() -> bool {
        true
    }

    open spec fn from_spec(val: Requires) -> Self {
        ERule::EWarningRule(EWarningRule::Requires(val))
    }
}

impl From<Patch> for ERule {
    fn from(val: Patch) -> Self {
        ERule::EWarningRule(EWarningRule::Patch(val))
    }
}

impl vstd::std_specs::convert::FromSpecImpl<Patch> for ERule {
    open spec fn obeys_from_spec() -> bool {
        true
    }

    open spec fn from_spec(val: Patch) -> Self {
        ERule::EWarningRule(EWarningRule::Patch(val))
    }
}

impl From<Note> for EWarningRule {
    fn from(val: Note) -> Self {
        EWarningRule::Note(val)
    }
}

impl vstd::std_specs::convert::FromSpecImpl<Note> for EWarningRule {
    open spec fn obeys_from_spec() -> bool {
        true
    }

    open spec fn from_spec(val: Note) -> Self {
        EWarningRule::Note(val)
    }
}

impl From<Conflict> for EWarningRule {
    fn from(val: Conflict) -> Self {
        EWarningRule::Conflict(val)
    }
}

impl vstd::std_specs::convert::FromSpecImpl<Conflict> for EWarningRule {
    open spec fn obeys_from_spec() -> bool {
        true
    }

    open spec fn from_spec(val: Conflict) -> Self {
        EWarningRule::Conflict(val)
    }
}

impl From<Requires> for EWarningRule {
    fn from(val: Requires) -> Self {
        EWarningRule::Requires(val)
    }
}

impl vstd::std_specs::convert::FromSpecImpl<Requires> for EWarningRule {
    open spec fn obeys_from_spec() -> bool {
        true
    }

    open spec fn from_spec(val: Requires) -> Self {
        EWarningRule::Requires(val)
    }
}

impl From<Patch> for EWarningRule {
    fn from(val: Patch) -> Self {
        EWarningRule::Patch(val)
    }
}

impl vstd::std_specs::convert::FromSpecImpl<Patch> for EWarningRule {
    open spec fn obeys_from_spec() -> bool {
        true
    }

    open spec fn from_spec(val: Patch) -> Self {
        EWarningRule::Patch(val)
    }
}

////////////////////////////////////////////////////////////////////////
// ACCESSORS
////////////////////////////////////////////////////////////////////////

/// The [Note] rule of a rule, if it is one.
pub fn note(f: ERule) -> (r: Option<Note>)
    ensures
        r == (match f {
            ERule::EWarningRule(EWarningRule::Note(n)) => Some(n),
            _ => None::<Note>,
        }),
{
    match f {
        ERule::EWarningRule(EWarningRule::Note(n)) => Some(n),
        _ => None,
    }
}

/// The [Conflict] rule of a rule, if it is one.
pub fn conflict(f: ERule) -> (r: Option<Conflict>)
    ensures
        r == (match f {
            ERule::EWarningRule(EWarningRule::Conflict(n)) => Some(n),
            _ => None::<Conflict>,
        }),
{
    match f {
        ERule::EWarningRule(EWarningRule::Conflict(n)) => Some(n),
        _ => None,
    }
}

/// The [Requires] rule of a rule, if it is one.
pub fn requires_rule(f: ERule) -> (r: Option<Requires>)
    ensures
        r == (match f {
            ERule::EWarningRule(EWarningRule::Requires(n)) => Some(n),
            _ => None::<Requires>,
        }),
{
    match f {
        ERule::EWarningRule(EWarningRule::Requires(n)) => Some(n),
        _ => None,
    }
}

/// The [Patch] rule of a rule, if it is one.
pub fn patch(f: ERule) -> (r: Option<Patch>)
    ensures
        r == (match f {
            ERule::EWarningRule(EWarningRule::Patch(n)) => Some(n),
            _ => None::<Patch>,
        }),
{
    match f {
        ERule::EWarningRule(EWarningRule::Patch(n)) => Some(n),
        _ => None,
    }
}

/// The [Order] rule of a rule, if it is one.
pub fn order(f: ERule) -> (r: Option<Order>)
    ensures
        r == (match f {
            ERule::EOrderRule(EOrderRule::Order(n)) => Some(n),
            _ => None::<Order>,
        }),
{
    match f {
        ERule::EOrderRule(EOrderRule::Order(n)) => Some(n),
        _ => None,
    }
}

/// The [Order] rule of an order rule, if it is one.
pub fn order2(f: EOrderRule) -> (r: Option<Order>)
    ensures
        r == (match f {
            EOrderRule::Order(n) => Some(n),
            _ => None::<Order>,
        }),
{
    match f {
        EOrderRule::Order(n) => Some(n),
        _ => None,
    }
}

/// The [NearStart] rule of a rule, if it is one.
pub fn nearstart(f: ERule) -> (r: Option<NearStart>)
    ensures
        r == (match f {
            ERule::EOrderRule(EOrderRule::NearStart(n)) => Some(n),
            _ => None::<NearStart>,
        }),
{
    match f {
        ERule::EOrderRule(EOrderRule::NearStart(n)) => Some(n),
        _ => None,
    }
}

/// The [NearEnd] rule of a rule, if it is one.
pub fn nearend(f: ERule) -> (r: Option<NearEnd>)
    ensures
        r == (match f {
            ERule::EOrderRule(EOrderRule::NearEnd(n)) => Some(n),
            _ => None::<NearEnd>,
        }),
{
    match f {
        ERule::EOrderRule(EOrderRule::NearEnd(n)) => Some(n),
        _ => None,
    }
}

/// The [NearStart] rule of an order rule, if it is one, as a copy.
pub fn nearstart2(f: &EOrderRule) -> (r: Option<NearStart>)
    ensures
        match f {
            EOrderRule::NearStart(o) => r matches Some(c) && c.names@ == o.names@,
            _ => r is None,
        },
{
    match f {
        EOrderRule::NearStart(o) => Some(o.clone()),
        _ => None,
    }
}

/// The [NearEnd] rule of an order rule, if it is one, as a copy.
pub fn nearend2(f: &EOrderRule) -> (r: Option<NearEnd>)
    ensures
        match f {
            EOrderRule::NearEnd(o) => r matches Some(c) && c.names@ == o.names@,
            _ => r is None,
        },
{
    match f {
        EOrderRule::NearEnd(o) => Some(o.clone()),
        _ => None,
    }
}

////////////////////////////////////////////////////////////////////////
// ANY WARNING RULE
////////////////////////////////////////////////////////////////////////

impl TWarningRule for EWarningRule {
    open spec fn comment_view(&self) -> Seq<char> {
        match self {
            EWarningRule::Note(x) => x.comment_view(),
            EWarningRule::Conflict(x) => x.comment_view(),
            EWarningRule::Requires(x) => x.comment_view(),
            EWarningRule::Patch(x) => x.comment_view(),
        }
    }

    open spec fn eval_ok(&self, items: Seq<PluginView>) -> bool {
        match self {
            EWarningRule::Note(x) => x.eval_ok(items),
            EWarningRule::Conflict(x) => x.eval_ok(items),
            EWarningRule::Requires(x) => x.eval_ok(items),
            EWarningRule::Patch(x) => x.eval_ok(items),
        }
    }

    open spec fn holds(&self, items: Seq<PluginView>) -> bool {
        match self {
            EWarningRule::Note(x) => x.holds(items),
            EWarningRule::Conflict(x) => x.holds(items),
            EWarningRule::Requires(x) => x.holds(items),
            EWarningRule::Patch(x) => x.holds(items),
        }
    }

    open spec fn found(&self, items: Seq<PluginView>) -> Seq<Seq<char>> {
        match self {
            EWarningRule::Note(x) => x.found(items),
            EWarningRule::Conflict(x) => x.found(items),
            EWarningRule::Requires(x) => x.found(items),
            EWarningRule::Patch(x) => x.found(items),
        }
    }

    open spec fn recorded(&self) -> Seq<Seq<char>> {
        match self {
            EWarningRule::Note(x) => x.recorded(),
            EWarningRule::Conflict(x) => x.recorded(),
            EWarningRule::Requires(x) => x.recorded(),
            EWarningRule::Patch(x) => x.recorded(),
        }
    }

    open spec fn same_body(&self, other: &Self) -> bool {
        match (self, other) {
            (EWarningRule::Note(x), EWarningRule::Note(y)) => x.same_body(y),
            (EWarningRule::Conflict(x), EWarningRule::Conflict(y)) => x.same_body(y),
            (EWarningRule::Requires(x), EWarningRule::Requires(y)) => x.same_body(y),
            (EWarningRule::Patch(x), EWarningRule::Patch(y)) => x.same_body(y),
            _ => false,
        }
    }

    fn get_comment(&self) -> (r: &str) {
        match self {
            EWarningRule::Note(x) => x.get_comment(),
            EWarningRule::Conflict(x) => x.get_comment(),
            EWarningRule::Requires(x) => x.get_comment(),
            EWarningRule::Patch(x) => x.get_comment(),
        }
    }

    fn set_comment(&mut self, comment: String) {
        match self {
            EWarningRule::Note(x) => x.set_comment(comment),
            EWarningRule::Conflict(x) => x.set_comment(comment),
            EWarningRule::Requires(x) => x.set_comment(comment),
            EWarningRule::Patch(x) => x.set_comment(comment),
        }
    }

    fn eval(&mut self, items: &[PluginData]) -> (r: bool) {
        match self {
            EWarningRule::Note(x) => x.eval(items),
            EWarningRule::Conflict(x) => x.eval(items),
            EWarningRule::Requires(x) => x.eval(items),
            EWarningRule::Patch(x) => x.eval(items),
        }
    }
}

impl EWarningRule {
    /// The plugins that made the rule hold when it was last evaluated.
    pub fn get_plugins(&self) -> (r: Vec<String>)
        ensures
            strings_view(r@) == self.recorded(),
    {
        let v = match self {
            EWarningRule::Note(x) => &x.plugins,
            EWarningRule::Conflict(x) => &x.plugins,
            EWarningRule::Requires(x) => &x.plugins,
            EWarningRule::Patch(x) => &x.plugins,
        };
        let r = clone_names(v);
        r
    }
}

/// Two warning rules of the same kind, comment, expressions and recorded plugins.
pub open spec fn same_warning(a: EWarningRule, b: EWarningRule) -> bool {
    &&& a.comment_view() == b.comment_view()
    &&& a.recorded() == b.recorded()
    &&& match (a, b) {
        (EWarningRule::Note(x), EWarningRule::Note(y)) => all_same(x.expressions@, y.expressions@),
        (EWarningRule::Conflict(x), EWarningRule::Conflict(y)) => all_same(
            x.expressions@,
            y.expressions@,
        ),
        (EWarningRule::Requires(x), EWarningRule::Requires(y)) => opt_same(x.expression_a, y.expression_a)
            && opt_same(x.expression_b, y.expression_b),
        (EWarningRule::Patch(x), EWarningRule::Patch(y)) => opt_same(x.expression_a, y.expression_a)
            && opt_same(x.expression_b, y.expression_b),
        _ => false,
    }
}

pub open spec fn opt_same(a: Option<Expression>, b: Option<Expression>) -> bool {
    match (a, b) {
        (Some(x), Some(y)) => crate::expressions::expr_same(x, y),
        (None, None) => true,
        _ => false,
    }
}

fn clone_opt_expression(e: &Option<Expression>) -> (r: Option<Expression>)
    ensures
        opt_same(r, *e),
{
    match e {
        Some(x) => Some(x.clone()),
        None => None,
    }
}

impl Clone for EWarningRule {
    fn clone(&self) -> (r: Self)
        ensures
            same_warning(r, *self),
    {
        match self {
            EWarningRule::Note(x) => EWarningRule::Note(
                Note {
                    comment: x.comment.clone(),
                    expressions: crate::expressions::clone_expressions(&x.expressions),
                    plugins: clone_names(&x.plugins),
                },
            ),
            EWarningRule::Conflict(x) => EWarningRule::Conflict(
                Conflict {
                    comment: x.comment.clone(),
                    expressions: crate::expressions::clone_expressions(&x.expressions),
                    plugins: clone_names(&x.plugins),
                },
            ),
            EWarningRule::Requires(x) => EWarningRule::Requires(
                Requires {
                    comment: x.comment.clone(),
                    expression_a: clone_opt_expression(&x.expression_a),
                    expression_b: clone_opt_expression(&x.expression_b),
                    plugins: clone_names(&x.plugins),
                },
            ),
            EWarningRule::Patch(x) => EWarningRule::Patch(
                Patch {
                    comment: x.comment.clone(),
                    expression_a: clone_opt_expression(&x.expression_a),
                    expression_b: clone_opt_expression(&x.expression_b),
                    plugins: clone_names(&x.plugins),
                },
            ),
        }
    }
}

////////////////////////////////////////////////////////////////////////
// WELL-FORMED RULES
////////////////////////////////////////////////////////////////////////

pub open spec fn opt_wf(e: Option<Expression>) -> bool {
    match e {
        Some(x) => crate::expressions::expr_wf(x),
        None => true,
    }
}

/// Every `[VER` of the rule compares against a version that `semver` reads.
pub open spec fn rule_wf(r: EWarningRule) -> bool {
    match r {
        EWarningRule::Note(x) => crate::expressions::all_wf(x.expressions@),
        EWarningRule::Conflict(x) => crate::expressions::all_wf(x.expressions@),
        EWarningRule::Requires(x) => opt_wf(x.expression_a) && opt_wf(x.expression_b),
        EWarningRule::Patch(x) => opt_wf(x.expression_a) && opt_wf(x.expression_b),
    }
}

/// A well-formed rule can be evaluated against any load order.
pub proof fn lemma_rule_wf_ok(r: EWarningRule, items: Seq<PluginView>)
    requires
        rule_wf(r),
    ensures
        r.eval_ok(items),
{
    match r {
        EWarningRule::Note(x) => crate::expressions::lemma_all_wf_safe(x.expressions@, items),
        EWarningRule::Conflict(x) => crate::expressions::lemma_all_wf_safe(x.expressions@, items),
        EWarningRule::Requires(x) => {
            if let Some(a) = x.expression_a {
                crate::expressions::lemma_wf_safe(a, items);
            }
            if let Some(b) = x.expression_b {
                crate::expressions::lemma_wf_safe(b, items);
            }
        },
        EWarningRule::Patch(x) => {
            if let Some(a) = x.expression_a {
                crate::expressions::lemma_wf_safe(a, items);
            }
            if let Some(b) = x.expression_b {
                crate::expressions::lemma_wf_safe(b, items);
            }
        },
    }
}

fn opt_wf_exec(e: &Option<Expression>) -> (r: bool)
    ensures
        r == opt_wf(*e),
{
    match e {
        Some(x) => crate::expressions::expr_wf_exec(x),
        None => true,
    }
}

/// Whether every `[VER` of the rule compares against a version that `semver` reads.
pub fn rule_wf_exec(r: &EWarningRule) -> (b: bool)
    ensures
        b == rule_wf(*r),
{
    match r {
        EWarningRule::Note(x) => crate::expressions::all_wf_exec(&x.expressions),
        EWarningRule::Conflict(x) => crate::expressions::all_wf_exec(&x.expressions),
        EWarningRule::Requires(x) => opt_wf_exec(&x.expression_a) && opt_wf_exec(&x.expression_b),
        EWarningRule::Patch(x) => opt_wf_exec(&x.expression_a) && opt_wf_exec(&x.expression_b),
    }
}

/// Law: a conflict between two expressions holds exactly when both are true, whichever
/// is written first.
pub proof fn lemma_conflict_of_two(a: Conflict, b: Conflict, x: Expression, y: Expression, items: Seq<PluginView>)
    requires
        a.expressions@ == seq![x, y],
        b.expressions@ == seq![y, x],
    ensures
        a.holds(items) == (eval_spec(x, items) is Some && eval_spec(y, items) is Some),
        b.holds(items) == a.holds(items),
{
    reveal_with_fuel(count_true, 3);
    let s1 = seq![x, y];
    let s2 = seq![y, x];
    assert(s1.subrange(0, 1) =~= seq![x]);
    assert(s2.subrange(0, 1) =~= seq![y]);
    assert(seq![x].subrange(0, 0) =~= Seq::<Expression>::empty());
    assert(seq![y].subrange(0, 0) =~= Seq::<Expression>::empty());
    assert(s1[1] == y && s2[1] == x && seq![x][0] == x && seq![y][0] == y);
}

/// Two different expressions of the list are true.
pub open spec fn two_true(es: Seq<Expression>, items: Seq<PluginView>) -> bool {
    exists|i: int, j: int|
        #![trigger eval_spec(es[i], items), eval_spec(es[j], items)]
        0 <= i < j < es.len() && eval_spec(es[i], items) is Some && eval_spec(es[j], items) is Some
}

proof fn lemma_count_true_at_least(es: Seq<Expression>, items: Seq<PluginView>)
    ensures
        count_true(es, items) >= 1 <==> some_true(es, items),
        count_true(es, items) >= 2 <==> two_true(es, items),
    decreases es.len(),
{
    if es.len() > 0 {
        let n = es.len();
        let d = es.subrange(0, n - 1);
        lemma_count_true_at_least(d, items);
        let last = eval_spec(es[n - 1], items) is Some;
        if some_true(d, items) {
            let k = choose|k: int| 0 <= k < d.len() && (eval_spec(d[k], items)) is Some;
            assert(d[k] == es[k]);
            assert(eval_spec(es[k], items) is Some);
            if last {
                assert(eval_spec(es[k], items) is Some && eval_spec(es[n - 1], items) is Some);
                assert(two_true(es, items));
            }
        }
        if last {
            assert(eval_spec(es[n - 1], items) is Some);
            assert(some_true(es, items));
        }
        if two_true(d, items) {
            let (i, j) = choose|i: int, j: int|
                0 <= i < j < d.len() && eval_spec(d[i], items) is Some && eval_spec(d[j], items) is Some;
            assert(d[i] == es[i] && d[j] == es[j]);
            assert(eval_spec(es[i], items) is Some && eval_spec(es[j], items) is Some);
            assert(two_true(es, items));
        }
        if some_true(es, items) && !last {
            let k = choose|k: int| 0 <= k < es.len() && (eval_spec(es[k], items)) is Some;
            assert(k < n - 1);
            assert(d[k] == es[k]);
            assert(eval_spec(d[k], items) is Some);
        }
        if two_true(es, items) {
            let (i, j) = choose|i: int, j: int|
                0 <= i < j < es.len() && eval_spec(es[i], items) is Some && eval_spec(es[j], items) is Some;
            assert(d[i] == es[i]);
            assert(eval_spec(d[i], items) is Some);
            if j < n - 1 {
                assert(d[j] == es[j]);
                assert(eval_spec(d[i], items) is Some && eval_spec(d[j], items) is Some);
                assert(two_true(d, items));
            }
        }
    }
}

/// Law: a conflict holds exactly when two (or more) of its expressions are true,
/// whatever their number; it then records the names of all its true expressions, in
/// their order, and records nothing when it does not hold.
pub proof fn lemma_conflict_needs_two(c: Conflict, items: Seq<PluginView>)
    ensures
        c.holds(items) <==> two_true(c.expressions@, items),
        c.found(items) == if two_true(c.expressions@, items) {
            child_names(c.expressions@, items).flatten()
        } else {
            Seq::<Seq<char>>::empty()
        },
{
    lemma_count_true_at_least(c.expressions@, items);
    lemma_eval_any_flat(c.expressions@, items);
    if two_true(c.expressions@, items) {
        let (i, j) = choose|i: int, j: int|
            0 <= i < j < c.expressions@.len() && eval_spec(c.expressions@[i], items) is Some
                && eval_spec(c.expressions@[j], items) is Some;
        assert(some_true(c.expressions@, items));
    }
}

/// Law: a note holds exactly when one of its expressions is true, and records the names
/// of its true expressions, in their order.
pub proof fn lemma_note_needs_one(x: Note, items: Seq<PluginView>)
    ensures
        x.holds(items) <==> some_true(x.expressions@, items),
        x.found(items) == child_names(x.expressions@, items).flatten(),
{
    lemma_eval_any_flat(x.expressions@, items);
}

/// Law: a rule with both expressions, A requiring B, holds exactly when A is true and B
/// is false, and then records the names that A gives; a rule missing either expression
/// never holds, and a rule that does not hold records nothing.
pub proof fn lemma_requires_a_without_b(x: Requires, a: Expression, b: Expression, items: Seq<PluginView>)
    requires
        x.expression_a == Some(a),
        x.expression_b == Some(b),
    ensures
        x.holds(items) <==> (eval_spec(a, items) is Some && eval_spec(b, items) is None),
        x.found(items) == if eval_spec(a, items) is Some && eval_spec(b, items) is None {
            eval_spec(a, items)->0
        } else {
            Seq::<Seq<char>>::empty()
        },
{
}

/// A rule missing an expression never holds and records nothing.
pub proof fn lemma_incomplete_rules_never_hold(r: Requires, p: Patch, items: Seq<PluginView>)
    ensures
        (r.expression_a is None || r.expression_b is None) ==> !r.holds(items) && r.found(items)
            == Seq::<Seq<char>>::empty(),
        (p.expression_a is None || p.expression_b is None) ==> !p.holds(items) && p.found(items)
            == Seq::<Seq<char>>::empty(),
{
}

/// Law: a patch rule with both expressions holds exactly when one of them is true and
/// the other is not, and then records the names that the true one gives.
pub proof fn lemma_patch_one_of_two(x: Patch, a: Expression, b: Expression, items: Seq<PluginView>)
    requires
        x.expression_a == Some(a),
        x.expression_b == Some(b),
    ensures
        x.holds(items) <==> (eval_spec(a, items) is Some && eval_spec(b, items) is None) || (
        eval_spec(a, items) is None && eval_spec(b, items) is Some),
        eval_spec(a, items) is Some && eval_spec(b, items) is None ==> x.found(items) == eval_spec(
            a,
            items,
        )->0,
        eval_spec(a, items) is None && eval_spec(b, items) is Some ==> x.found(items) == eval_spec(
            b,
            items,
        )->0,
        !x.holds(items) ==> x.found(items) == Seq::<Seq<char>>::empty(),
{
    let fa = eval_spec(a, items);
    let fb = eval_spec(b, items);
    if fa is Some && fb is None {
        assert(fa->0 + Seq::<Seq<char>>::empty() =~= fa->0);
    }
    if fa is None && fb is Some {
        assert(Seq::<Seq<char>>::empty() + fb->0 =~= fb->0);
    }
}

} // verus!
