//! The constructs that are examined, reduced to what ordering depends on: an
//! enum with its variants, and a function body with its match statements.

use vstd::prelude::*;
use vstd::string::StringExecFns;
use crate::case::{CaseView, Location, NamedCase};
use crate::order::same;

verus! {

/// A variant of an enum: its name and where it is declared. What the variant
/// carries plays no part in ordering.
#[derive(Debug, PartialEq, Eq)]
pub struct Variant {
    pub name: String,
    pub location: Location,
}

/// A variant as a mathematical value.
pub struct VariantView {
    pub name: Seq<char>,
    pub location: Location,
}

impl View for Variant {
    type V = VariantView;

    open spec fn view(&self) -> VariantView {
        VariantView { name: self.name@, location: self.location }
    }
}

impl DeepView for Variant {
    type V = VariantView;

    open spec fn deep_view(&self) -> VariantView {
        self@
    }
}

impl VariantView {
    /// The case a variant is ordered as: by its name, with no qualifier.
    pub open spec fn named_case(self) -> CaseView {
        CaseView { key: self.name, qualifier: None, location: self.location }
    }
}

impl Variant {
    /// The case the variant is ordered as.
    pub fn named_case(&self) -> (case: NamedCase)
        ensures
            case@ == self@.named_case(),
    {
        NamedCase { key: self.name.clone(), qualifier: None, location: self.location }
    }
}

/// The declaration of an enum: its variants in the order they are declared.
#[derive(Debug, PartialEq, Eq)]
pub struct EnumDecl {
    pub variants: Vec<Variant>,
}

/// An enum declaration as a mathematical value.
pub struct EnumDeclView {
    pub variants: Seq<VariantView>,
}

impl View for EnumDecl {
    type V = EnumDeclView;

    open spec fn view(&self) -> EnumDeclView {
        EnumDeclView { variants: self.variants.deep_view() }
    }
}

impl EnumDeclView {
    /// The cases of the variants, in declaration order.
    pub open spec fn cases(self) -> Seq<CaseView> {
        self.variants.map_values(|v: VariantView| v.named_case())
    }
}

impl EnumDecl {
    /// Projects every variant to the case it is ordered as, in declaration
    /// order.
    pub fn extract_keys(&self) -> (cases: Vec<NamedCase>)
        ensures
            cases.deep_view() == self@.cases(),
    {
        let mut cases: Vec<NamedCase> = Vec::new();
        let mut i: usize = 0;
        while i < self.variants.len()
            invariant
                i <= self.variants.len(),
                cases.len() == i,
                forall|k: int|
                    0 <= k < i ==> (#[trigger] cases[k])@ == self.variants[k]@.named_case(),
            decreases self.variants.len() - i,
        {
            cases.push(self.variants[i].named_case());
            i += 1;
        }
        assert(cases.deep_view() =~= self@.cases());
        cases
    }
}

/// An item that an attribute is attached to.
#[derive(Debug, PartialEq, Eq)]
pub enum Item {
    Enum(EnumDecl),
    /// Any item that is not an enum.
    Other,
}

/// An item as a mathematical value.
pub enum ItemView {
    Enum(EnumDeclView),
    Other,
}

impl View for Item {
    type V = ItemView;

    open spec fn view(&self) -> ItemView {
        match *self {
            Item::Enum(e) => ItemView::Enum(e@),
            Item::Other => ItemView::Other,
        }
    }
}

/// The pattern of a match arm, by the kind of key it gives.
#[derive(Debug, PartialEq, Eq)]
pub enum Pattern {
    /// A single identifier: a unit case or a binding.
    Ident { name: String, location: Location },
    /// A path applied to sub-patterns, such as `Category::SubCase(..)`. The
    /// path is never empty: it is `head`, followed by the segments of `tail`.
    Path { head: String, tail: Vec<String>, location: Location },
    /// The wildcard `_`, located at its underscore.
    Wild { location: Location },
    /// A pattern of any other kind.
    Unsupported { location: Location },
}

/// A pattern as a mathematical value.
pub enum PatternView {
    Ident { name: Seq<char>, location: Location },
    Path { head: Seq<char>, tail: Seq<Seq<char>>, location: Location },
    Wild { location: Location },
    Unsupported { location: Location },
}

impl View for Pattern {
    type V = PatternView;

    open spec fn view(&self) -> PatternView {
        match *self {
            Pattern::Ident { name, location } => PatternView::Ident { name: name@, location },
            Pattern::Path { head, tail, location } => PatternView::Path {
                head: head@,
                tail: tail.deep_view(),
                location,
            },
            Pattern::Wild { location } => PatternView::Wild { location },
            Pattern::Unsupported { location } => PatternView::Unsupported { location },
        }
    }
}

/// The key that stands for the wildcard: a single underscore.
pub open spec fn wildcard_key() -> Seq<char> {
    "_"@
}

impl PatternView {
    /// Where the pattern stands.
    pub open spec fn location(self) -> Location {
        match self {
            PatternView::Ident { location, .. } => location,
            PatternView::Path { location, .. } => location,
            PatternView::Wild { location } => location,
            PatternView::Unsupported { location } => location,
        }
    }

    /// The case a pattern is ordered as, where it has one. An identifier is
    /// ordered by itself. A path is ordered by its last segment; one of
    /// several segments has its first segment as qualifier. The wildcard is
    /// ordered as a single underscore, with no special place.
    pub open spec fn named_case(self) -> Option<CaseView> {
        match self {
            PatternView::Ident { name, location } => Some(
                CaseView { key: name, qualifier: None, location },
            ),
            PatternView::Path { head, tail, location } => if tail.len() == 0 {
                Some(CaseView { key: head, qualifier: None, location })
            } else {
                Some(CaseView { key: tail.last(), qualifier: Some(head), location })
            },
            PatternView::Wild { location } => Some(
                CaseView { key: wildcard_key(), qualifier: None, location },
            ),
            PatternView::Unsupported { .. } => None,
        }
    }
}

/// The case that an optional value holds, as a mathematical value.
pub open spec fn case_view(case: Option<NamedCase>) -> Option<CaseView> {
    match case {
        Some(c) => Some(c@),
        None => None,
    }
}

impl Pattern {
    /// Where the pattern stands.
    pub fn location(&self) -> (l: Location)
        ensures
            l == self@.location(),
    {
        match self {
            Pattern::Ident { location, .. } => *location,
            Pattern::Path { location, .. } => *location,
            Pattern::Wild { location } => *location,
            Pattern::Unsupported { location } => *location,
        }
    }

    /// The case the pattern is ordered as; `None` for a pattern of a kind
    /// that has no key.
    pub fn named_case(&self) -> (case: Option<NamedCase>)
        ensures
            case_view(case) == self@.named_case(),
    {
        match self {
            Pattern::Ident { name, location } => Some(
                NamedCase { key: name.clone(), qualifier: None, location: *location },
            ),
            Pattern::Path { head, tail, location } => {
                let n = tail.len();
                if n == 0 {
                    Some(NamedCase { key: head.clone(), qualifier: None, location: *location })
                } else {
                    assert(tail.deep_view().last() == tail[n - 1]@);
                    Some(
                        NamedCase {
                            key: tail[n - 1].clone(),
                            qualifier: Some(head.clone()),
                            location: *location,
                        },
                    )
                }
            },
            Pattern::Wild { location } => Some(
                NamedCase { key: String::from_str("_"), qualifier: None, location: *location },
            ),
            Pattern::Unsupported { .. } => None,
        }
    }
}

/// An arm of a match: its pattern, and whether a guard follows the pattern.
#[derive(Debug, PartialEq, Eq)]
pub struct Arm {
    pub pattern: Pattern,
    pub guarded: bool,
}

/// An arm as a mathematical value.
pub struct ArmView {
    pub pattern: PatternView,
    pub guarded: bool,
}

impl View for Arm {
    type V = ArmView;

    open spec fn view(&self) -> ArmView {
        ArmView { pattern: self.pattern@, guarded: self.guarded }
    }
}

impl DeepView for Arm {
    type V = ArmView;

    open spec fn deep_view(&self) -> ArmView {
        self@
    }
}

impl ArmView {
    /// The case an arm is ordered as. An arm with a guard has none, whatever
    /// its pattern.
    pub open spec fn named_case(self) -> Option<CaseView> {
        if self.guarded {
            None
        } else {
            self.pattern.named_case()
        }
    }
}

impl Arm {
    /// The case the arm is ordered as; `None` for an arm that has no key.
    pub fn named_case(&self) -> (case: Option<NamedCase>)
        ensures
            case_view(case) == self@.named_case(),
    {
        if self.guarded {
            None
        } else {
            self.pattern.named_case()
        }
    }
}

/// An attribute on a match statement.
#[derive(Debug, PartialEq, Eq)]
pub enum Attribute {
    /// A path alone, without arguments or a value; `head` is the first
    /// segment of the path.
    Path { head: String, location: Location },
    /// An attribute of any other form.
    Other { location: Location },
}

/// An attribute as a mathematical value.
pub enum AttributeView {
    Path { head: Seq<char>, location: Location },
    Other { location: Location },
}

impl View for Attribute {
    type V = AttributeView;

    open spec fn view(&self) -> AttributeView {
        match *self {
            Attribute::Path { head, location } => AttributeView::Path { head: head@, location },
            Attribute::Other { location } => AttributeView::Other { location },
        }
    }
}

impl DeepView for Attribute {
    type V = AttributeView;

    open spec fn deep_view(&self) -> AttributeView {
        self@
    }
}

/// The name that marks a match statement for validation.
pub open spec fn marker_name() -> Seq<char> {
    "sorted"@
}

impl AttributeView {
    /// The attribute is the marker: a path alone whose first segment is the
    /// marker's name.
    pub open spec fn is_marker(self) -> bool {
        self matches AttributeView::Path { head, .. } && head == marker_name()
    }
}

impl Attribute {
    /// Whether the attribute is the marker. This is the one place where an
    /// attribute's name is compared with the marker's.
    pub fn is_marker(&self) -> (r: bool)
        ensures
            r == self@.is_marker(),
    {
        match self {
            Attribute::Path { head, .. } => same(head.as_str(), "sorted"),
            Attribute::Other { .. } => false,
        }
    }
}

/// A match statement: its attributes and its arms, both in source order.
#[derive(Debug, PartialEq, Eq)]
pub struct MatchStmt {
    pub attrs: Vec<Attribute>,
    pub arms: Vec<Arm>,
}

/// A match statement as a mathematical value.
pub struct MatchStmtView {
    pub attrs: Seq<AttributeView>,
    pub arms: Seq<ArmView>,
}

impl View for MatchStmt {
    type V = MatchStmtView;

    open spec fn view(&self) -> MatchStmtView {
        MatchStmtView { attrs: self.attrs.deep_view(), arms: self.arms.deep_view() }
    }
}

/// The test that an attribute passes when it is not the marker.
pub open spec fn not_marker() -> spec_fn(AttributeView) -> bool {
    |a: AttributeView| !a.is_marker()
}

/// The attributes of `attrs` that are not the marker, in the same order.
pub open spec fn without_marker(attrs: Seq<AttributeView>) -> Seq<AttributeView> {
    attrs.filter(not_marker())
}

impl MatchStmtView {
    /// The statement carries the marker.
    pub open spec fn is_marked(self) -> bool {
        exists|i: int| 0 <= i < self.attrs.len() && (#[trigger] self.attrs[i]).is_marker()
    }

    /// The statement without the marker: the other attributes and the arms
    /// stay as they are.
    pub open spec fn strip(self) -> MatchStmtView {
        MatchStmtView { attrs: without_marker(self.attrs), arms: self.arms }
    }
}

/// Filtering a sequence that is one element longer.
pub proof fn lemma_without_marker_push(attrs: Seq<AttributeView>, attr: AttributeView)
    ensures
        without_marker(attrs.push(attr)) == if attr.is_marker() {
            without_marker(attrs)
        } else {
            without_marker(attrs).push(attr)
        },
{
    reveal(Seq::filter);
    assert(attrs.push(attr).drop_last() =~= attrs);
}

/// What is left when the marker is removed holds no marker.
pub proof fn lemma_without_marker_unmarked(attrs: Seq<AttributeView>)
    ensures
        forall|i: int|
            0 <= i < without_marker(attrs).len() ==> !(#[trigger] without_marker(
                attrs,
            )[i]).is_marker(),
{
    assert forall|i: int| 0 <= i < without_marker(attrs).len() implies !(#[trigger] without_marker(
        attrs,
    )[i]).is_marker() by {
        attrs.lemma_filter_pred(not_marker(), i);
    }
}

/// Removing the marker from attributes that hold none changes nothing.
pub proof fn lemma_without_marker_identity(attrs: Seq<AttributeView>)
    requires
        forall|i: int| 0 <= i < attrs.len() ==> !(#[trigger] attrs[i]).is_marker(),
    ensures
        without_marker(attrs) == attrs,
    decreases attrs.len(),
{
    if attrs.len() > 0 {
        let front = attrs.drop_last();
        assert forall|i: int| 0 <= i < front.len() implies !(#[trigger] front[i]).is_marker() by {
            assert(front[i] == attrs[i]);
        }
        lemma_without_marker_identity(front);
        lemma_without_marker_push(front, attrs.last());
        assert(front.push(attrs.last()) =~= attrs);
    } else {
        reveal(Seq::filter);
    }
}

impl MatchStmt {
    /// Whether the statement carries the marker.
    pub fn is_marked(&self) -> (r: bool)
        ensures
            r == self@.is_marked(),
    {
        let mut i: usize = 0;
        while i < self.attrs.len()
            invariant
                i <= self.attrs.len(),
                forall|k: int| 0 <= k < i ==> !(#[trigger] self@.attrs[k]).is_marker(),
            decreases self.attrs.len() - i,
        {
            if self.attrs[i].is_marker() {
                assert(self@.attrs[i as int].is_marker());
                return true;
            }
            i += 1;
        }
        false
    }

    /// Removes the marker and keeps the other attributes, in their order, and
    /// the arms.
    pub fn strip(self) -> (r: MatchStmt)
        ensures
            r@ == self@.strip(),
    {
        let ghost all = self.attrs.deep_view();
        let MatchStmt { attrs, arms } = self;
        let mut kept: Vec<Attribute> = Vec::new();
        assert(all.take(0) =~= Seq::<AttributeView>::empty());
        assert(kept.deep_view() =~= Seq::<AttributeView>::empty());
        proof {
            reveal(Seq::filter);
        }
        for attr in it: attrs
            invariant
                all == attrs.deep_view(),
                it.seq() == attrs@,
                kept.deep_view() == without_marker(all.take(it.index() as int)),
        {
            proof {
                lemma_without_marker_push(all.take(it.index() as int), attr@);
                assert(all.take(it.index() + 1) =~= all.take(it.index() as int).push(attr@));
            }
            let ghost before = kept.deep_view();
            if !attr.is_marker() {
                kept.push(attr);
                assert(kept.deep_view() =~= before.push(attr@));
            }
        }
        assert(all.take(all.len() as int) =~= all);
        MatchStmt { attrs: kept, arms }
    }
}

/// A statement that stands directly in a function body.
#[derive(Debug, PartialEq, Eq)]
pub enum Stmt {
    /// A match expression used as a statement.
    Match(MatchStmt),
    /// Any other statement. A match nested inside it is not looked for.
    Other,
}

/// A statement as a mathematical value.
pub enum StmtView {
    Match(MatchStmtView),
    Other,
}

impl View for Stmt {
    type V = StmtView;

    open spec fn view(&self) -> StmtView {
        match *self {
            Stmt::Match(m) => StmtView::Match(m@),
            Stmt::Other => StmtView::Other,
        }
    }
}

impl DeepView for Stmt {
    type V = StmtView;

    open spec fn deep_view(&self) -> StmtView {
        self@
    }
}

impl StmtView {
    /// The statement is a match that carries the marker.
    pub open spec fn is_marked(self) -> bool {
        self matches StmtView::Match(m) && m.is_marked()
    }

    /// The statement without the marker.
    pub open spec fn strip(self) -> StmtView {
        match self {
            StmtView::Match(m) => StmtView::Match(m.strip()),
            StmtView::Other => StmtView::Other,
        }
    }
}

/// A function, reduced to the statements that stand directly in its body.
#[derive(Debug, PartialEq, Eq)]
pub struct Function {
    pub stmts: Vec<Stmt>,
}

/// A function as a mathematical value.
pub struct FunctionView {
    pub stmts: Seq<StmtView>,
}

impl View for Function {
    type V = FunctionView;

    open spec fn view(&self) -> FunctionView {
        FunctionView { stmts: self.stmts.deep_view() }
    }
}

/// The position of the first statement at or after `from` that is a marked
/// match; the number of statements where there is none.
pub open spec fn first_marked_from(stmts: Seq<StmtView>, from: int) -> int
    decreases stmts.len() - from,
{
    if 0 <= from < stmts.len() && !stmts[from].is_marked() {
        first_marked_from(stmts, from + 1)
    } else {
        from
    }
}

impl FunctionView {
    /// The position of the first marked match statement; the number of
    /// statements where none is marked.
    pub open spec fn first_marked(self) -> int {
        first_marked_from(self.stmts, 0)
    }

    /// The arms to validate: those of the first marked match statement.
    pub open spec fn marked_arms(self) -> Option<Seq<ArmView>> {
        if 0 <= self.first_marked() < self.stmts.len() {
            Some(self.stmts[self.first_marked()]->Match_0.arms)
        } else {
            None
        }
    }

    /// The function with the marker removed from every match statement that
    /// carries it, and nothing else changed.
    pub open spec fn strip(self) -> FunctionView {
        FunctionView { stmts: self.stmts.map_values(|s: StmtView| s.strip()) }
    }
}

/// A position before which no statement is marked, and at which one is or
/// the statements end, is the first marked position.
pub proof fn lemma_first_marked_is(stmts: Seq<StmtView>, at: int)
    requires
        0 <= at <= stmts.len(),
        forall|k: int| 0 <= k < at ==> !(#[trigger] stmts[k]).is_marked(),
        at < stmts.len() ==> stmts[at].is_marked(),
    ensures
        first_marked_from(stmts, 0) == at,
{
    lemma_first_marked_from(stmts, at, 0);
}

proof fn lemma_first_marked_from(stmts: Seq<StmtView>, at: int, from: int)
    requires
        0 <= from <= at <= stmts.len(),
        forall|k: int| 0 <= k < at ==> !(#[trigger] stmts[k]).is_marked(),
        at < stmts.len() ==> stmts[at].is_marked(),
    ensures
        first_marked_from(stmts, from) == at,
    decreases at - from,
{
    if from < at {
        assert(!stmts[from].is_marked());
        lemma_first_marked_from(stmts, at, from + 1);
    }
}

/// A statement without the marker is not marked, and removing the marker
/// from it once more changes nothing.
pub proof fn lemma_strip_stmt(stmt: StmtView)
    ensures
        !stmt.strip().is_marked(),
        stmt.strip().strip() == stmt.strip(),
{
    match stmt {
        StmtView::Match(m) => {
            lemma_without_marker_unmarked(m.attrs);
            lemma_without_marker_identity(without_marker(m.attrs));
        },
        StmtView::Other => {},
    }
}

/// Removing the marker twice is the same as removing it once.
pub proof fn lemma_strip_idempotent(item_fn: FunctionView)
    ensures
        item_fn.strip().strip() == item_fn.strip(),
{
    let once = item_fn.strip();
    assert forall|k: int| 0 <= k < once.stmts.len() implies (#[trigger] once.strip().stmts[k])
        == once.stmts[k] by {
        lemma_strip_stmt(item_fn.stmts[k]);
    }
    assert(once.strip().stmts =~= once.stmts);
}

/// A function from which the marker was removed has no marked match
/// statement: nothing in it is found for validation.
pub proof fn lemma_strip_unmarks(item_fn: FunctionView)
    ensures
        forall|k: int|
            0 <= k < item_fn.strip().stmts.len() ==> !(#[trigger] item_fn.strip().stmts[k]).is_marked(),
        item_fn.strip().marked_arms() is None,
{
    let once = item_fn.strip();
    assert forall|k: int| 0 <= k < once.stmts.len() implies !(#[trigger] once.stmts[k]).is_marked() by {
        lemma_strip_stmt(item_fn.stmts[k]);
    }
    lemma_first_marked_is(once.stmts, once.stmts.len() as int);
}

} // verus!
