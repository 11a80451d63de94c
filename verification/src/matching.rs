//! The route tree as the application declares it and the routes that
//! match a location.

use vstd::prelude::*;

use crate::routes::{RouteData, RouteDataView, same_route_data};

verus! {

/// A route as declared by the application: its identity, its path pattern and
/// its nested routes. The view that renders it is kept by the caller, by `id`.
#[derive(Debug)]
pub struct RouteDefinition {
    pub id: usize,
    pub path: String,
    pub children: Vec<RouteDefinition>,
}

/// The mathematical value of a [`RouteDefinition`].
pub ghost struct DefinitionView {
    pub id: usize,
    pub path: Seq<char>,
    pub children: Seq<DefinitionView>,
}

impl View for RouteDefinition {
    type V = DefinitionView;

    open spec fn view(&self) -> DefinitionView
        decreases self,
    {
        DefinitionView { id: self.id, path: self.path@, children: definition_views(self.children@) }
    }
}

/// The views of a sequence of definitions, element by element.
pub open spec fn definition_views(s: Seq<RouteDefinition>) -> Seq<DefinitionView>
    decreases s,
{
    if s.len() == 0 {
        Seq::empty()
    } else {
        definition_views(s.drop_last()).push(s.last()@)
    }
}

/// The views of a sequence of definitions are the views of its elements.
pub proof fn lemma_definition_views(s: Seq<RouteDefinition>)
    ensures
        definition_views(s).len() == s.len(),
        forall|i: int| 0 <= i < s.len() ==> #[trigger] definition_views(s)[i] == s[i]@,
    decreases s.len(),
{
    if s.len() > 0 {
        lemma_definition_views(s.drop_last());
        assert(definition_views(s) == definition_views(s.drop_last()).push(s.last()@));
    }
}

impl RouteDefinition {
    fn duplicate(&self) -> (r: RouteDefinition)
        ensures
            r@ == self@,
        decreases self,
    {
        let mut children: Vec<RouteDefinition> = Vec::new();
        let n = self.children.len();
        for i in 0..n
            invariant
                n == self.children@.len(),
                children@.len() == i,
                forall|j: int| 0 <= j < i ==> #[trigger] children@[j]@ == self.children@[j]@,
        {
            let c = self.children[i].duplicate();
            children.push(c);
        }
        let r = RouteDefinition { id: self.id, path: self.path.clone(), children };
        proof {
            lemma_definition_views(r.children@);
            lemma_definition_views(self.children@);
            assert(r@.children =~= self@.children);
        }
        r
    }
}

/// Two definitions are the same route when their paths and their nested
/// routes agree (an `id` is compared separately where it matters).
pub open spec fn same_definition(a: DefinitionView, b: DefinitionView) -> bool
    decreases a, 1int,
{
    a.path == b.path && same_definitions(a.children, b.children)
}

/// Two sequences of definitions agree element by element.
pub open spec fn same_definitions(xs: Seq<DefinitionView>, ys: Seq<DefinitionView>) -> bool
    decreases xs, 0int,
{
    xs.len() == ys.len() && (xs.len() == 0 || (same_definitions(xs.drop_last(), ys.drop_last())
        && same_definition(xs.last(), ys.last())))
}

/// Two sequences agree element by element exactly when they have the same
/// length and their elements at each index are the same route.
pub proof fn lemma_same_definitions(xs: Seq<DefinitionView>, ys: Seq<DefinitionView>)
    ensures
        same_definitions(xs, ys) <==> (xs.len() == ys.len() && forall|k: int|
            0 <= k < xs.len() ==> #[trigger] same_definition(xs[k], ys[k])),
    decreases xs.len(),
{
    if xs.len() > 0 && xs.len() == ys.len() {
        lemma_same_definitions(xs.drop_last(), ys.drop_last());
        if forall|k: int| 0 <= k < xs.len() ==> #[trigger] same_definition(xs[k], ys[k]) {
            assert forall|k: int| 0 <= k < xs.drop_last().len() implies #[trigger] same_definition(
                xs.drop_last()[k],
                ys.drop_last()[k],
            ) by {
                assert(same_definition(xs[k], ys[k]));
            }
            assert(same_definition(xs[xs.len() - 1], ys[ys.len() - 1]));
        }
        if same_definitions(xs, ys) {
            assert forall|k: int| 0 <= k < xs.len() implies #[trigger] same_definition(
                xs[k],
                ys[k],
            ) by {
                if k < xs.len() - 1 {
                    assert(same_definition(xs.drop_last()[k], ys.drop_last()[k]));
                }
            }
        }
    }
}

fn definitions_equal(a: &RouteDefinition, b: &RouteDefinition) -> (r: bool)
    ensures
        r == same_definition(a@, b@),
    decreases a,
{
    proof {
        lemma_definition_views(a.children@);
        lemma_definition_views(b.children@);
        lemma_same_definitions(a@.children, b@.children);
    }
    if a.path != b.path || a.children.len() != b.children.len() {
        return false;
    }
    let n = a.children.len();
    for i in 0..n
        invariant
            n == a.children@.len(),
            n == b.children@.len(),
            a@.children.len() == n,
            b@.children.len() == n,
            a@.path == b@.path,
            forall|k: int| 0 <= k < n ==> #[trigger] a@.children[k] == a.children@[k]@,
            forall|k: int| 0 <= k < n ==> #[trigger] b@.children[k] == b.children@[k]@,
            forall|k: int| 0 <= k < i ==> #[trigger] same_definition(a@.children[k], b@.children[k]),
            same_definitions(a@.children, b@.children) <==> (forall|k: int|
                0 <= k < n ==> #[trigger] same_definition(a@.children[k], b@.children[k])),
    {
        if !definitions_equal(&a.children[i], &b.children[i]) {
            assert(!same_definition(a@.children[i as int], b@.children[i as int]));
            return false;
        }
    }
    true
}

impl PartialEq for RouteDefinition {
    fn eq(&self, other: &Self) -> (r: bool) {
        definitions_equal(self, other)
    }
}

impl vstd::std_specs::cmp::PartialEqSpecImpl for RouteDefinition {
    open spec fn obeys_eq_spec() -> bool {
        true
    }

    open spec fn eq_spec(&self, other: &RouteDefinition) -> bool {
        same_definition(self@, other@)
    }
}

impl Clone for RouteDefinition {
    fn clone(&self) -> (r: Self)
        ensures
            r@ == self@,
    {
        self.duplicate()
    }
}

/// What a route's pattern is matched with: the pattern, and whether a
/// location may go on past it (so for routes that have nested routes).
#[derive(Debug)]
pub struct Matcher {
    pub pattern: String,
    pub partial: bool,
}

/// The mathematical value of a [`Matcher`].
pub ghost struct MatcherView {
    pub pattern: Seq<char>,
    pub partial: bool,
}

impl View for Matcher {
    type V = MatcherView;

    open spec fn view(&self) -> MatcherView {
        MatcherView { pattern: self.pattern@, partial: self.partial }
    }
}

impl Matcher {
    pub fn new_with_partial(path: &str, partial: bool) -> (m: Matcher)
        ensures
            m@ == (MatcherView { pattern: path@, partial }),
    {
        Matcher { pattern: path.to_owned(), partial }
    }
}

/// The part of a location that a route matched.
#[derive(Debug)]
pub struct PathMatch {
    pub path: String,
}

/// A route that matched a location, with the part of the location it matched.
#[derive(Debug)]
pub struct RouteMatch {
    pub path_match: PathMatch,
    pub route: RouteData,
}

/// The mathematical value of a [`RouteMatch`].
pub ghost struct RouteMatchView {
    pub path: Seq<char>,
    pub route: RouteDataView,
}

impl View for RouteMatch {
    type V = RouteMatchView;

    open spec fn view(&self) -> RouteMatchView {
        RouteMatchView { path: self.path_match.path@, route: self.route@ }
    }
}

/// The views of a sequence of matches.
pub open spec fn matches_view(s: Seq<RouteMatch>) -> Seq<RouteMatchView> {
    s.map_values(|m: RouteMatch| m@)
}

impl PartialEq for Matcher {
    fn eq(&self, other: &Self) -> (r: bool) {
        self.pattern == other.pattern && self.partial == other.partial
    }
}

impl vstd::std_specs::cmp::PartialEqSpecImpl for Matcher {
    open spec fn obeys_eq_spec() -> bool {
        true
    }

    open spec fn eq_spec(&self, other: &Matcher) -> bool {
        self@ == other@
    }
}

impl PartialEq for PathMatch {
    fn eq(&self, other: &Self) -> (r: bool) {
        self.path == other.path
    }
}

impl vstd::std_specs::cmp::PartialEqSpecImpl for PathMatch {
    open spec fn obeys_eq_spec() -> bool {
        true
    }

    open spec fn eq_spec(&self, other: &PathMatch) -> bool {
        self.path@ == other.path@
    }
}

/// Two matches are equal when they matched the same part of the location
/// with equal routes (see [`same_route_data`]).
impl PartialEq for RouteMatch {
    fn eq(&self, other: &Self) -> (r: bool) {
        self.path_match == other.path_match && self.route == other.route
    }
}

impl vstd::std_specs::cmp::PartialEqSpecImpl for RouteMatch {
    open spec fn obeys_eq_spec() -> bool {
        true
    }

    open spec fn eq_spec(&self, other: &RouteMatch) -> bool {
        self.path_match.path@ == other.path_match.path@ && same_route_data(
            self.route@,
            other.route@,
        )
    }
}

impl Clone for PathMatch {
    fn clone(&self) -> (r: Self)
        ensures
            r.path@ == self.path@,
    {
        PathMatch { path: self.path.clone() }
    }
}

impl Clone for RouteMatch {
    fn clone(&self) -> (r: Self)
        ensures
            r@ == self@,
    {
        RouteMatch { path_match: self.path_match.clone(), route: self.route.clone() }
    }
}

/// Every definition is the same route as itself.
pub proof fn lemma_same_definition_reflexive(a: DefinitionView)
    ensures
        same_definition(a, a),
    decreases a, 1int,
{
    lemma_same_definitions_reflexive(a.children);
}

/// Every sequence of definitions agrees with itself.
pub proof fn lemma_same_definitions_reflexive(xs: Seq<DefinitionView>)
    ensures
        same_definitions(xs, xs),
    decreases xs, 0int,
{
    if xs.len() > 0 {
        lemma_same_definitions_reflexive(xs.drop_last());
        lemma_same_definition_reflexive(xs.last());
    }
}

/// Being the same route does not depend on the order of the two definitions.
pub proof fn lemma_same_definition_symmetric(a: DefinitionView, b: DefinitionView)
    ensures
        same_definition(a, b) == same_definition(b, a),
    decreases a, 1int,
{
    if a.children.len() == b.children.len() {
        lemma_same_definitions_symmetric(a.children, b.children);
    }
}

/// Agreeing element by element does not depend on the order of the two
/// sequences.
pub proof fn lemma_same_definitions_symmetric(xs: Seq<DefinitionView>, ys: Seq<DefinitionView>)
    ensures
        same_definitions(xs, ys) == same_definitions(ys, xs),
    decreases xs, 0int,
{
    if xs.len() > 0 && xs.len() == ys.len() {
        lemma_same_definitions_symmetric(xs.drop_last(), ys.drop_last());
        lemma_same_definition_symmetric(xs.last(), ys.last());
    }
}

/// Two definitions that are the same route as a third are the same route.
pub proof fn lemma_same_definition_transitive(a: DefinitionView, b: DefinitionView, c: DefinitionView)
    requires
        same_definition(a, b),
        same_definition(b, c),
    ensures
        same_definition(a, c),
    decreases a, 1int,
{
    lemma_same_definitions_transitive(a.children, b.children, c.children);
}

/// Sequences that agree element by element with a third agree.
pub proof fn lemma_same_definitions_transitive(
    xs: Seq<DefinitionView>,
    ys: Seq<DefinitionView>,
    zs: Seq<DefinitionView>,
)
    requires
        same_definitions(xs, ys),
        same_definitions(ys, zs),
    ensures
        same_definitions(xs, zs),
    decreases xs, 0int,
{
    if xs.len() > 0 {
        lemma_same_definitions_transitive(xs.drop_last(), ys.drop_last(), zs.drop_last());
        lemma_same_definition_transitive(xs.last(), ys.last(), zs.last());
    }
}

} // verus!
