//! Flattening the route tree into ranked branches.

use vstd::prelude::*;

use crate::matching::{
    DefinitionView, Matcher, MatcherView, RouteDefinition, definition_views, lemma_definition_views,
    same_definition,
};
use crate::paths::{expand_optionals, expanded_optionals, join_paths, joined_path, strings_view};
use crate::text::{chars_of, string_of, sub_chars};

verus! {

/// `p` holds the wildcard marker `/*` at index `i`.
pub open spec fn splat_at(p: Seq<char>, i: int) -> bool {
    0 <= i && i + 1 < p.len() && p[i] == '/' && p[i + 1] == '*'
}

/// The first index at or after `i` where `p` holds `/*`.
pub open spec fn first_splat_from(p: Seq<char>, i: int) -> Option<int>
    decreases p.len() - i,
{
    if i < 0 || i + 1 >= p.len() {
        None
    } else if splat_at(p, i) {
        Some(i)
    } else {
        first_splat_from(p, i + 1)
    }
}

/// Where the part of a pattern before its wildcard ends.
pub open spec fn pattern_end(p: Seq<char>) -> int {
    match first_splat_from(p, 0) {
        Some(i) => i,
        None => p.len() as int,
    }
}

/// A non-empty `/`-separated segment of `p` begins at index `i`.
pub open spec fn segment_starts(p: Seq<char>, i: int) -> bool {
    0 <= i < p.len() && p[i] != '/' && (i == 0 || p[i - 1] == '/')
}

/// The number of non-empty segments that begin before index `j`.
pub open spec fn segments_before(p: Seq<char>, j: int) -> int
    decreases j,
{
    if j <= 0 {
        0
    } else {
        segments_before(p, j - 1) + if segment_starts(p, j - 1) {
            1int
        } else {
            0int
        }
    }
}

/// The number of parameter segments (those that begin with `:`) that begin
/// before index `j`.
pub open spec fn params_before(p: Seq<char>, j: int) -> int
    decreases j,
{
    if j <= 0 {
        0
    } else {
        params_before(p, j - 1) + if segment_starts(p, j - 1) && p[j - 1] == ':' {
            1int
        } else {
            0int
        }
    }
}

/// The rank of a route pattern: each static segment before the wildcard
/// counts 4, each parameter segment 3, and a wildcard takes 1 away.
pub open spec fn route_score(p: Seq<char>) -> int {
    let splat: int = if first_splat_from(p, 0) is Some {
        1
    } else {
        0
    };
    4 * segments_before(p, pattern_end(p)) - params_before(p, pattern_end(p)) - splat
}

proof fn lemma_segment_counts_grow(p: Seq<char>, j: int, k: int)
    requires
        0 <= j <= k,
    ensures
        0 <= params_before(p, j) <= segments_before(p, j),
        3 * segments_before(p, j) - params_before(p, j) <= 3 * segments_before(p, k)
            - params_before(p, k),
        segments_before(p, j) <= segments_before(p, k),
    decreases k,
{
    if j < k {
        lemma_segment_counts_grow(p, j, k - 1);
        lemma_segment_counts_grow(p, k - 1, k - 1);
    } else if j > 0 {
        lemma_segment_counts_grow(p, j - 1, j - 1);
    }
}

/// The first `/*` found from `j` is at `i` exactly when there is one at `i`
/// and none between `j` and `i`; none is found when there is none from `j`.
pub proof fn lemma_first_splat(p: Seq<char>, j: int)
    requires
        0 <= j,
    ensures
        first_splat_from(p, j) matches Some(i) ==> j <= i && splat_at(p, i) && forall|k: int|
            j <= k < i ==> !splat_at(p, k),
        first_splat_from(p, j) is None <==> forall|k: int| j <= k ==> !splat_at(p, k),
    decreases p.len() - j,
{
    if j + 1 < p.len() && !splat_at(p, j) {
        lemma_first_splat(p, j + 1);
        if first_splat_from(p, j) is None {
            assert forall|k: int| j <= k implies !splat_at(p, k) by {
                if k > j {
                    assert(!splat_at(p, k));
                }
            }
        }
    }
}

proof fn lemma_first_splat_unique(p: Seq<char>, i: int)
    requires
        splat_at(p, i),
        forall|k: int| 0 <= k < i ==> !splat_at(p, k),
    ensures
        first_splat_from(p, 0) == Some(i),
{
    lemma_first_splat(p, 0);
    match first_splat_from(p, 0) {
        Some(m) => {
            if m < i {
                assert(!splat_at(p, m));
            }
            if m > i {
                assert(!splat_at(p, i));
            }
        },
        None => {
            assert(!splat_at(p, i));
        },
    }
}

proof fn lemma_counts_prefix(p: Seq<char>, t: Seq<char>, j: int)
    requires
        0 <= j <= p.len(),
    ensures
        segments_before(p + t, j) == segments_before(p, j),
        params_before(p + t, j) == params_before(p, j),
    decreases j,
{
    if j > 0 {
        lemma_counts_prefix(p, t, j - 1);
        assert((p + t)[j - 1] == p[j - 1]);
        if j > 1 {
            assert((p + t)[j - 2] == p[j - 2]);
        }
    }
}

proof fn lemma_counts_no_start(q: Seq<char>, lo: int, hi: int)
    requires
        0 <= lo <= hi <= q.len(),
        forall|k: int| lo <= k < hi ==> !segment_starts(q, k),
    ensures
        segments_before(q, hi) == segments_before(q, lo),
        params_before(q, hi) == params_before(q, lo),
    decreases hi - lo,
{
    if lo < hi {
        lemma_counts_no_start(q, lo, hi - 1);
    }
}

/// Adding a static segment at the end of a pattern without a wildcard adds 4
/// to its rank.
pub proof fn lemma_score_static_segment(p: Seq<char>, s: Seq<char>)
    requires
        first_splat_from(p, 0) is None,
        s.len() > 0,
        s[0] != ':',
        s[0] != '*',
        forall|k: int| 0 <= k < s.len() ==> s[k] != '/',
    ensures
        route_score(p + seq!['/'] + s) == route_score(p) + 4,
{
    let q = p + seq!['/'] + s;
    let n = p.len() as int;
    assert(q.len() == n + 1 + s.len());
    assert forall|k: int| 0 <= k < s.len() implies q[n + 1 + k] == s[k] by {}
    lemma_first_splat(p, 0);
    assert forall|k: int| 0 <= k implies !splat_at(q, k) by {
        if 0 <= k && k + 1 < q.len() {
            if k + 1 < n {
                assert(q[k] == p[k] && q[k + 1] == p[k + 1]);
                assert(!splat_at(p, k));
            } else if k + 1 == n {
                assert(q[k + 1] == '/');
            } else if k == n {
                assert(q[k + 1] == s[0]);
            } else {
                assert(q[k] == s[k - n - 1]);
            }
        }
    }
    lemma_first_splat(q, 0);
    lemma_counts_prefix(p, seq!['/'] + s, n);
    assert(p + (seq!['/'] + s) =~= q);
    assert(!segment_starts(q, n)) by {
        assert(q[n] == '/');
    }
    assert(segment_starts(q, n + 1)) by {
        assert(q[n] == '/');
    }
    assert forall|k: int| n + 2 <= k < q.len() implies !segment_starts(q, k) by {
        assert(q[k - 1] == s[k - n - 2]);
    }
    lemma_counts_no_start(q, n + 2, q.len() as int);
    assert(segments_before(q, n + 1) == segments_before(q, n));
    assert(segments_before(q, n + 2) == segments_before(q, n) + 1);
    assert(params_before(q, n + 1) == params_before(q, n));
    assert(params_before(q, n + 2) == params_before(q, n));
    assert(pattern_end(q) == q.len());
    assert(pattern_end(p) == n);
}

/// Adding a parameter segment at the end of a pattern without a wildcard
/// adds 3 to its rank.
pub proof fn lemma_score_param_segment(p: Seq<char>, s: Seq<char>)
    requires
        first_splat_from(p, 0) is None,
        forall|k: int| 0 <= k < s.len() ==> s[k] != '/',
    ensures
        route_score(p + seq!['/', ':'] + s) == route_score(p) + 3,
{
    let q = p + seq!['/', ':'] + s;
    let n = p.len() as int;
    assert(q.len() == n + 2 + s.len());
    assert forall|k: int| 0 <= k < s.len() implies q[n + 2 + k] == s[k] by {}
    lemma_first_splat(p, 0);
    assert forall|k: int| 0 <= k implies !splat_at(q, k) by {
        if 0 <= k && k + 1 < q.len() {
            if k + 1 < n {
                assert(q[k] == p[k] && q[k + 1] == p[k + 1]);
                assert(!splat_at(p, k));
            } else if k + 1 == n {
                assert(q[k + 1] == '/');
            } else if k == n {
                assert(q[k + 1] == ':');
            } else {
                assert(q[k] != '/');
            }
        }
    }
    lemma_first_splat(q, 0);
    lemma_counts_prefix(p, seq!['/', ':'] + s, n);
    assert(p + (seq!['/', ':'] + s) =~= q);
    assert(!segment_starts(q, n)) by {
        assert(q[n] == '/');
    }
    assert(segment_starts(q, n + 1) && q[n + 1] == ':') by {
        assert(q[n] == '/');
    }
    assert forall|k: int| n + 2 <= k < q.len() implies !segment_starts(q, k) by {
        assert(q[k - 1] != '/');
    }
    lemma_counts_no_start(q, n + 2, q.len() as int);
    assert(segments_before(q, n + 1) == segments_before(q, n));
    assert(segments_before(q, n + 2) == segments_before(q, n) + 1);
    assert(params_before(q, n + 1) == params_before(q, n));
    assert(params_before(q, n + 2) == params_before(q, n) + 1);
    assert(pattern_end(q) == q.len());
    assert(pattern_end(p) == n);
}

proof fn lemma_counts_shifted(p: Seq<char>, k: int)
    requires
        0 <= k <= p.len(),
    ensures
        segments_before(seq!['/'] + p + seq!['/'], k + 1) == segments_before(p, k),
        params_before(seq!['/'] + p + seq!['/'], k + 1) == params_before(p, k),
    decreases k,
{
    let q = seq!['/'] + p + seq!['/'];
    assert(q.len() == p.len() + 2);
    if k == 0 {
        assert(q[0] == '/');
        assert(!segment_starts(q, 0));
        assert(segments_before(q, 1) == segments_before(q, 0));
        assert(params_before(q, 1) == params_before(q, 0));
    } else {
        lemma_counts_shifted(p, k - 1);
        assert(q[k] == p[k - 1]);
        if k > 1 {
            assert(q[k - 1] == p[k - 2]);
        } else {
            assert(q[k - 1] == '/');
        }
        assert(segment_starts(q, k) == segment_starts(p, k - 1));
        assert(segments_before(q, k + 1) == segments_before(q, k) + if segment_starts(q, k) {
            1int
        } else {
            0int
        });
        assert(params_before(q, k + 1) == params_before(q, k) + if segment_starts(q, k) && q[k]
            == ':' {
            1int
        } else {
            0int
        });
    }
}

/// Slashes put around a pattern (that does not start with `*`) leave its
/// rank unchanged.
pub proof fn lemma_score_extra_slashes(p: Seq<char>)
    requires
        p.len() == 0 || p[0] != '*',
    ensures
        route_score(seq!['/'] + p + seq!['/']) == route_score(p),
{
    let q = seq!['/'] + p + seq!['/'];
    let n = p.len() as int;
    assert(q.len() == n + 2);
    assert forall|k: int| 0 <= k < n implies q[k + 1] == p[k] by {}
    assert(q[0] == '/' && q[n + 1] == '/');
    lemma_first_splat(p, 0);
    lemma_first_splat(q, 0);
    assert forall|k: int| 0 <= k < n - 1 implies splat_at(q, k + 1) == splat_at(p, k) by {}
    assert(!splat_at(q, 0)) by {
        if n > 0 {
            assert(q[1] == p[0]);
        }
    }
    assert(!splat_at(q, n)) by {
        assert(q[n + 1] == '/');
    }
    match first_splat_from(p, 0) {
        Some(i) => {
            assert(splat_at(q, i + 1));
            assert forall|k: int| 0 <= k < i + 1 implies !splat_at(q, k) by {
                if k > 0 {
                    assert(!splat_at(p, k - 1));
                }
            }
            lemma_first_splat_unique(q, i + 1);
            lemma_counts_shifted(p, i);
        },
        None => {
            assert forall|k: int| 0 <= k implies !splat_at(q, k) by {
                if k > 0 && k < n {
                    assert(!splat_at(p, k - 1));
                }
            }
            lemma_counts_shifted(p, n);
            assert(!segment_starts(q, n + 1));
        },
    }
}

/// The index of the first `/*` in `p`, if it has one.
fn find_splat(p: &Vec<char>) -> (r: Option<usize>)
    ensures
        r matches Some(i) ==> first_splat_from(p@, 0) == Some(i as int) && i < p@.len(),
        r is None ==> first_splat_from(p@, 0) is None,
{
    let n = p.len();
    let mut i: usize = 0;
    while i < n && i + 1 < n
        invariant
            n == p@.len(),
            i <= n,
            first_splat_from(p@, 0) == first_splat_from(p@, i as int),
        decreases n - i,
    {
        if p[i] == '/' && p[i + 1] == '*' {
            return Some(i);
        }
        i = i + 1;
    }
    None
}

/// One route of a branch: the definition it comes from, its full pattern
/// (joined onto the patterns of the routes above it) and the path it was
/// declared with.
#[derive(Debug)]
pub struct RouteData {
    pub id: usize,
    pub key: RouteDefinition,
    pub pattern: String,
    pub original_path: String,
    pub matcher: Matcher,
}

/// The rank of a route pattern (see [`route_score`]), computed wide enough
/// that it cannot overflow.
pub fn pattern_rank(pattern: &str) -> (r: i128)
    ensures
        r == route_score(pattern@),
        -1 <= r <= 4 * pattern@.len(),
{
    let p = chars_of(pattern);
    let ghost ps = p@;
    let n = p.len();
    let (end, splat) = match find_splat(&p) {
        Some(i) => (i, true),
        None => (n, false),
    };
    proof {
        lemma_segment_counts_grow(ps, end as int, end as int);
    }
    let mut count: usize = 0;
    let mut j: usize = 0;
    while j < end
        invariant
            end <= n,
            n == ps.len(),
            p@ == ps,
            j <= end,
            count <= j,
            count == segments_before(ps, j as int),
        decreases end - j,
    {
        if p[j] != '/' && (j == 0 || p[j - 1] == '/') {
            count = count + 1;
        }
        j = j + 1;
    }
    let mut score: i128 = count as i128 - if splat {
        1
    } else {
        0
    };
    let mut k: usize = 0;
    while k < end
        invariant
            end <= n,
            n == ps.len(),
            p@ == ps,
            k <= end,
            pattern_end(ps) == end,
            count == segments_before(ps, end as int),
            count <= end,
            splat == (first_splat_from(ps, 0) is Some),
            3 * segments_before(ps, end as int) - params_before(ps, end as int) <= 3 * count,
            score == count - (if splat {
                1int
            } else {
                0int
            }) + 3 * segments_before(ps, k as int) - params_before(ps, k as int),
        decreases end - k,
    {
        proof {
            lemma_segment_counts_grow(ps, (k + 1) as int, end as int);
            lemma_segment_counts_grow(ps, k as int, k as int);
        }
        if p[k] != '/' && (k == 0 || p[k - 1] == '/') {
            score = score + if p[k] == ':' {
                2
            } else {
                3
            };
        }
        k = k + 1;
    }
    proof {
        lemma_segment_counts_grow(ps, 0, end as int);
    }
    score
}

impl RouteData {
    /// The rank of this route's pattern (see [`route_score`]): more static
    /// segments rank higher than parameters, and a wildcard ranks lower.
    pub fn score(&self) -> (s: i32)
        requires
            route_score(self.pattern@) <= i32::MAX,
        ensures
            s == route_score(self.pattern@),
    {
        let rank = pattern_rank(self.pattern.as_str());
        rank as i32
    }
}

/// The mathematical value of a [`RouteData`].
pub ghost struct RouteDataView {
    pub id: usize,
    pub key: DefinitionView,
    pub pattern: Seq<char>,
    pub original_path: Seq<char>,
    pub matcher: MatcherView,
}

impl View for RouteData {
    type V = RouteDataView;

    open spec fn view(&self) -> RouteDataView {
        RouteDataView {
            id: self.id,
            key: self.key@,
            pattern: self.pattern@,
            original_path: self.original_path@,
            matcher: self.matcher@,
        }
    }
}

/// The views of a sequence of routes.
pub open spec fn routes_view(s: Seq<RouteData>) -> Seq<RouteDataView> {
    s.map_values(|r: RouteData| r@)
}

proof fn lemma_routes_view_push(s: Seq<RouteData>, r: RouteData)
    ensures
        routes_view(s.push(r)) == routes_view(s).push(r@),
{
    assert(routes_view(s.push(r)) =~= routes_view(s).push(r@));
}

impl Clone for RouteData {
    fn clone(&self) -> (r: Self)
        ensures
            r@ == self@,
    {
        RouteData {
            id: self.id,
            key: self.key.clone(),
            pattern: self.pattern.clone(),
            original_path: self.original_path.clone(),
            matcher: Matcher { pattern: self.matcher.pattern.clone(), partial: self.matcher.partial },
        }
    }
}

/// The pattern a route is matched with: the whole joined path for a route
/// without nested routes, and the part before its wildcard for one with them.
pub open spec fn route_pattern(is_leaf: bool, path: Seq<char>) -> Seq<char> {
    if is_leaf {
        path
    } else {
        path.take(pattern_end(path))
    }
}

/// The route made from definition `def`, mounted under pattern `base`, for
/// one expansion `original` of its path.
pub open spec fn route_data_for(def: DefinitionView, base: Seq<char>, original: Seq<char>) -> RouteDataView {
    let is_leaf = def.children.len() == 0;
    let pattern = route_pattern(is_leaf, joined_path(base, original));
    RouteDataView {
        id: def.id,
        key: def,
        pattern,
        original_path: original,
        matcher: MatcherView { pattern, partial: !is_leaf },
    }
}

/// The routes made from `def` under `base`: one for each expansion of its
/// optional parameters, in the order of [`expanded_optionals`].
pub open spec fn created_routes(def: DefinitionView, base: Seq<char>) -> Seq<RouteDataView> {
    expanded_optionals(def.path).map_values(|o: Seq<char>| route_data_for(def, base, o))
}

/// `path` cut before its first `/*`.
fn before_splat(path: &String) -> (r: String)
    ensures
        r@ == path@.take(pattern_end(path@)),
{
    let p = chars_of(path.as_str());
    match find_splat(&p) {
        Some(i) => {
            let r = sub_chars(&p, 0, i);
            string_of(&r)
        },
        None => {
            assert(path@.take(path@.len() as int) =~= path@);
            path.clone()
        },
    }
}

/// The routes of one definition mounted under `base` (see [`created_routes`]).
pub fn create_routes(route_def: &RouteDefinition, base: &str) -> (acc: Vec<RouteData>)
    ensures
        routes_view(acc@) == created_routes(route_def@, base@),
{
    let is_leaf = route_def.children.len() == 0;
    proof {
        lemma_definition_views(route_def.children@);
    }
    let mut acc: Vec<RouteData> = Vec::new();
    let expansions = expand_optionals(route_def.path.as_str());
    let ghost all = expanded_optionals(route_def@.path);
    let n = expansions.len();
    for i in 0..n
        invariant
            n == expansions@.len(),
            all == expanded_optionals(route_def@.path),
            strings_view(expansions@) == all,
            is_leaf == (route_def@.children.len() == 0),
            routes_view(acc@) == all.take(i as int).map_values(
                |o: Seq<char>| route_data_for(route_def@, base@, o),
            ),
    {
        let original_path = &expansions[i];
        assert(original_path@ == all[i as int]);
        let path = join_paths(base, original_path.as_str());
        let pattern = if is_leaf {
            path
        } else {
            before_splat(&path)
        };
        let route = RouteData {
            key: route_def.clone(),
            id: route_def.id,
            matcher: Matcher::new_with_partial(pattern.as_str(), !is_leaf),
            pattern,
            original_path: original_path.clone(),
        };
        let ghost prev = acc@;
        acc.push(route);
        proof {
            lemma_routes_view_push(prev, route);
            assert(all.take(i + 1) =~= all.take(i as int).push(all[i as int]));
            assert(routes_view(acc@) =~= all.take(i + 1).map_values(
                |o: Seq<char>| route_data_for(route_def@, base@, o),
            ));
        }
    }
    assert(all.take(n as int) =~= all);
    acc
}

/// One path through the route tree, from a top-level route down to a route
/// without nested routes, with its rank.
#[derive(Debug)]
pub struct Branch {
    pub routes: Vec<RouteData>,
    pub score: i32,
}

/// The mathematical value of a [`Branch`].
pub ghost struct BranchView {
    pub routes: Seq<RouteDataView>,
    pub score: int,
}

impl View for Branch {
    type V = BranchView;

    open spec fn view(&self) -> BranchView {
        BranchView { routes: routes_view(self.routes@), score: self.score as int }
    }
}

/// The views of a sequence of branches.
pub open spec fn branches_view(s: Seq<Branch>) -> Seq<BranchView> {
    s.map_values(|b: Branch| b@)
}

proof fn lemma_branches_view_push(s: Seq<Branch>, b: Branch)
    ensures
        branches_view(s.push(b)) == branches_view(s).push(b@),
{
    assert(branches_view(s.push(b)) =~= branches_view(s).push(b@));
}

/// The rank of the branch made of `routes` that was the `index`-th one made:
/// the rank of its last route, scaled so that branches made earlier win ties.
pub open spec fn branch_score(routes: Seq<RouteDataView>, index: int) -> int {
    route_score(routes.last().pattern) * 10000 - index
}

/// Among the first 10000 branches made, a branch whose last route ranks
/// higher outranks one whose last route ranks lower, and of two whose last
/// routes rank the same the one made first outranks the other.
pub proof fn lemma_branch_score_order(a: Seq<RouteDataView>, b: Seq<RouteDataView>, i: int, j: int)
    requires
        0 <= i < 10000,
        0 <= j < 10000,
    ensures
        route_score(a.last().pattern) > route_score(b.last().pattern) ==> branch_score(a, i)
            > branch_score(b, j),
        route_score(a.last().pattern) == route_score(b.last().pattern) && i < j ==> branch_score(
            a,
            i,
        ) > branch_score(b, j),
{
}

/// A branch's rank is computed without leaving `i32`: the index it is made
/// with, its last route's rank times 10000, and the difference all fit.
pub open spec fn branch_score_fits(routes: Seq<RouteDataView>, index: int) -> bool {
    &&& 0 <= index <= i32::MAX
    &&& i32::MIN <= route_score(routes.last().pattern) * 10000 <= i32::MAX
    &&& i32::MIN <= branch_score(routes, index)
}

/// The branch made of `routes`, the `index`-th one made.
pub fn create_branch(routes: &[RouteData], index: usize) -> (b: Branch)
    requires
        routes@.len() > 0,
        branch_score_fits(routes_view(routes@), index as int),
    ensures
        b@ == (BranchView {
            routes: routes_view(routes@),
            score: branch_score(routes_view(routes@), index as int),
        }),
{
    let n = routes.len();
    let mut copy: Vec<RouteData> = Vec::new();
    for i in 0..n
        invariant
            n == routes@.len(),
            routes_view(copy@) == routes_view(routes@).take(i as int),
    {
        let r = routes[i].clone();
        let ghost prev = copy@;
        copy.push(r);
        proof {
            lemma_routes_view_push(prev, r);
            assert(routes_view(routes@).take(i + 1) =~= routes_view(routes@).take(i as int).push(
                routes@[i as int]@,
            ));
        }
    }
    assert(routes_view(routes@).take(n as int) =~= routes_view(routes@));
    let last = &routes[n - 1];
    let ghost raw = route_score(last.pattern@);
    assert(routes_view(routes@).last() == last@);
    assert(raw <= i32::MAX) by (nonlinear_arith)
        requires
            raw * 10000 <= i32::MAX,
    ;
    let s = last.score();
    assert(s * 10000 - index == raw * 10000 - index);
    Branch { routes: copy, score: s * 10000 - (index as i32) }
}

/// `sorted` with `b` put right after the last element, counted from the end,
/// whose rank is at least `b`'s.
pub open spec fn insert_by_score(sorted: Seq<BranchView>, b: BranchView) -> Seq<BranchView>
    decreases sorted.len(),
{
    if sorted.len() == 0 {
        seq![b]
    } else if sorted.last().score >= b.score {
        sorted.push(b)
    } else {
        insert_by_score(sorted.drop_last(), b).push(sorted.last())
    }
}

/// `s` ordered by rank, highest first, each element inserted in turn, so that
/// branches of equal rank keep their order.
pub open spec fn sorted_by_score(s: Seq<BranchView>) -> Seq<BranchView>
    decreases s.len(),
{
    if s.len() == 0 {
        s
    } else {
        insert_by_score(sorted_by_score(s.drop_last()), s.last())
    }
}

/// Ranks do not increase along `s`.
pub open spec fn descending(s: Seq<BranchView>) -> bool {
    forall|i: int, j: int| 0 <= i < j < s.len() ==> s[i].score >= s[j].score
}

proof fn lemma_insert_at(s: Seq<BranchView>, b: BranchView, j: int)
    requires
        0 <= j <= s.len(),
        forall|k: int| j <= k < s.len() ==> s[k].score < b.score,
        j == 0 || s[j - 1].score >= b.score,
    ensures
        insert_by_score(s, b) == s.insert(j, b),
    decreases s.len(),
{
    if s.len() == 0 {
        assert(s.insert(j, b) =~= seq![b]);
    } else if j == s.len() {
        assert(s.insert(j, b) =~= s.push(b));
    } else {
        lemma_insert_at(s.drop_last(), b, j);
        assert(s.drop_last().insert(j, b).push(s.last()) =~= s.insert(j, b));
    }
}

/// Sorts `branches` by rank, highest first, keeping the order of branches of
/// equal rank.
fn sort_by_score(branches: &mut Vec<Branch>)
    ensures
        branches_view(final(branches)@) == sorted_by_score(branches_view(old(branches)@)),
{
    let mut input: Vec<Branch> = Vec::new();
    std::mem::swap(&mut input, branches);
    let ghost orig = branches_view(input@);
    let mut sorted: Vec<Branch> = Vec::new();
    let ghost mut k: int = 0;
    while input.len() > 0
        invariant
            0 <= k <= orig.len(),
            input@.len() == orig.len() - k,
            branches_view(input@) == orig.skip(k),
            branches_view(sorted@) == sorted_by_score(orig.take(k)),
        decreases input@.len(),
    {
        let ghost before = input@;
        assert(branches_view(before)[0] == orig.skip(k)[0]);
        let b = input.remove(0);
        assert(b == before[0]);
        assert(b@ == orig[k]);
        let ghost s = branches_view(sorted@);
        let mut j = sorted.len();
        while j > 0 && sorted[j - 1].score < b.score
            invariant
                j <= sorted@.len(),
                s == branches_view(sorted@),
                forall|m: int| j <= m < s.len() ==> s[m].score < b@.score,
            decreases j,
        {
            j = j - 1;
        }
        proof {
            lemma_insert_at(s, b@, j as int);
        }
        sorted.insert(j, b);
        proof {
            assert(branches_view(sorted@) =~= s.insert(j as int, b@));
            assert(orig.take(k + 1).drop_last() =~= orig.take(k));
            assert(orig.take(k + 1).last() == orig[k]);
            assert(input@ =~= before.skip(1));
            assert forall|m: int| 0 <= m < input@.len() implies #[trigger] branches_view(input@)[m]
                == orig.skip(k + 1)[m] by {
                assert(input@[m] == before[m + 1]);
                assert(branches_view(before)[m + 1] == orig.skip(k)[m + 1]);
            }
            assert(branches_view(input@) =~= orig.skip(k + 1));
            k = k + 1;
        }
    }
    assert(orig.take(k) =~= orig);
    *branches = sorted;
}

/// The branches of `s` whose rank is `x`, in their order in `s`.
pub open spec fn with_score(s: Seq<BranchView>, x: int) -> Seq<BranchView> {
    s.filter(|v: BranchView| v.score == x)
}

proof fn lemma_with_score_push(s: Seq<BranchView>, b: BranchView, x: int)
    ensures
        with_score(s.push(b), x) == if b.score == x {
            with_score(s, x).push(b)
        } else {
            with_score(s, x)
        },
{
    s.lemma_filter_push(b, |v: BranchView| v.score == x);
}

proof fn lemma_insert_keeps_order(t: Seq<BranchView>, b: BranchView, x: int)
    ensures
        with_score(insert_by_score(t, b), x) == if b.score == x {
            with_score(t, x).push(b)
        } else {
            with_score(t, x)
        },
    decreases t.len(),
{
    if t.len() == 0 {
        assert(seq![b] =~= Seq::<BranchView>::empty().push(b));
        lemma_with_score_push(Seq::empty(), b, x);
        assert(with_score(Seq::<BranchView>::empty(), x) =~= Seq::<BranchView>::empty());
        assert(t =~= Seq::<BranchView>::empty());
    } else if t.last().score >= b.score {
        lemma_with_score_push(t, b, x);
    } else {
        let t0 = t.drop_last();
        lemma_insert_keeps_order(t0, b, x);
        lemma_with_score_push(insert_by_score(t0, b), t.last(), x);
        assert(t0.push(t.last()) =~= t);
        lemma_with_score_push(t0, t.last(), x);
    }
}

proof fn lemma_insert_multiset(t: Seq<BranchView>, b: BranchView)
    ensures
        insert_by_score(t, b).to_multiset() == t.to_multiset().insert(b),
    decreases t.len(),
{
    broadcast use vstd::seq_lib::group_to_multiset_ensures;

    if t.len() == 0 {
        assert(seq![b] =~= t.push(b));
    } else if t.last().score >= b.score {
    } else {
        let t0 = t.drop_last();
        lemma_insert_multiset(t0, b);
        assert(t0.push(t.last()) =~= t);
        assert(insert_by_score(t, b).to_multiset() =~= t.to_multiset().insert(b));
    }
}

proof fn lemma_insert_lower_bound(t: Seq<BranchView>, b: BranchView, m: int)
    requires
        forall|i: int| 0 <= i < t.len() ==> t[i].score >= m,
        b.score >= m,
    ensures
        forall|i: int|
            0 <= i < insert_by_score(t, b).len() ==> #[trigger] insert_by_score(t, b)[i].score >= m,
        insert_by_score(t, b).len() == t.len() + 1,
    decreases t.len(),
{
    if t.len() > 0 && t.last().score < b.score {
        lemma_insert_lower_bound(t.drop_last(), b, m);
    }
}

proof fn lemma_insert_descending(t: Seq<BranchView>, b: BranchView)
    requires
        descending(t),
    ensures
        descending(insert_by_score(t, b)),
    decreases t.len(),
{
    if t.len() == 0 {
    } else if t.last().score >= b.score {
        let u = t.push(b);
        assert forall|i: int, j: int| 0 <= i < j < u.len() implies u[i].score >= u[j].score by {
            if j == t.len() {
                assert(t[i].score >= t.last().score);
            }
        }
    } else {
        let t0 = t.drop_last();
        let last = t.last();
        lemma_insert_descending(t0, b);
        lemma_insert_lower_bound(t0, b, last.score);
        let u = insert_by_score(t0, b);
        assert forall|i: int, j: int| 0 <= i < j < u.len() + 1 implies u.push(last)[i].score
            >= u.push(last)[j].score by {
            if j == u.len() {
                assert(u[i].score >= last.score);
            }
        }
    }
}

/// Ordering branches by rank gives ranks that do not increase along the
/// result.
pub proof fn lemma_sorted_descending(s: Seq<BranchView>)
    ensures
        descending(sorted_by_score(s)),
    decreases s.len(),
{
    if s.len() > 0 {
        lemma_sorted_descending(s.drop_last());
        lemma_insert_descending(sorted_by_score(s.drop_last()), s.last());
    }
}

/// Ordering branches by rank neither adds nor loses a branch.
pub proof fn lemma_sorted_permutation(s: Seq<BranchView>)
    ensures
        sorted_by_score(s).to_multiset() == s.to_multiset(),
    decreases s.len(),
{
    broadcast use vstd::seq_lib::group_to_multiset_ensures;

    if s.len() > 0 {
        lemma_sorted_permutation(s.drop_last());
        lemma_insert_multiset(sorted_by_score(s.drop_last()), s.last());
        assert(s.drop_last().push(s.last()) =~= s);
    }
}

/// Ordering branches by rank keeps branches of equal rank in the order they
/// were made in.
pub proof fn lemma_sorted_stable(s: Seq<BranchView>, x: int)
    ensures
        with_score(sorted_by_score(s), x) == with_score(s, x),
    decreases s.len(),
{
    if s.len() == 0 {
    } else {
        lemma_sorted_stable(s.drop_last(), x);
        lemma_insert_keeps_order(sorted_by_score(s.drop_last()), s.last(), x);
        assert(s.drop_last().push(s.last()) =~= s);
        lemma_with_score_push(s.drop_last(), s.last(), x);
    }
}

/// The branches made, in the order they are made, from the definitions
/// `defs` mounted under pattern `base` below the routes `stack`, when the
/// first of them is the `start`-th branch made.
pub open spec fn branches_from_defs(
    defs: Seq<DefinitionView>,
    base: Seq<char>,
    stack: Seq<RouteDataView>,
    start: int,
) -> Seq<BranchView>
    decreases defs, 0int,
{
    if defs.len() == 0 {
        Seq::empty()
    } else {
        let first = branches_from_routes(defs[0], created_routes(defs[0], base), stack, start);
        first + branches_from_defs(defs.drop_first(), base, stack, start + first.len())
    }
}

/// The branches made from the routes `routes` of definition `def`, in order:
/// a route of a definition without nested routes closes a branch; one of a
/// definition with nested routes is the base of the branches of those.
pub open spec fn branches_from_routes(
    def: DefinitionView,
    routes: Seq<RouteDataView>,
    stack: Seq<RouteDataView>,
    start: int,
) -> Seq<BranchView>
    decreases def, routes.len(),
{
    if routes.len() == 0 {
        Seq::empty()
    } else {
        let r = routes[0];
        let path = stack.push(r);
        let here = if def.children.len() == 0 {
            seq![BranchView { routes: path, score: branch_score(path, start) }]
        } else {
            branches_from_defs(def.children, r.pattern, path, start)
        };
        here + branches_from_routes(def, routes.drop_first(), stack, start + here.len())
    }
}

/// Every branch of `bs`, the first being the `start`-th made, has a rank
/// that is computed without leaving `i32`.
pub open spec fn scores_fit(bs: Seq<BranchView>, start: int) -> bool {
    forall|k: int| 0 <= k < bs.len() ==> branch_score_fits(#[trigger] bs[k].routes, start + k)
}

proof fn lemma_scores_fit_split(a: Seq<BranchView>, b: Seq<BranchView>, start: int)
    requires
        scores_fit(a + b, start),
    ensures
        scores_fit(a, start),
        scores_fit(b, start + a.len()),
{
    assert forall|k: int| 0 <= k < a.len() implies branch_score_fits(
        #[trigger] a[k].routes,
        start + k,
    ) by {
        assert((a + b)[k] == a[k]);
    }
    assert forall|k: int| 0 <= k < b.len() implies branch_score_fits(
        #[trigger] b[k].routes,
        start + a.len() + k,
    ) by {
        assert((a + b)[a.len() + k] == b[k]);
    }
}

proof fn lemma_scores_fit_join(a: Seq<BranchView>, b: Seq<BranchView>, start: int)
    requires
        scores_fit(a, start),
        scores_fit(b, start + a.len()),
    ensures
        scores_fit(a + b, start),
{
    assert forall|k: int| 0 <= k < (a + b).len() implies branch_score_fits(
        #[trigger] (a + b)[k].routes,
        start + k,
    ) by {
        if k < a.len() {
            assert((a + b)[k] == a[k]);
        } else {
            assert((a + b)[k] == b[k - a.len()]);
            assert(branch_score_fits(b[k - a.len()].routes, start + a.len() + (k - a.len())));
        }
    }
}

/// Appends to `branches` the branches of `route_defs` mounted under `base`
/// below the routes `stack` (see [`branches_from_defs`]); called with an
/// empty `stack`, it then orders all of `branches` by rank, highest first.
/// Returns `false`, and stops with `stack` as it was, where the rank of a
/// branch would leave `i32`.
fn create_branches(
    route_defs: &[RouteDefinition],
    base: &str,
    stack: &mut Vec<RouteData>,
    branches: &mut Vec<Branch>,
) -> (ok: bool)
    ensures
        ok == scores_fit(
            branches_from_defs(
                definition_views(route_defs@),
                base@,
                routes_view(old(stack)@),
                old(branches)@.len() as int,
            ),
            old(branches)@.len() as int,
        ),
        final(stack)@ == old(stack)@,
        ok ==> ({
            let all = branches_view(old(branches)@) + branches_from_defs(
                definition_views(route_defs@),
                base@,
                routes_view(old(stack)@),
                old(branches)@.len() as int,
            );
            branches_view(final(branches)@) == if old(stack)@.len() == 0 {
                sorted_by_score(all)
            } else {
                all
            }
        }),
    decreases route_defs@,
{
    let ghost stack0 = stack@;
    let ghost s = routes_view(stack@);
    let ghost b0 = branches_view(branches@);
    let ghost start0 = branches@.len() as int;
    let ghost defs = definition_views(route_defs@);
    let ghost whole = branches_from_defs(defs, base@, s, start0);
    let ghost mut done: Seq<BranchView> = Seq::empty();
    proof {
        lemma_definition_views(route_defs@);
        assert(defs.skip(0) =~= defs);
        assert(whole =~= done + whole);
    }
    let n = route_defs.len();
    for i in 0..n
        invariant
            n == route_defs@.len(),
            defs == definition_views(route_defs@),
            defs.len() == n,
            forall|k: int| 0 <= k < n ==> #[trigger] defs[k] == route_defs@[k]@,
            stack@ == stack0,
            s == routes_view(stack0),
            stack0 == old(stack)@,
            start0 == old(branches)@.len(),
            branches@.len() == start0 + done.len(),
            branches_view(branches@) == b0 + done,
            whole == branches_from_defs(defs, base@, s, start0),
            whole == done + branches_from_defs(defs.skip(i as int), base@, s, start0 + done.len()),
            scores_fit(done, start0),
    {
        let def = &route_defs[i];
        let routes = create_routes(def, base);
        let ghost r = created_routes(defs[i as int], base@);
        let ghost c0 = start0 + done.len();
        let ghost part = branches_from_routes(defs[i as int], r, s, c0);
        let ghost rest = branches_from_defs(defs.skip(i + 1), base@, s, c0 + part.len());
        let ghost mut done_here: Seq<BranchView> = Seq::empty();
        proof {
            assert(defs.skip(i as int).drop_first() =~= defs.skip(i + 1));
            assert(defs.skip(i as int)[0] == defs[i as int]);
            assert(branches_from_defs(defs.skip(i as int), base@, s, c0) == part + rest);
            assert(r.skip(0) =~= r);
            assert(part =~= done_here + part);
            lemma_definition_views(def.children@);
        }
        let m = routes.len();
        for j in 0..m
            invariant
                m == routes@.len(),
                routes_view(routes@) == r,
                r == created_routes(defs[i as int], base@),
                defs[i as int] == def@,
                def@.children.len() == def.children@.len(),
                i < n,
                n == route_defs@.len(),
                def == route_defs@[i as int],
                stack@ == stack0,
                s == routes_view(stack0),
                stack0 == old(stack)@,
                start0 == old(branches)@.len(),
                defs == definition_views(route_defs@),
                branches@.len() == c0 + done_here.len(),
                branches_view(branches@) == b0 + done + done_here,
                c0 == start0 + done.len(),
                whole == done + (part + rest),
                scores_fit(done + done_here, start0),
                whole == branches_from_defs(defs, base@, s, start0),
                part == done_here + branches_from_routes(
                    defs[i as int],
                    r.skip(j as int),
                    s,
                    c0 + done_here.len(),
                ),
        {
            let route = &routes[j];
            let ghost c = c0 + done_here.len();
            let ghost path = s.push(r[j as int]);
            let ghost here = if def@.children.len() == 0 {
                seq![BranchView { routes: path, score: branch_score(path, c) }]
            } else {
                branches_from_defs(def@.children, r[j as int].pattern, path, c)
            };
            let ghost later = branches_from_routes(defs[i as int], r.skip(j + 1), s, c + here.len());
            proof {
                assert(r.skip(j as int).drop_first() =~= r.skip(j + 1));
                assert(r.skip(j as int)[0] == r[j as int]);
                assert(branches_from_routes(defs[i as int], r.skip(j as int), s, c) == here + later);
                assert(route@ == r[j as int]);
                assert(whole =~= (done + done_here) + (here + (later + rest)));
            }
            let copy = route.clone();
            stack.push(copy);
            proof {
                lemma_routes_view_push(stack0, copy);
                assert(routes_view(stack@) == path);
                assert(stack@.len() > 0);
            }
            if def.children.len() == 0 {
                let rank = pattern_rank(route.pattern.as_str());
                let index = branches.len();
                if !(rank <= 214748 && index <= 0x7fff_ffff && rank * 10000 - (index as i128)
                    >= -0x8000_0000) {
                    proof {
                        assert(path.last() == r[j as int]);
                        assert(!branch_score_fits(here[0].routes, c + 0));
                        if scores_fit(whole, start0) {
                            lemma_scores_fit_split(done + done_here, here + (later + rest), start0);
                            lemma_scores_fit_split(here, later + rest, c);
                            assert(branch_score_fits(here[0].routes, c + 0));
                        }
                    }
                    stack.pop();
                    proof {
                        assert(stack@ =~= stack0);
                    }
                    return false;
                }
                proof {
                    assert(here[0].routes == path);
                }
                let branch = create_branch(stack.as_slice(), index);
                let ghost prev = branches@;
                branches.push(branch);
                proof {
                    lemma_branches_view_push(prev, branch);
                    assert(here[0] == branch@);
                    assert(scores_fit(here, c));
                    lemma_scores_fit_join(done + done_here, here, start0);
                    assert(branches_view(branches@) =~= b0 + done + (done_here + here));
                }
            } else {
                let ghost prev = branches_view(branches@);
                let ok = create_branches(
                    def.children.as_slice(),
                    route.pattern.as_str(),
                    stack,
                    branches,
                );
                proof {
                    assert(def@.children == definition_views(def.children@));
                    assert(route.pattern@ == r[j as int].pattern);
                }
                if !ok {
                    proof {
                        assert(!scores_fit(here, c));
                        if scores_fit(whole, start0) {
                            lemma_scores_fit_split(done + done_here, here + (later + rest), start0);
                            lemma_scores_fit_split(here, later + rest, c);
                        }
                    }
                    stack.pop();
                    proof {
                        assert(stack@ =~= stack0);
                    }
                    return false;
                }
                proof {
                    assert(branches_view(branches@) == prev + branches_from_defs(
                        definition_views(def.children@),
                        route.pattern@,
                        path,
                        c,
                    ));
                    assert(branches_view(branches@) == prev + here);
                    assert(branches_view(branches@) =~= b0 + done + (done_here + here));
                    lemma_scores_fit_join(done + done_here, here, start0);
                }
            }
            stack.pop();
            proof {
                assert(stack@ =~= stack0);
                assert(part =~= (done_here + here) + later);
                assert((done + done_here) + here =~= done + (done_here + here));
                done_here = done_here + here;
            }
        }
        proof {
            assert(r.skip(m as int) =~= Seq::<RouteDataView>::empty());
            assert(part =~= done_here);
            assert(whole =~= (done + part) + rest);
            assert(branches_view(branches@) =~= b0 + (done + part));
            assert(done + done_here =~= done + part);
            done = done + part;
        }
    }
    proof {
        assert(defs.skip(n as int) =~= Seq::<DefinitionView>::empty());
        assert(whole =~= done);
    }
    if stack.len() == 0 {
        sort_by_score(branches);
    }
    true
}

/// The branches that the application's routes make when they are mounted
/// under `base`, highest rank first.
pub open spec fn initial_branches(children: Seq<DefinitionView>, base: Seq<char>) -> Seq<BranchView> {
    sorted_by_score(branches_from_defs(children, base, Seq::empty(), 0))
}

/// The ranks of the branches of `children` under `base` can be computed in
/// `i32`.
pub open spec fn branches_fit(children: Seq<DefinitionView>, base: Seq<char>) -> bool {
    scores_fit(branches_from_defs(children, base, Seq::empty(), 0), 0)
}

/// Whether the ranks of the branches of `children` under `base` can be
/// computed in `i32`, as [`Branches::initialize`] needs.
pub fn can_create_branches(children: &[RouteDefinition], base: &str) -> (r: bool)
    ensures
        r == branches_fit(definition_views(children@), base@),
{
    let mut stack: Vec<RouteData> = Vec::new();
    let mut branches: Vec<Branch> = Vec::new();
    assert(routes_view(stack@) =~= Seq::<RouteDataView>::empty());
    create_branches(children, base, &mut stack, &mut branches)
}

/// The branches of the application's routes, made once, on first use.
pub struct Branches {
    branches: Option<Vec<Branch>>,
}

impl View for Branches {
    type V = Option<Seq<BranchView>>;

    closed spec fn view(&self) -> Option<Seq<BranchView>> {
        match self.branches {
            Some(v) => Some(branches_view(v@)),
            None => None,
        }
    }
}

impl Branches {
    /// A store that has not made its branches yet.
    pub fn new() -> (r: Branches)
        ensures
            r@ is None,
    {
        Branches { branches: None }
    }

    /// Whether the branches have been made.
    pub fn is_initialized(&self) -> (r: bool)
        ensures
            r == self@ is Some,
    {
        self.branches.is_some()
    }

    /// Makes the branches of `children` mounted under `base`, ordered by
    /// rank, unless they have been made already: only the first call has an
    /// effect.
    pub fn initialize(&mut self, base: &str, children: &[RouteDefinition])
        requires
            old(self)@ is Some || branches_fit(definition_views(children@), base@),
        ensures
            final(self)@ == if old(self)@ is Some {
                old(self)@
            } else {
                Some(initial_branches(definition_views(children@), base@))
            },
    {
        if self.branches.is_none() {
            let mut branches: Vec<Branch> = Vec::new();
            let mut stack: Vec<RouteData> = Vec::new();
            assert(routes_view(stack@) =~= Seq::<RouteDataView>::empty());
            assert(branches_view(branches@) =~= Seq::<BranchView>::empty());
            let ok = create_branches(children, base, &mut stack, &mut branches);
            assert(Seq::<BranchView>::empty() + branches_from_defs(
                definition_views(children@),
                base@,
                Seq::empty(),
                0,
            ) =~= branches_from_defs(definition_views(children@), base@, Seq::empty(), 0));
            self.branches = Some(branches);
        }
    }

    /// Hands the branches to `cb` and returns what it returns. The branches
    /// must have been made.
    pub fn with<T>(&self, cb: impl FnOnce(&[Branch]) -> T) -> (r: T)
        requires
            self@ is Some,
            forall|s: &[Branch]| branches_view(s@) == self@->0 ==> call_requires(cb, (s,)),
        ensures
            exists|s: &[Branch]| branches_view(s@) == self@->0 && call_ensures(cb, (s,), r),
    {
        match &self.branches {
            Some(v) => {
                let s = v.as_slice();
                cb(s)
            },
            None => {
                proof {
                    assert(false);
                }
                cb(&[])
            },
        }
    }
}

/// Two routes are equal when their ids, patterns, declared paths and
/// matchers are, and their definitions are the same route.
pub open spec fn same_route_data(a: RouteDataView, b: RouteDataView) -> bool {
    &&& a.id == b.id
    &&& same_definition(a.key, b.key)
    &&& a.pattern == b.pattern
    &&& a.original_path == b.original_path
    &&& a.matcher == b.matcher
}

impl PartialEq for RouteData {
    fn eq(&self, other: &Self) -> (r: bool) {
        self.id == other.id && self.key == other.key && self.pattern == other.pattern
            && self.original_path == other.original_path && self.matcher == other.matcher
    }
}

impl vstd::std_specs::cmp::PartialEqSpecImpl for RouteData {
    open spec fn obeys_eq_spec() -> bool {
        true
    }

    open spec fn eq_spec(&self, other: &RouteData) -> bool {
        same_route_data(self@, other@)
    }
}

/// Every branch of `bs` goes on from the routes `stack`, and the `k`-th is
/// ranked by its last route and by being the `start + k`-th branch made.
pub open spec fn ranked_below(bs: Seq<BranchView>, stack: Seq<RouteDataView>, start: int) -> bool {
    forall|k: int|
        0 <= k < bs.len() ==> {
            &&& (#[trigger] bs[k]).score == branch_score(bs[k].routes, start + k)
            &&& bs[k].routes.len() > stack.len()
            &&& bs[k].routes.take(stack.len() as int) == stack
        }
}

proof fn lemma_ranked_below_join(
    a: Seq<BranchView>,
    b: Seq<BranchView>,
    stack: Seq<RouteDataView>,
    start: int,
)
    requires
        ranked_below(a, stack, start),
        ranked_below(b, stack, start + a.len()),
    ensures
        ranked_below(a + b, stack, start),
{
    assert forall|k: int| 0 <= k < (a + b).len() implies {
        &&& (#[trigger] (a + b)[k]).score == branch_score((a + b)[k].routes, start + k)
        &&& (a + b)[k].routes.len() > stack.len()
        &&& (a + b)[k].routes.take(stack.len() as int) == stack
    } by {
        if k >= a.len() {
            assert((a + b)[k] == b[k - a.len()]);
        }
    }
}

proof fn lemma_ranked_below_deeper(bs: Seq<BranchView>, stack: Seq<RouteDataView>, r: RouteDataView, start: int)
    requires
        ranked_below(bs, stack.push(r), start),
    ensures
        ranked_below(bs, stack, start),
{
    assert forall|k: int| 0 <= k < bs.len() implies {
        &&& (#[trigger] bs[k]).score == branch_score(bs[k].routes, start + k)
        &&& bs[k].routes.len() > stack.len()
        &&& bs[k].routes.take(stack.len() as int) == stack
    } by {
        assert(bs[k].routes.take(stack.len() + 1int) == stack.push(r));
        assert(bs[k].routes.take(stack.len() as int) =~= stack.push(r).take(stack.len() as int));
        assert(stack.push(r).take(stack.len() as int) =~= stack);
    }
}

/// The branches made from `defs` below `stack` all go on from `stack`, and
/// each is ranked by its last route and by the order it was made in (see
/// [`branch_score`]): of two branches whose last routes rank the same, the
/// one made first ranks higher.
pub proof fn lemma_branches_from_defs_ranked(
    defs: Seq<DefinitionView>,
    base: Seq<char>,
    stack: Seq<RouteDataView>,
    start: int,
)
    ensures
        ranked_below(branches_from_defs(defs, base, stack, start), stack, start),
    decreases defs, 0int,
{
    if defs.len() > 0 {
        let first = branches_from_routes(defs[0], created_routes(defs[0], base), stack, start);
        lemma_branches_from_routes_ranked(defs[0], created_routes(defs[0], base), stack, start);
        lemma_branches_from_defs_ranked(defs.drop_first(), base, stack, start + first.len());
        lemma_ranked_below_join(
            first,
            branches_from_defs(defs.drop_first(), base, stack, start + first.len()),
            stack,
            start,
        );
    }
}

/// The branches made from the routes `routes` of `def` below `stack` all go
/// on from `stack`, each ranked as in [`lemma_branches_from_defs_ranked`].
pub proof fn lemma_branches_from_routes_ranked(
    def: DefinitionView,
    routes: Seq<RouteDataView>,
    stack: Seq<RouteDataView>,
    start: int,
)
    ensures
        ranked_below(branches_from_routes(def, routes, stack, start), stack, start),
    decreases def, routes.len(),
{
    if routes.len() > 0 {
        let r = routes[0];
        let path = stack.push(r);
        let here = if def.children.len() == 0 {
            seq![BranchView { routes: path, score: branch_score(path, start) }]
        } else {
            branches_from_defs(def.children, r.pattern, path, start)
        };
        if def.children.len() == 0 {
            assert(path.take(stack.len() as int) =~= stack);
            assert(ranked_below(here, stack, start));
        } else {
            lemma_branches_from_defs_ranked(def.children, r.pattern, path, start);
            lemma_ranked_below_deeper(here, stack, r, start);
        }
        lemma_branches_from_routes_ranked(def, routes.drop_first(), stack, start + here.len());
        lemma_ranked_below_join(
            here,
            branches_from_routes(def, routes.drop_first(), stack, start + here.len()),
            stack,
            start,
        );
    }
}

/// Every branch of `bs` has at least one route, and its last route comes from
/// a definition without nested routes.
pub open spec fn ends_at_leaves(bs: Seq<BranchView>) -> bool {
    forall|k: int|
        0 <= k < bs.len() ==> (#[trigger] bs[k]).routes.len() > 0 && bs[k].routes.last().key.children.len()
            == 0
}

proof fn lemma_ends_at_leaves_join(a: Seq<BranchView>, b: Seq<BranchView>)
    requires
        ends_at_leaves(a),
        ends_at_leaves(b),
    ensures
        ends_at_leaves(a + b),
{
    assert forall|k: int| 0 <= k < (a + b).len() implies (#[trigger] (a + b)[k]).routes.len() > 0
        && (a + b)[k].routes.last().key.children.len() == 0 by {
        if k >= a.len() {
            assert((a + b)[k] == b[k - a.len()]);
        }
    }
}

/// Every branch made from `defs` ends at a route of a definition without
/// nested routes.
pub proof fn lemma_branches_from_defs_end_at_leaves(
    defs: Seq<DefinitionView>,
    base: Seq<char>,
    stack: Seq<RouteDataView>,
    start: int,
)
    ensures
        ends_at_leaves(branches_from_defs(defs, base, stack, start)),
    decreases defs, 0int,
{
    if defs.len() > 0 {
        let routes = created_routes(defs[0], base);
        assert forall|i: int| 0 <= i < routes.len() implies (#[trigger] routes[i]).key == defs[0] by {}
        let first = branches_from_routes(defs[0], routes, stack, start);
        lemma_branches_from_routes_end_at_leaves(defs[0], routes, stack, start);
        lemma_branches_from_defs_end_at_leaves(defs.drop_first(), base, stack, start + first.len());
        lemma_ends_at_leaves_join(
            first,
            branches_from_defs(defs.drop_first(), base, stack, start + first.len()),
        );
    }
}

/// Every branch made from routes of `def` ends at a route of a definition
/// without nested routes.
pub proof fn lemma_branches_from_routes_end_at_leaves(
    def: DefinitionView,
    routes: Seq<RouteDataView>,
    stack: Seq<RouteDataView>,
    start: int,
)
    requires
        forall|i: int| 0 <= i < routes.len() ==> (#[trigger] routes[i]).key == def,
    ensures
        ends_at_leaves(branches_from_routes(def, routes, stack, start)),
    decreases def, routes.len(),
{
    if routes.len() > 0 {
        let r = routes[0];
        let path = stack.push(r);
        let here = if def.children.len() == 0 {
            seq![BranchView { routes: path, score: branch_score(path, start) }]
        } else {
            branches_from_defs(def.children, r.pattern, path, start)
        };
        if def.children.len() == 0 {
            assert(path.last() == r);
            assert(ends_at_leaves(here));
        } else {
            lemma_branches_from_defs_end_at_leaves(def.children, r.pattern, path, start);
        }
        let rest = routes.drop_first();
        assert forall|i: int| 0 <= i < rest.len() implies (#[trigger] rest[i]).key == def by {
            assert(rest[i] == routes[i + 1]);
        }
        lemma_branches_from_routes_end_at_leaves(def, rest, stack, start + here.len());
        lemma_ends_at_leaves_join(here, branches_from_routes(def, rest, stack, start + here.len()));
    }
}

/// The branches a store makes are ranked highest first, are exactly the
/// branches of the routes (none lost, none added), keep the order they were
/// made in where their ranks are equal, and each ends at a route of a
/// definition without nested routes.
pub proof fn lemma_initial_branches(children: Seq<DefinitionView>, base: Seq<char>)
    ensures
        descending(initial_branches(children, base)),
        initial_branches(children, base).to_multiset() == branches_from_defs(
            children,
            base,
            Seq::empty(),
            0,
        ).to_multiset(),
        forall|x: int|
            #![trigger with_score(initial_branches(children, base), x)]
            with_score(initial_branches(children, base), x) == with_score(
                branches_from_defs(children, base, Seq::empty(), 0),
                x,
            ),
        ends_at_leaves(initial_branches(children, base)),
{
    broadcast use vstd::seq_lib::group_to_multiset_ensures;

    let made = branches_from_defs(children, base, Seq::empty(), 0);
    let stored = initial_branches(children, base);
    lemma_sorted_descending(made);
    lemma_sorted_permutation(made);
    lemma_branches_from_defs_end_at_leaves(children, base, Seq::empty(), 0);
    assert forall|k: int| 0 <= k < stored.len() implies (#[trigger] stored[k]).routes.len() > 0
        && stored[k].routes.last().key.children.len() == 0 by {
        assert(stored.contains(stored[k]));
        assert(stored.to_multiset().count(stored[k]) > 0);
        assert(made.contains(stored[k]));
        let m = choose|m: int| 0 <= m < made.len() && made[m] == stored[k];
        assert(made[m] == stored[k]);
    }
    assert forall|x: int| #[trigger]
        with_score(initial_branches(children, base), x) == with_score(made, x) by {
        lemma_sorted_stable(made, x);
    }
}

/// Route `r` was made under the pattern `parent`: its pattern is its declared
/// path joined onto `parent` (cut at the wildcard when it has nested routes),
/// and its matcher matches that same pattern, partially exactly when it has
/// nested routes.
pub open spec fn made_under(r: RouteDataView, parent: Seq<char>) -> bool {
    let is_leaf = r.key.children.len() == 0;
    &&& r.pattern == if is_leaf {
        joined_path(parent, r.original_path)
    } else {
        joined_path(parent, r.original_path).take(pattern_end(joined_path(parent, r.original_path)))
    }
    &&& r.matcher.pattern == r.pattern
    &&& r.matcher.partial == !is_leaf
}

/// Every route made from `def` under `base` belongs to `def` (its definition
/// and id), has one of the expansions of `def`'s path as declared path, in
/// order, and is made under `base` (see [`made_under`]): its matcher matches
/// its own pattern.
pub proof fn lemma_created_routes(def: DefinitionView, base: Seq<char>)
    ensures
        created_routes(def, base).len() == expanded_optionals(def.path).len(),
        forall|i: int|
            0 <= i < created_routes(def, base).len() ==> {
                let r = #[trigger] created_routes(def, base)[i];
                &&& r.key == def
                &&& r.id == def.id
                &&& r.original_path == expanded_optionals(def.path)[i]
                &&& made_under(r, base)
            },
{
}

/// Every branch of `bs` goes on from `stack`, and each of its routes past
/// `stack` is made under the pattern of the route before it (under `base` for
/// the first of them).
pub open spec fn chained_under(bs: Seq<BranchView>, stack: Seq<RouteDataView>, base: Seq<char>) -> bool {
    forall|k: int, m: int|
        0 <= k < bs.len() && stack.len() <= m < bs[k].routes.len() ==> made_under(
            #[trigger] bs[k].routes[m],
            if m == stack.len() {
                base
            } else {
                bs[k].routes[m - 1].pattern
            },
        )
}

proof fn lemma_chained_under_join(
    a: Seq<BranchView>,
    b: Seq<BranchView>,
    stack: Seq<RouteDataView>,
    base: Seq<char>,
)
    requires
        chained_under(a, stack, base),
        chained_under(b, stack, base),
    ensures
        chained_under(a + b, stack, base),
{
    assert forall|k: int, m: int|
        0 <= k < (a + b).len() && stack.len() <= m < (a + b)[k].routes.len() implies made_under(
        #[trigger] (a + b)[k].routes[m],
        if m == stack.len() {
            base
        } else {
            (a + b)[k].routes[m - 1].pattern
        },
    ) by {
        if k < a.len() {
            assert((a + b)[k] == a[k]);
        } else {
            assert((a + b)[k] == b[k - a.len()]);
        }
    }
}

/// The branches made from `defs` under `base` below `stack` chain their
/// patterns: each route past `stack` is made under the pattern of the route
/// before it in the branch.
pub proof fn lemma_branches_from_defs_chained(
    defs: Seq<DefinitionView>,
    base: Seq<char>,
    stack: Seq<RouteDataView>,
    start: int,
)
    ensures
        chained_under(branches_from_defs(defs, base, stack, start), stack, base),
    decreases defs, 0int,
{
    if defs.len() > 0 {
        let routes = created_routes(defs[0], base);
        lemma_created_routes(defs[0], base);
        let first = branches_from_routes(defs[0], routes, stack, start);
        lemma_branches_from_routes_chained(defs[0], base, routes, stack, start);
        lemma_branches_from_defs_chained(defs.drop_first(), base, stack, start + first.len());
        lemma_chained_under_join(
            first,
            branches_from_defs(defs.drop_first(), base, stack, start + first.len()),
            stack,
            base,
        );
    }
}

/// The branches made from routes of `def`, all made under `base`, chain their
/// patterns as in [`lemma_branches_from_defs_chained`].
pub proof fn lemma_branches_from_routes_chained(
    def: DefinitionView,
    base: Seq<char>,
    routes: Seq<RouteDataView>,
    stack: Seq<RouteDataView>,
    start: int,
)
    requires
        forall|i: int| 0 <= i < routes.len() ==> made_under(#[trigger] routes[i], base),
    ensures
        chained_under(branches_from_routes(def, routes, stack, start), stack, base),
    decreases def, routes.len(),
{
    if routes.len() > 0 {
        let r = routes[0];
        assert(made_under(routes[0], base));
        let path = stack.push(r);
        let here = if def.children.len() == 0 {
            seq![BranchView { routes: path, score: branch_score(path, start) }]
        } else {
            branches_from_defs(def.children, r.pattern, path, start)
        };
        if def.children.len() == 0 {
            assert forall|k: int, m: int|
                0 <= k < here.len() && stack.len() <= m < here[k].routes.len() implies made_under(
                #[trigger] here[k].routes[m],
                if m == stack.len() {
                    base
                } else {
                    here[k].routes[m - 1].pattern
                },
            ) by {
                assert(here[k].routes == path);
                assert(m == stack.len());
                assert(path[m] == r);
            }
        } else {
            lemma_branches_from_defs_chained(def.children, r.pattern, path, start);
            lemma_branches_from_defs_ranked(def.children, r.pattern, path, start);
            assert forall|k: int, m: int|
                0 <= k < here.len() && stack.len() <= m < here[k].routes.len() implies made_under(
                #[trigger] here[k].routes[m],
                if m == stack.len() {
                    base
                } else {
                    here[k].routes[m - 1].pattern
                },
            ) by {
                let rs = here[k].routes;
                assert(rs.take(path.len() as int) == path);
                assert(rs[stack.len() as int] == rs.take(path.len() as int)[stack.len() as int]);
                assert(rs[stack.len() as int] == r);
                if m == stack.len() {
                } else if m == stack.len() + 1 {
                    assert(made_under(rs[m], r.pattern));
                } else {
                    assert(made_under(rs[m], rs[m - 1].pattern));
                }
            }
        }
        let rest = routes.drop_first();
        assert forall|i: int| 0 <= i < rest.len() implies made_under(#[trigger] rest[i], base) by {
            assert(rest[i] == routes[i + 1]);
        }
        lemma_branches_from_routes_chained(def, base, rest, stack, start + here.len());
        lemma_chained_under_join(
            here,
            branches_from_routes(def, rest, stack, start + here.len()),
            stack,
            base,
        );
    }
}

/// In every stored branch, the first route is made under the store's base and
/// each later route under the pattern of the route before it: its pattern is
/// its declared path joined onto its parent's pattern, and its matcher matches
/// that pattern.
pub proof fn lemma_stored_branches_chained(children: Seq<DefinitionView>, base: Seq<char>)
    ensures
        forall|k: int, m: int|
            0 <= k < initial_branches(children, base).len() && 0 <= m < initial_branches(
                children,
                base,
            )[k].routes.len() ==> made_under(
                #[trigger] initial_branches(children, base)[k].routes[m],
                if m == 0 {
                    base
                } else {
                    initial_branches(children, base)[k].routes[m - 1].pattern
                },
            ),
{
    broadcast use vstd::seq_lib::group_to_multiset_ensures;

    let made = branches_from_defs(children, base, Seq::empty(), 0);
    let stored = initial_branches(children, base);
    lemma_sorted_permutation(made);
    lemma_branches_from_defs_chained(children, base, Seq::empty(), 0);
    assert forall|k: int, m: int|
        0 <= k < stored.len() && 0 <= m < stored[k].routes.len() implies made_under(
        #[trigger] stored[k].routes[m],
        if m == 0 {
            base
        } else {
            stored[k].routes[m - 1].pattern
        },
    ) by {
        assert(stored.contains(stored[k]));
        assert(stored.to_multiset().count(stored[k]) > 0);
        assert(made.contains(stored[k]));
        let n = choose|n: int| 0 <= n < made.len() && made[n] == stored[k];
        assert(made[n] == stored[k]);
        assert(made_under(
            made[n].routes[m],
            if m == 0 {
                base
            } else {
                made[n].routes[m - 1].pattern
            },
        ));
    }
}

} // verus!
