//! Keeping the mounted routes in step with the routes that match the
//! current location: which mounted routes are kept, which are made anew, and
//! what the root of the route tree shows.

use vstd::prelude::*;

use crate::matching::{RouteMatch, RouteMatchView, matches_view, same_definition};
use crate::paths::strings_view;

verus! {

/// What becomes of the route at one depth of the new matches.
#[derive(Debug, PartialEq, Eq)]
pub enum RouteStep {
    /// The route mounted at this depth matches again and is kept; its path is
    /// set to the new match's path when `set_path` holds.
    Reuse { set_path: bool },
    /// A new route is made for this depth.
    Create,
}

/// The decisions for one change of the matched routes.
pub struct RoutePlan {
    /// One step per new match, in order.
    pub steps: Vec<RouteStep>,
    /// The new matches are the previous ones, depth by depth: the previous
    /// routes (and root) stay as they are.
    pub equal: bool,
    /// The route at the root is kept.
    pub root_equal: bool,
}

/// The previous matches and the paths of the routes mounted for them.
pub open spec fn previous_view(prev: Option<(&[RouteMatch], &[String])>) -> Option<
    (Seq<RouteMatchView>, Seq<Seq<char>>),
> {
    match prev {
        Some((m, p)) => Some((matches_view(m@), strings_view(p@))),
        None => None,
    }
}

/// The route mounted at depth `i` can be kept: the previous match at that
/// depth is the same route (same definition, same id) as the new one.
pub open spec fn keeps_route(
    prev: Option<(Seq<RouteMatchView>, Seq<Seq<char>>)>,
    next: Seq<RouteMatchView>,
    i: int,
) -> bool {
    match prev {
        Some((pm, _)) => 0 <= i < pm.len() && 0 <= i < next.len() && same_definition(
            next[i].route.key,
            pm[i].route.key,
        ) && next[i].route.id == pm[i].route.id,
        None => false,
    }
}

/// The step taken at depth `i`.
pub open spec fn planned_step(
    prev: Option<(Seq<RouteMatchView>, Seq<Seq<char>>)>,
    next: Seq<RouteMatchView>,
    i: int,
) -> RouteStep {
    if keeps_route(prev, next, i) {
        RouteStep::Reuse { set_path: next[i].path != prev.unwrap().1[i] }
    } else {
        RouteStep::Create
    }
}

/// The new matches are the previous ones at every depth.
pub open spec fn matches_unchanged(
    prev: Option<(Seq<RouteMatchView>, Seq<Seq<char>>)>,
    next: Seq<RouteMatchView>,
) -> bool {
    &&& prev is Some
    &&& next.len() == prev.unwrap().0.len()
    &&& forall|i: int| 0 <= i < next.len() ==> #[trigger] keeps_route(prev, next, i)
}

/// The root route is kept (or there is no root route to make).
pub open spec fn root_unchanged(
    prev: Option<(Seq<RouteMatchView>, Seq<Seq<char>>)>,
    next: Seq<RouteMatchView>,
) -> bool {
    next.len() == 0 || keeps_route(prev, next, 0)
}

/// Every route that is kept has a mounted route to be kept.
pub open spec fn kept_routes_mounted(
    prev: Option<(Seq<RouteMatchView>, Seq<Seq<char>>)>,
    next: Seq<RouteMatchView>,
) -> bool {
    forall|i: int| 0 <= i < next.len() && #[trigger] keeps_route(prev, next, i) ==> i < prev.unwrap().1.len()
}

/// Whether every route that [`route_states`] keeps has a mounted route, as
/// it needs.
pub fn kept_routes_are_mounted(prev: Option<(&[RouteMatch], &[String])>, next_matches: &[RouteMatch]) -> (r: bool)
    ensures
        r == kept_routes_mounted(previous_view(prev), matches_view(next_matches@)),
{
    let n = next_matches.len();
    match prev {
        None => true,
        Some((prev_matches, prev_paths)) => {
            for i in 0..n
                invariant
                    n == next_matches@.len(),
                    prev == Some((prev_matches, prev_paths)),
                    forall|k: int|
                        0 <= k < i && #[trigger] keeps_route(
                            previous_view(prev),
                            matches_view(next_matches@),
                            k,
                        ) ==> k < prev_paths@.len(),
            {
                if i < prev_matches.len() && next_matches[i].route.key == prev_matches[i].route.key
                    && next_matches[i].route.id == prev_matches[i].route.id && i >= prev_paths.len() {
                    assert(keeps_route(previous_view(prev), matches_view(next_matches@), i as int));
                    return false;
                }
            }
            true
        },
    }
}

/// Decides, depth by depth, which of the mounted routes are kept for the new
/// matches `next_matches` and which are made anew, given the previous matches
/// and the paths of the routes mounted for them (`None` the first time).
pub fn route_states(prev: Option<(&[RouteMatch], &[String])>, next_matches: &[RouteMatch]) -> (plan: RoutePlan)
    requires
        kept_routes_mounted(previous_view(prev), matches_view(next_matches@)),
    ensures
        plan.steps@.len() == next_matches@.len(),
        forall|i: int|
            0 <= i < next_matches@.len() ==> #[trigger] plan.steps@[i] == planned_step(
                previous_view(prev),
                matches_view(next_matches@),
                i,
            ),
        plan.equal == matches_unchanged(previous_view(prev), matches_view(next_matches@)),
        plan.root_equal == root_unchanged(previous_view(prev), matches_view(next_matches@)),
{
    let ghost pv = previous_view(prev);
    let ghost nv = matches_view(next_matches@);
    let mut root_equal = true;
    let mut equal = match prev {
        Some((prev_matches, _)) => next_matches.len() == prev_matches.len(),
        None => false,
    };
    let mut steps: Vec<RouteStep> = Vec::new();
    let n = next_matches.len();
    for i in 0..n
        invariant
            n == next_matches@.len(),
            pv == previous_view(prev),
            nv == matches_view(next_matches@),
            kept_routes_mounted(pv, nv),
            steps@.len() == i,
            forall|k: int| 0 <= k < i ==> #[trigger] steps@[k] == planned_step(pv, nv, k),
            equal == (pv is Some && n == pv.unwrap().0.len() && forall|k: int|
                0 <= k < i ==> #[trigger] keeps_route(pv, nv, k)),
            root_equal == (i == 0 || keeps_route(pv, nv, 0)),
    {
        let next_match = &next_matches[i];
        let step = match prev {
            Some((prev_matches, prev_paths)) if i < prev_matches.len()
                && next_match.route.key == prev_matches[i].route.key && next_match.route.id
                == prev_matches[i].route.id => {
                assert(keeps_route(pv, nv, i as int));
                RouteStep::Reuse { set_path: next_match.path_match.path != prev_paths[i] }
            },
            _ => {
                assert(!keeps_route(pv, nv, i as int));
                equal = false;
                if i == 0 {
                    root_equal = false;
                }
                RouteStep::Create
            },
        };
        steps.push(step);
    }
    RoutePlan { steps, equal, root_equal }
}

/// Where the route mounted at one position of the new route list comes from.
#[derive(Debug, PartialEq, Eq)]
pub enum RouteSlot {
    /// The route mounted at this depth before.
    Previous(usize),
    /// The route made for this depth.
    Created(usize),
}

/// The new route list: depth by depth, the kept route, or the made route if
/// one could be made (`created`).
pub open spec fn route_slots(steps: Seq<RouteStep>, created: Seq<bool>) -> Seq<RouteSlot>
    decreases steps.len(),
{
    if steps.len() == 0 {
        Seq::empty()
    } else {
        let i = steps.len() - 1;
        route_slots(steps.drop_last(), created) + match steps.last() {
            RouteStep::Reuse { .. } => seq![RouteSlot::Previous(i as usize)],
            RouteStep::Create => if created[i] {
                seq![RouteSlot::Created(i as usize)]
            } else {
                Seq::empty()
            },
        }
    }
}

proof fn lemma_route_slots_len(steps: Seq<RouteStep>, created: Seq<bool>)
    ensures
        route_slots(steps, created).len() <= steps.len(),
    decreases steps.len(),
{
    if steps.len() > 0 {
        lemma_route_slots_len(steps.drop_last(), created);
    }
}

/// Builds the new route list from the steps of a plan, given which of the
/// routes to be made could be made (see [`route_slots`]).
pub fn next_routes(steps: &[RouteStep], created: &[bool]) -> (next: Vec<RouteSlot>)
    requires
        created@.len() == steps@.len(),
    ensures
        next@ == route_slots(steps@, created@),
{
    let mut next: Vec<RouteSlot> = Vec::new();
    let n = steps.len();
    for i in 0..n
        invariant
            n == steps@.len(),
            created@.len() == n,
            next@ == route_slots(steps@.take(i as int), created@),
            next@.len() <= i,
    {
        proof {
            assert(steps@.take(i + 1).drop_last() =~= steps@.take(i as int));
            lemma_route_slots_len(steps@.take(i as int), created@);
        }
        match &steps[i] {
            RouteStep::Reuse { .. } => {
                if i >= next.len() {
                    next.push(RouteSlot::Previous(i));
                } else {
                    next.set(i, RouteSlot::Previous(i));
                }
            },
            RouteStep::Create => {
                if created[i] {
                    if next.len() > i + 1 {
                        next.set(i, RouteSlot::Created(i));
                    } else {
                        next.push(RouteSlot::Created(i));
                    }
                }
            },
        }
        assert(next@ =~= route_slots(steps@.take(i + 1), created@));
    }
    assert(steps@.take(n as int) =~= steps@);
    next
}

/// What the root of the route tree shows after a change of the routes.
#[derive(Debug, PartialEq, Eq)]
pub enum RootAction {
    /// No route matches: the outlet of the router's base route.
    BaseOutlet,
    /// The view of the (new) root route, made afresh.
    Rebuild,
    /// The view shown before.
    KeepPrevious,
}

/// Decides what the root shows: the base outlet when no route is mounted,
/// the previous view when there is one and the root route was kept, and a
/// new view of the root route otherwise.
pub fn root_route_action(routes_empty: bool, has_previous_view: bool, root_equal: bool) -> (r: RootAction)
    ensures
        r == if routes_empty {
            RootAction::BaseOutlet
        } else if !has_previous_view || !root_equal {
            RootAction::Rebuild
        } else {
            RootAction::KeepPrevious
        },
{
    if routes_empty {
        RootAction::BaseOutlet
    } else if !has_previous_view || !root_equal {
        RootAction::Rebuild
    } else {
        RootAction::KeepPrevious
    }
}

/// When the new matches are the previous ones, every route is kept, the root
/// route among them.
pub proof fn lemma_unchanged_keeps_every_route(
    prev: Option<(Seq<RouteMatchView>, Seq<Seq<char>>)>,
    next: Seq<RouteMatchView>,
)
    requires
        matches_unchanged(prev, next),
    ensures
        root_unchanged(prev, next),
        forall|i: int|
            0 <= i < next.len() ==> (#[trigger] planned_step(prev, next, i)) is Reuse,
{
    assert forall|i: int| 0 <= i < next.len() implies (#[trigger] planned_step(
        prev,
        next,
        i,
    )) is Reuse by {
        assert(keeps_route(prev, next, i));
    }
    if next.len() > 0 {
        assert(keeps_route(prev, next, 0));
    }
}

/// The depth a slot of the new route list stands for.
pub open spec fn slot_depth(s: RouteSlot) -> int {
    match s {
        RouteSlot::Previous(i) => i as int,
        RouteSlot::Created(i) => i as int,
    }
}

/// The new route list goes down the depths in order, each at most once; a
/// kept route's slot takes the previous route, a made route's slot the route
/// made for it; and no depth whose route is kept or was made is left out.
pub proof fn lemma_route_slots_ordered(steps: Seq<RouteStep>, created: Seq<bool>)
    requires
        created.len() == steps.len(),
        steps.len() <= usize::MAX,
    ensures
        forall|a: int, b: int|
            0 <= a < b < route_slots(steps, created).len() ==> slot_depth(
                #[trigger] route_slots(steps, created)[a],
            ) < slot_depth(#[trigger] route_slots(steps, created)[b]),
        forall|a: int|
            0 <= a < route_slots(steps, created).len() ==> 0 <= slot_depth(
                #[trigger] route_slots(steps, created)[a],
            ) < steps.len(),
        forall|a: int|
            0 <= a < route_slots(steps, created).len() ==> match #[trigger] route_slots(
                steps,
                created,
            )[a] {
                RouteSlot::Previous(i) => steps[i as int] is Reuse,
                RouteSlot::Created(i) => steps[i as int] is Create && created[i as int],
            },
        forall|i: int|
            #![trigger steps[i]]
            0 <= i < steps.len() && (steps[i] is Reuse || created[i]) ==> exists|a: int|
                0 <= a < route_slots(steps, created).len() && slot_depth(
                    #[trigger] route_slots(steps, created)[a],
                ) == i,
    decreases steps.len(),
{
    if steps.len() > 0 {
        let rest = steps.drop_last();
        let n = steps.len() - 1;
        lemma_route_slots_ordered(rest, created.take(n));
        lemma_route_slots_prefix(rest, created);
        let before = route_slots(rest, created);
        let all = route_slots(steps, created);
        assert forall|i: int|
            #![trigger steps[i]]
            0 <= i < steps.len() && (steps[i] is Reuse || created[i]) implies exists|a: int|
            0 <= a < route_slots(steps, created).len() && slot_depth(
                #[trigger] route_slots(steps, created)[a],
            ) == i by {
            if i < n {
                assert(rest[i] == steps[i]);
                assert(created.take(n)[i] == created[i]);
                let a = choose|a: int|
                    0 <= a < before.len() && slot_depth(#[trigger] before[a]) == i;
                assert(all[a] == before[a]);
            } else {
                assert(all.len() == before.len() + 1);
                assert(all[before.len() as int] == all.last());
                assert(slot_depth(all[before.len() as int]) == i);
            }
        }
        assert forall|a: int| 0 <= a < all.len() implies match #[trigger] all[a] {
            RouteSlot::Previous(i) => steps[i as int] is Reuse,
            RouteSlot::Created(i) => steps[i as int] is Create && created[i as int],
        } by {
            if a < before.len() {
                assert(all[a] == before[a]);
                assert(0 <= slot_depth(before[a]) < n);
            }
        }
        assert forall|a: int, b: int| 0 <= a < b < all.len() implies slot_depth(#[trigger] all[a])
            < slot_depth(#[trigger] all[b]) by {
            assert(all[a] == before[a]);
            if b < before.len() {
                assert(all[b] == before[b]);
            }
        }
    }
}

proof fn lemma_route_slots_prefix(steps: Seq<RouteStep>, created: Seq<bool>)
    requires
        steps.len() <= created.len(),
    ensures
        route_slots(steps, created) == route_slots(steps, created.take(steps.len() as int)),
    decreases steps.len(),
{
    if steps.len() > 0 {
        lemma_route_slots_prefix(steps.drop_last(), created);
        lemma_route_slots_prefix(steps.drop_last(), created.take(steps.len() as int));
        assert(created.take(steps.len() as int).take(steps.len() - 1) =~= created.take(
            steps.len() - 1,
        ));
    }
}

/// A mounted route is kept exactly when the previous and the new match at
/// its depth are routes of the same definition (same path, same nested
/// routes) with the same id, whatever their patterns, declared paths or
/// matchers; it is then given the new match's path when that differs from the
/// mounted route's path. When the first depth is kept, so is the root.
pub proof fn lemma_reuse_same_definition(
    prev_matches: Seq<RouteMatchView>,
    prev_paths: Seq<Seq<char>>,
    next: Seq<RouteMatchView>,
    i: int,
)
    requires
        0 <= i < prev_matches.len(),
        0 <= i < next.len(),
    ensures
        ({
            let prev = Some((prev_matches, prev_paths));
            let same = same_definition(next[i].route.key, prev_matches[i].route.key)
                && next[i].route.id == prev_matches[i].route.id;
            &&& same ==> planned_step(prev, next, i) == (RouteStep::Reuse {
                set_path: next[i].path != prev_paths[i],
            })
            &&& !same ==> planned_step(prev, next, i) == RouteStep::Create
            &&& (same && i == 0) ==> root_unchanged(prev, next)
            &&& (!same && i == 0) ==> !root_unchanged(prev, next)
        }),
{
}

/// Without previous matches, every route is made anew, and the routes are
/// not unchanged.
pub proof fn lemma_first_matches_create(next: Seq<RouteMatchView>, i: int)
    requires
        0 <= i < next.len(),
    ensures
        planned_step(None, next, i) == RouteStep::Create,
        !matches_unchanged(None, next),
{
}

} // verus!
