//! The decisions of the animated routes: which route is shown while an
//! animation runs, and which classes the wrapper carries.

use vstd::prelude::*;

use crate::matching::{RouteMatch, RouteMatchView, matches_view, same_definition};
use crate::text::{chars_of, push_range, string_of};

verus! {

/// The phase of the transition between two routes.
#[derive(Clone, Copy, PartialEq, Eq, Structural, Debug)]
pub enum AnimationState {
    Outro,
    Start,
    Intro,
    Finally,
    OutroBack,
    IntroBack,
}

/// The classes added in each phase; a phase without one adds none.
pub struct Animation {
    pub outro: Option<&'static str>,
    pub start: Option<&'static str>,
    pub intro: Option<&'static str>,
    pub finally: Option<&'static str>,
    pub outro_back: Option<&'static str>,
    pub intro_back: Option<&'static str>,
}

/// The class configured for phase `state`, if any.
pub open spec fn class_for(animation: Animation, state: AnimationState) -> Option<&'static str> {
    match state {
        AnimationState::Outro => animation.outro,
        AnimationState::Start => animation.start,
        AnimationState::Intro => animation.intro,
        AnimationState::Finally => animation.finally,
        AnimationState::OutroBack => animation.outro_back,
        AnimationState::IntroBack => animation.intro_back,
    }
}

/// The class for phase `state`: the configured one, or the empty string.
pub fn animation_class(animation: &Animation, state: AnimationState) -> (r: &'static str)
    ensures
        r@ == match class_for(*animation, state) {
            Some(c) => c@,
            None => Seq::<char>::empty(),
        },
{
    let class = match state {
        AnimationState::Outro => animation.outro,
        AnimationState::Start => animation.start,
        AnimationState::Intro => animation.intro,
        AnimationState::Finally => animation.finally,
        AnimationState::OutroBack => animation.outro_back,
        AnimationState::IntroBack => animation.intro_back,
    };
    match class {
        Some(c) => c,
        None => {
            let empty = "";
            proof {
                reveal_strlit("");
            }
            empty
        },
    }
}

/// The class attribute of the wrapper: the base class, a space and the
/// phase's class; the phase's class alone without a base class.
pub fn route_class(base: Option<&str>, animation_class: &str) -> (r: String)
    ensures
        r@ == match base {
            Some(b) => b@ + seq![' '] + animation_class@,
            None => animation_class@,
        },
{
    let a = chars_of(animation_class);
    let mut out: Vec<char> = Vec::new();
    if let Some(b) = base {
        let bc = chars_of(b);
        push_range(&mut out, &bc, 0, bc.len());
        out.push(' ');
        assert(bc@.subrange(0, bc@.len() as int) =~= bc@);
    }
    push_range(&mut out, &a, 0, a.len());
    assert(a@.subrange(0, a@.len() as int) =~= a@);
    assert(out@ =~= match base {
        Some(b) => b@ + seq![' '] + animation_class@,
        None => animation_class@,
    });
    string_of(&out)
}

/// The first matches of the previous and of the new location are the same
/// route (neither location matching counts as the same).
pub open spec fn same_first_route(prev: Option<Seq<RouteMatchView>>, next: Seq<RouteMatchView>) -> bool {
    let p = match prev {
        Some(m) => m.len() > 0,
        None => false,
    };
    if p && next.len() > 0 {
        same_definition(prev.unwrap()[0].route.key, next[0].route.key)
    } else {
        !p && next.len() == 0
    }
}

/// Whether the previous matches (if there were any) and the new ones begin
/// with the same route (see [`same_first_route`]).
pub fn same_route(prev_matches: Option<&[RouteMatch]>, next_matches: &[RouteMatch]) -> (r: bool)
    ensures
        r == same_first_route(
            match prev_matches {
                Some(m) => Some(matches_view(m@)),
                None => None,
            },
            matches_view(next_matches@),
        ),
{
    let prev_first = match prev_matches {
        Some(m) => if m.len() > 0 {
            Some(&m[0].route.key)
        } else {
            None
        },
        None => None,
    };
    let next_first = if next_matches.len() > 0 {
        Some(&next_matches[0].route.key)
    } else {
        None
    };
    match (prev_first, next_first) {
        (Some(a), Some(b)) => *a == *b,
        (None, None) => true,
        _ => false,
    }
}

/// The phase and the route shown after the location or the phase changed.
/// With the same first route, or nothing shown yet, the new route is shown in
/// the current phase. Otherwise the animation moves on (`transition`: the next
/// phase, and whether the new route may be shown in it): the new route is
/// shown if it may, the previous one is kept if not.
pub fn next_animation_and_route(
    prev: Option<(AnimationState, String)>,
    current: AnimationState,
    next_route: String,
    same_route: bool,
    transition: (AnimationState, bool),
) -> (r: (AnimationState, String))
    ensures
        r == if same_route {
            (current, next_route)
        } else {
            match prev {
                None => (current, next_route),
                Some((_, prev_route)) => if transition.1 {
                    (transition.0, next_route)
                } else {
                    (transition.0, prev_route)
                },
            }
        },
{
    if same_route {
        (current, next_route)
    } else {
        match prev {
            None => (current, next_route),
            Some((_, prev_route)) => {
                let (next_state, can_advance) = transition;
                if can_advance {
                    (next_state, next_route)
                } else {
                    (next_state, prev_route)
                }
            },
        }
    }
}

/// Each phase takes its own class: the class of a phase is the field named
/// after it, whatever the other fields hold.
pub proof fn lemma_class_of_each_phase(animation: Animation)
    ensures
        class_for(animation, AnimationState::Outro) == animation.outro,
        class_for(animation, AnimationState::Start) == animation.start,
        class_for(animation, AnimationState::Intro) == animation.intro,
        class_for(animation, AnimationState::Finally) == animation.finally,
        class_for(animation, AnimationState::OutroBack) == animation.outro_back,
        class_for(animation, AnimationState::IntroBack) == animation.intro_back,
{
}

/// Changing the class of one phase changes the class of that phase only.
pub proof fn lemma_classes_independent(a: Animation, b: Animation, state: AnimationState)
    requires
        a.start == b.start || state != AnimationState::Start,
        a.outro == b.outro || state != AnimationState::Outro,
        a.intro == b.intro || state != AnimationState::Intro,
        a.finally == b.finally || state != AnimationState::Finally,
        a.outro_back == b.outro_back || state != AnimationState::OutroBack,
        a.intro_back == b.intro_back || state != AnimationState::IntroBack,
    ensures
        class_for(a, state) == class_for(b, state),
{
}

/// Whether the first route changed does not depend on which side is the
/// previous one.
pub proof fn lemma_same_first_route_symmetric(a: Seq<RouteMatchView>, b: Seq<RouteMatchView>)
    ensures
        same_first_route(Some(a), b) == same_first_route(Some(b), a),
{
    if a.len() > 0 && b.len() > 0 {
        crate::matching::lemma_same_definition_symmetric(a[0].route.key, b[0].route.key);
    }
}

/// The first route is the same exactly when both locations match and their
/// first matches are routes of the same definition, or neither location
/// matches: leaving a matched route for a location that matches nothing, or
/// the other way round, is a change; nothing matched before counts as no
/// first match.
pub proof fn lemma_same_first_route_cases(prev: Option<Seq<RouteMatchView>>, next: Seq<RouteMatchView>)
    ensures
        (prev matches Some(m) && m.len() > 0 && next.len() > 0) ==> same_first_route(prev, next)
            == same_definition(prev.unwrap()[0].route.key, next[0].route.key),
        (prev matches Some(m) && m.len() > 0 && next.len() == 0) ==> !same_first_route(prev, next),
        (!(prev matches Some(m) && m.len() > 0) && next.len() > 0) ==> !same_first_route(prev, next),
        (!(prev matches Some(m) && m.len() > 0) && next.len() == 0) ==> same_first_route(prev, next),
        same_first_route(None, next) == same_first_route(Some(Seq::empty()), next),
{
}

/// A location's matches begin with the same route as themselves.
pub proof fn lemma_same_first_route_reflexive(m: Seq<RouteMatchView>)
    ensures
        same_first_route(Some(m), m),
{
    if m.len() > 0 {
        crate::matching::lemma_same_definition_reflexive(m[0].route.key);
    }
}

} // verus!
