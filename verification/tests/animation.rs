use router::animation::{
    animation_class, next_animation_and_route, route_class, same_route, Animation,
    AnimationState,
};
use router::matching::{Matcher, PathMatch, RouteDefinition, RouteMatch};
use router::routes::RouteData;

fn classes() -> Animation {
    Animation {
        outro: Some("out"),
        start: None,
        intro: Some("in"),
        finally: Some("done"),
        outro_back: Some("out-back"),
        intro_back: None,
    }
}

fn matched(id: usize, path: &str) -> RouteMatch {
    let key = RouteDefinition { id, path: path.to_string(), children: vec![] };
    RouteMatch {
        path_match: PathMatch { path: path.to_string() },
        route: RouteData {
            id,
            key,
            pattern: path.to_string(),
            original_path: path.to_string(),
            matcher: Matcher { pattern: path.to_string(), partial: false },
        },
    }
}

#[test]
fn class_of_each_phase() {
    let a = classes();
    assert_eq!(animation_class(&a, AnimationState::Outro), "out");
    assert_eq!(animation_class(&a, AnimationState::Start), "");
    assert_eq!(animation_class(&a, AnimationState::Intro), "in");
    assert_eq!(animation_class(&a, AnimationState::Finally), "done");
    assert_eq!(animation_class(&a, AnimationState::OutroBack), "out-back");
    assert_eq!(animation_class(&a, AnimationState::IntroBack), "");
}

#[test]
fn wrapper_class_joins_base_and_phase() {
    assert_eq!(route_class(Some("routes"), "in"), "routes in");
    assert_eq!(route_class(None, "in"), "in");
    assert_eq!(route_class(Some("routes"), ""), "routes ");
}

#[test]
fn same_first_route_compares_definitions() {
    let a = vec![matched(1, "a"), matched(2, "b")];
    let a2 = vec![matched(1, "a")];
    let b = vec![matched(3, "c")];
    assert!(same_route(Some(&a[..]), &a2));
    assert!(!same_route(Some(&a[..]), &b));
    assert!(!same_route(None, &a));
    assert!(same_route(None, &[]));
    assert!(same_route(Some(&[][..]), &[]));
    assert!(!same_route(Some(&[][..]), &a));
}

#[test]
fn same_route_shows_new_route_in_current_phase() {
    let r = next_animation_and_route(
        Some((AnimationState::Intro, "/old".to_string())),
        AnimationState::Finally,
        "/new".to_string(),
        true,
        (AnimationState::Outro, false),
    );
    assert_eq!(r, (AnimationState::Finally, "/new".to_string()));
}

#[test]
fn first_route_shown_directly() {
    let r = next_animation_and_route(
        None,
        AnimationState::Finally,
        "/new".to_string(),
        false,
        (AnimationState::Outro, false),
    );
    assert_eq!(r, (AnimationState::Finally, "/new".to_string()));
}

#[test]
fn route_change_waits_for_outro() {
    let r = next_animation_and_route(
        Some((AnimationState::Finally, "/old".to_string())),
        AnimationState::Finally,
        "/new".to_string(),
        false,
        (AnimationState::Outro, false),
    );
    assert_eq!(r, (AnimationState::Outro, "/old".to_string()));
    let r = next_animation_and_route(
        Some((AnimationState::Outro, "/old".to_string())),
        AnimationState::Outro,
        "/new".to_string(),
        false,
        (AnimationState::Intro, true),
    );
    assert_eq!(r, (AnimationState::Intro, "/new".to_string()));
}
