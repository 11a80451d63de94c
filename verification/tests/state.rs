use router::matching::{Matcher, PathMatch, RouteDefinition, RouteMatch};
use router::routes::RouteData;
use router::state::{
    kept_routes_are_mounted, next_routes, root_route_action, route_states, RootAction,
    RouteSlot, RouteStep,
};

fn def(id: usize, path: &str) -> RouteDefinition {
    RouteDefinition { id, path: path.to_string(), children: vec![] }
}

fn matched(id: usize, path: &str, location: &str) -> RouteMatch {
    RouteMatch {
        path_match: PathMatch { path: location.to_string() },
        route: RouteData {
            id,
            key: def(id, path),
            pattern: path.to_string(),
            original_path: path.to_string(),
            matcher: Matcher { pattern: path.to_string(), partial: false },
        },
    }
}

#[test]
fn first_change_makes_every_route() {
    let next = vec![matched(0, "", ""), matched(1, "users", "/users")];
    let plan = route_states(None, &next);
    assert_eq!(plan.steps, vec![RouteStep::Create, RouteStep::Create]);
    assert!(!plan.equal);
    assert!(!plan.root_equal);
}

#[test]
fn same_routes_are_kept() {
    let prev = vec![matched(0, "", ""), matched(1, ":id", "/1")];
    let next = vec![matched(0, "", ""), matched(1, ":id", "/2")];
    let paths = vec!["".to_string(), "/1".to_string()];
    let plan = route_states(Some((&prev[..], &paths[..])), &next);
    assert_eq!(
        plan.steps,
        vec![RouteStep::Reuse { set_path: false }, RouteStep::Reuse { set_path: true }]
    );
    assert!(plan.equal);
    assert!(plan.root_equal);
}

#[test]
fn changed_child_is_made_anew() {
    let prev = vec![matched(0, "", ""), matched(1, "a", "/a")];
    let next = vec![matched(0, "", ""), matched(2, "b", "/b")];
    let paths = vec!["".to_string(), "/a".to_string()];
    let plan = route_states(Some((&prev[..], &paths[..])), &next);
    assert_eq!(plan.steps, vec![RouteStep::Reuse { set_path: false }, RouteStep::Create]);
    assert!(!plan.equal);
    assert!(plan.root_equal);
}

#[test]
fn same_path_different_id_is_made_anew() {
    let prev = vec![matched(0, "a", "/a")];
    let next = vec![matched(5, "a", "/a")];
    let paths = vec!["/a".to_string()];
    let plan = route_states(Some((&prev[..], &paths[..])), &next);
    assert_eq!(plan.steps, vec![RouteStep::Create]);
    assert!(!plan.root_equal);
}

#[test]
fn deeper_match_is_not_equal() {
    let prev = vec![matched(0, "", "")];
    let next = vec![matched(0, "", ""), matched(1, "x", "/x")];
    let paths = vec!["".to_string()];
    let plan = route_states(Some((&prev[..], &paths[..])), &next);
    assert_eq!(plan.steps, vec![RouteStep::Reuse { set_path: false }, RouteStep::Create]);
    assert!(!plan.equal);
    assert!(plan.root_equal);
}

#[test]
fn no_matches_keeps_root() {
    let plan = route_states(None, &[]);
    assert!(plan.steps.is_empty());
    assert!(!plan.equal);
    assert!(plan.root_equal);
}

#[test]
fn kept_routes_need_mounted_routes() {
    let prev = vec![matched(0, "", ""), matched(1, "a", "/a")];
    let next = vec![matched(0, "", ""), matched(1, "a", "/a")];
    let short = vec!["".to_string()];
    assert!(!kept_routes_are_mounted(Some((&prev[..], &short[..])), &next));
    let full = vec!["".to_string(), "/a".to_string()];
    assert!(kept_routes_are_mounted(Some((&prev[..], &full[..])), &next));
    assert!(kept_routes_are_mounted(None, &next));
}

#[test]
fn route_list_skips_routes_not_made() {
    let steps = vec![
        RouteStep::Reuse { set_path: false },
        RouteStep::Create,
        RouteStep::Create,
        RouteStep::Reuse { set_path: true },
    ];
    let slots = next_routes(&steps, &[false, false, true, false]);
    assert_eq!(
        slots,
        vec![RouteSlot::Previous(0), RouteSlot::Created(2), RouteSlot::Previous(3)]
    );
}

#[test]
fn root_shows_base_outlet_without_routes() {
    assert_eq!(root_route_action(true, true, true), RootAction::BaseOutlet);
    assert_eq!(root_route_action(true, false, false), RootAction::BaseOutlet);
}

#[test]
fn root_rebuilds_when_root_changes() {
    assert_eq!(root_route_action(false, false, true), RootAction::Rebuild);
    assert_eq!(root_route_action(false, true, false), RootAction::Rebuild);
    assert_eq!(root_route_action(false, true, true), RootAction::KeepPrevious);
}
