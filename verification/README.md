# router

The route-tree logic behind a `<Routes/>` / `<AnimatedRoutes/>` pair of
leptos components, written in Verus and proved against its contracts.

- `src/matching.rs` — route definitions, matchers and matches, with their
  mathematical views and the equality of definitions.
- `src/paths.rs` — joining a route's path onto its parent's pattern and
  spelling out optional parameters.
- `src/routes.rs` — ranking route patterns, flattening the route tree into
  branches, ordering them by rank, and the once-only branch store.
- `src/state.rs` — which mounted routes are kept when the matched routes
  change, and what the root shows.
- `src/animation.rs` — the route shown and the classes used while an
  animation runs.
- `app/` — the leptos components, their memos and the per-thread store; every
  decision they take is a call into the library.
- `tests/` — the library on concrete values.
