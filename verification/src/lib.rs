//! Route definitions flattened into ranked branches, and the decisions that
//! keep the mounted route tree in step with the matched routes.

mod text;
pub mod matching;
pub mod paths;
pub mod routes;
pub mod state;
pub mod animation;
