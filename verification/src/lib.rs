//! Verified core of a small music server: request-path sanitising and
//! containment, path-component arithmetic, ordering of listings, parsing of
//! tool output and the decisions behind each HTTP route.

pub mod text;
pub mod path;
pub mod order;
pub mod song;
pub mod routes;
