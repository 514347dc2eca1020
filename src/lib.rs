//! Turns a set of transit routes into a commit graph: one commit per stop,
//! chained along each route's branch, with merge commits where routes share
//! a stop.
//!
//! - `model`: stops and routes.
//! - `order`: one consistent direction per route.
//! - `conflicts`: the stops that several routes share.
//! - `state`: how far each route has been built.
//! - `builder`: building one route up to its next shared stop.
//! - `driver`: the merges at shared stops, until every route is built.
//! - `feed`: stops and routes as a transit feed names them.

pub mod model;
pub mod order;
pub mod conflicts;
pub mod state;
pub mod builder;
pub mod driver;
pub mod feed;
