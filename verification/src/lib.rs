//! Coordination engine for cargo pickup/delivery requests against
//! multi-stop vehicle trips.
//!
//! A trip is an ordered sequence of stations; a cargo request asks to move
//! goods between two stations.  The library decides where along a trip a
//! request's pickup and drop-off should be spliced in (nearest-insertion
//! heuristic over an integer great-circle proxy metric), ranks candidate
//! requests by insertion cost, and commits merges and removals against an
//! in-memory transactional store, materializing path geometry for every
//! newly adjacent station pair.

use vstd::prelude::*;

pub mod config;
pub mod geo;
pub mod model;
pub mod merge;
pub mod planner;
pub mod ranker;
pub mod removal;
pub mod service;

verus! {

/// Failure taxonomy of the coordination engine.
///
/// `InvalidTripState` and `InvalidOperation` are caller-correctable
/// validation failures; `NotFound` reports a missing station, trip or
/// request; `GeometryProviderError` reports that the external geometry
/// provider did not supply a needed path; `PersistenceError` reports a
/// store-level failure such as an identifier collision.
#[derive(Clone, Copy, Debug, PartialEq, Eq, Structural)]
pub enum Error {
    InvalidTripState,
    InvalidOperation,
    NotFound,
    GeometryProviderError,
    PersistenceError,
}

} // verus!
