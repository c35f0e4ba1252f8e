//! The catalog entities as the cache stores them.
use vstd::prelude::*;

verus! {

/// A point of interest inside a system.
#[derive(Clone, Debug, PartialEq, Eq)]
pub struct Waypoint {
    pub symbol: String,
    /// The upstream type tag, as its name.
    pub kind: String,
    pub x: i32,
    pub y: i32,
}

/// A location grouping waypoints, as fetched from the catalog.
#[derive(Clone, Debug, PartialEq, Eq)]
pub struct System {
    pub symbol: String,
    pub sector_symbol: String,
    /// The upstream type tag, as its name.
    pub kind: String,
    pub x: i32,
    pub y: i32,
    /// Symbols of the factions present; order carries no meaning.
    pub factions: Vec<String>,
    pub waypoints: Vec<Waypoint>,
}

} // verus!
