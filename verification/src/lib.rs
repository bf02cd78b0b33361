//! Organizes a flat directory of elevation tiles, named after geographic
//! coordinates, into a 10°×10° grid-cell directory layout and mirrors that
//! layout at a second location via directory links.
//!
//! The verified core covers filename parsing into [`coordinate::Coordinate`]
//! values, derivation of grid-cell keys, bucketing of tile paths by key, and
//! planning of the per-cell directory/link/rename operations. The thin binary
//! around the library enumerates directories and performs the planned actions.

pub mod coordinate;
pub mod effects;
pub mod elevation;
pub mod paths;
pub mod placement;
pub mod text;
