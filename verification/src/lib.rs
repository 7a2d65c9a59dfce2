//! A negotiated-congestion router core for a device routing-resource grid.
//!
//! The crate turns per-net driver/sink connectivity into point-to-point
//! routing obligations (arcs), splits the arc set into independent spatial
//! regions so regions can be routed independently, and searches a path for
//! every arc under a tunable congestion cost model.

pub mod geom;
pub mod pattern;
pub mod design;
pub mod extract;
pub mod partition;
pub mod router;
pub mod dispatch;
