//! Converts transit schedules and cellular-coverage data into a synthetic
//! timeline of network-attachment changes for an edge/fog control plane.
//!
//! The pipeline assigns wall-clock times to every point of a vehicle's route,
//! resolves the nearest radio cell for each timed point, and compresses the
//! resulting per-vehicle attachment changes into an ordered, optionally
//! time-batched stream of topology add/remove events, plus a grouping of
//! vehicles into logical sources.
//!
//! All times are carried as milliseconds (`u64`), coordinates as micro-degree
//! integers, and distances as millimetres; the ellipsoidal distance values
//! themselves are computed by the (unverified) caller and handed in as plain
//! integers.
use vstd::prelude::*;

pub mod cell_data;
pub mod gtfs;
pub mod nes_simulation;
pub mod synthetic_topology_change_generator;

verus! {

/// Why a pipeline stage failed or a row was excluded.
///
/// The fatal kinds abort the whole run before anything is written; the
/// recoverable kinds exclude one vehicle or one row.
#[derive(Clone, Copy, Debug, PartialEq, Eq, Structural)]
pub enum SimulationError {
    /// A shape point needed downstream has no resolvable radio cell. Fatal.
    MissingAttachment,
    /// An interpolation window computes a non-positive (or unrepresentable)
    /// duration. Fatal.
    InconsistentSchedule,
    /// No shape points survive the time filter for a vehicle. The vehicle is
    /// excluded from the output.
    EmptyWindow,
    /// An arrival or departure value fails to parse. The row is excluded.
    MalformedTimeString,
}

pub fn add(left: u64, right: u64) -> (r: u64)
    requires
        left + right <= u64::MAX,
    ensures
        r == left + right,
{
    left + right
}

} // verus!
