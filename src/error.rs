//! Errors of network assembly and layout.
use vstd::prelude::*;

use crate::types::{StationID, Time};

verus! {

/// Why an input was rejected or a layout could not be made.
#[derive(Debug, Clone, PartialEq, Eq)]
pub enum LayoutError {
    /// The configuration names no station to draw.
    NoStationsToDraw,
    /// Two consecutive drawn stations are the same.
    ConsecutiveStationsSame { station: StationID },
    /// A drawn station is both the start of one interval and the end of the next.
    StationBacktracks { station: StationID },
    /// The visible window starts after it ends.
    StartAfterEnd { start: Time, end: Time },
    /// A departure precedes its arrival, or an arrival precedes the previous departure.
    InvalidSchedule { train: String },
    /// The same directed interval was given twice.
    DuplicateInterval { from: StationID, to: StationID },
    /// A drawn station is missing from the network.
    StationNotFound { station: StationID },
    /// No interval joins two consecutive drawn stations.
    NoInterval { from: StationID, to: StationID },
    /// A train repeats with a zero period.
    ZeroPeriod { train: String },
    /// An unrolled time does not fit the range of `Time`.
    TimeOutOfRange { train: String },
    /// A drawn train is missing from the network.
    TrainNotFound { train: u64 },
}

} // verus!
