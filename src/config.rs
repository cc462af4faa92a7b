//! The layout configuration: which stations to draw, and the visible window.
use vstd::prelude::*;

use crate::error::LayoutError;
use crate::types::{ScaleMode, StationID, Time};

verus! {

/// The drawn station sequence, the visible window and the position scale.
#[derive(Debug, Clone)]
pub struct NetworkConfig {
    pub stations_to_draw: Vec<StationID>,
    pub start_time: Time,
    pub end_time: Time,
    pub position_axis_scale_mode: ScaleMode,
}

/// The first `w` from `i` on at which the triple `(w, w + 1, w + 2)` repeats
/// a station (`b == c` or `a == c`), or the length.
pub open spec fn first_bad_triple(s: Seq<StationID>, i: int) -> int
    decreases s.len() - i,
{
    if i < 0 || i + 2 >= s.len() {
        s.len() as int
    } else if s[i + 1] == s[i + 2] || s[i] == s[i + 2] {
        i
    } else {
        first_bad_triple(s, i + 1)
    }
}

/// The error that validation returns for these inputs, if any.
pub open spec fn config_error(s: Seq<StationID>, start: Time, end: Time) -> Option<LayoutError> {
    let w = first_bad_triple(s, 0);
    if s.len() == 0 {
        Some(LayoutError::NoStationsToDraw)
    } else if w < s.len() {
        if s[w + 1] == s[w + 2] {
            Some(LayoutError::ConsecutiveStationsSame { station: s[w + 1] })
        } else {
            Some(LayoutError::StationBacktracks { station: s[w + 2] })
        }
    } else if start.sec() > end.sec() {
        Some(LayoutError::StartAfterEnd { start, end })
    } else {
        None
    }
}

impl NetworkConfig {
    /// Validates and builds a configuration: at least one station, no triple
    /// of consecutive drawn stations that repeats one, and a window that
    /// does not end before it starts.
    pub fn new(
        stations_to_draw: Vec<StationID>,
        start_time: Time,
        end_time: Time,
        position_axis_scale_mode: ScaleMode,
    ) -> (r: Result<NetworkConfig, LayoutError>)
        ensures
            r is Err <==> config_error(stations_to_draw@, start_time, end_time) is Some,
            r matches Err(e) ==> config_error(stations_to_draw@, start_time, end_time) == Some(e),
            r matches Ok(c) ==> c.stations_to_draw@ == stations_to_draw@ && c.start_time
                == start_time && c.end_time == end_time && c.position_axis_scale_mode
                == position_axis_scale_mode,
    {
        let n = stations_to_draw.len();
        if n == 0 {
            return Err(LayoutError::NoStationsToDraw);
        }
        let mut w: usize = 0;
        while n - w > 2
            invariant
                n == stations_to_draw@.len(),
                w < n,
                first_bad_triple(stations_to_draw@, 0) == first_bad_triple(stations_to_draw@, w as int),
            decreases n - w,
        {
            if stations_to_draw[w + 1] == stations_to_draw[w + 2] {
                return Err(LayoutError::ConsecutiveStationsSame { station: stations_to_draw[w + 1] });
            }
            if stations_to_draw[w] == stations_to_draw[w + 2] {
                return Err(LayoutError::StationBacktracks { station: stations_to_draw[w + 2] });
            }
            w = w + 1;
        }
        if start_time.0 > end_time.0 {
            return Err(LayoutError::StartAfterEnd { start: start_time, end: end_time });
        }
        Ok(NetworkConfig { stations_to_draw, start_time, end_time, position_axis_scale_mode })
    }
}

} // verus!
