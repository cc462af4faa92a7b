//! The position axis: the drawn stations in order, the length between each
//! consecutive pair, where each station stands on the axis, and the trains
//! that call at a drawn station.
use vstd::prelude::*;

use multimap::MultiMap;

use crate::error::LayoutError;
use crate::multimap_spec::{inserted, multimap_contents, multimap_get_vec, multimap_insert, multimap_new};
use crate::network::{find_interval, pair_length, Interval, Network, Station};
use crate::types::{IntervalID, IntervalLength, StationID, TrainID};

verus! {

broadcast use vstd::std_specs::hash::group_hash_axioms;

/// The position axis built from a sequence of drawn stations.
pub struct StationAxis {
    /// The drawn stations, in order; a station may occur more than once.
    pub stations_draw_info: Vec<StationID>,
    /// The physical length between drawn stations `i` and `i + 1`.
    pub graph_intervals: Vec<IntervalLength>,
    /// For each drawn station, the positions at which it occurs, in order.
    pub station_indices: MultiMap<StationID, usize>,
    /// The trains that call at some drawn station, each once.
    pub trains: Vec<TrainID>,
}

/// The positions of each station in `s`, in increasing order.
pub open spec fn indices_map(s: Seq<StationID>) -> Map<u64, Seq<usize>>
    decreases s.len(),
{
    if s.len() == 0 {
        Map::empty()
    } else {
        inserted(indices_map(s.drop_last()), s.last(), (s.len() - 1) as usize)
    }
}

/// The distance along the axis from the first drawn station to station `i`,
/// in meters, for the linear scale.
pub open spec fn axis_offset(lengths: Seq<IntervalLength>, i: int) -> int
    decreases i,
{
    if i <= 0 {
        0
    } else {
        axis_offset(lengths, i - 1) + lengths[i - 1].m()
    }
}

/// The first position from `i` on whose station is not in the network, or the length.
pub open spec fn first_missing(st: Map<StationID, Station>, s: Seq<StationID>, i: int) -> int
    decreases s.len() - i,
{
    if i < 0 || i >= s.len() {
        s.len() as int
    } else if !st.contains_key(s[i]) {
        i
    } else {
        first_missing(st, s, i + 1)
    }
}

/// A consecutive pair that cannot be drawn: the same station twice, or no
/// interval between them.
pub open spec fn bad_pair(iv: Seq<(IntervalID, Interval)>, a: StationID, b: StationID) -> bool {
    a == b || pair_length(iv, a, b) is None
}

/// The first `w` from `i` on such that the pair `(w, w + 1)` is bad, or the length.
pub open spec fn first_bad_pair(iv: Seq<(IntervalID, Interval)>, s: Seq<StationID>, i: int) -> int
    decreases s.len() - i,
{
    if i < 0 || i + 1 >= s.len() {
        s.len() as int
    } else if bad_pair(iv, s[i], s[i + 1]) {
        i
    } else {
        first_bad_pair(iv, s, i + 1)
    }
}

/// The error that the axis builder returns for these inputs, if any.
pub open spec fn axis_error(net: &Network, s: Seq<StationID>) -> Option<LayoutError> {
    let m = first_missing(net.stations@, s, 0);
    let w = first_bad_pair(net.intervals@, s, 0);
    if s.len() == 0 {
        Some(LayoutError::NoStationsToDraw)
    } else if m < s.len() {
        Some(LayoutError::StationNotFound { station: s[m] })
    } else if w < s.len() {
        if s[w] == s[w + 1] {
            Some(LayoutError::ConsecutiveStationsSame { station: s[w] })
        } else {
            Some(LayoutError::NoInterval { from: s[w], to: s[w + 1] })
        }
    } else {
        None
    }
}

/// `t` calls at one of the drawn stations.
pub open spec fn calls_at_drawn(st: Map<StationID, Station>, s: Seq<StationID>, t: TrainID) -> bool {
    exists|i: int| 0 <= i < s.len() && #[trigger] st[s[i]].trains@.contains(t)
}

impl StationAxis {
    /// The axis is what `make_station_draw_info` builds from `s` and `net`.
    pub open spec fn built_from(&self, net: &Network, s: Seq<StationID>) -> bool {
        &&& self.stations_draw_info@ == s
        &&& self.graph_intervals@.len() + 1 == s.len()
        &&& forall|i: int|
            0 <= i < self.graph_intervals@.len() ==> pair_length(net.intervals@, s[i], s[i + 1])
                == Some(#[trigger] self.graph_intervals@[i])
        &&& multimap_contents(self.station_indices) == indices_map(s)
        &&& self.trains@.no_duplicates()
        &&& forall|t: TrainID| #[trigger] self.trains@.contains(t) <==> calls_at_drawn(net.stations@, s, t)
    }

    /// The distance in meters from the first drawn station to each drawn
    /// station, along the axis.
    pub fn offsets_meters(&self) -> (r: Vec<u64>)
        requires
            self.graph_intervals@.len() < 0x1_0000_0000,
        ensures
            r@.len() == self.graph_intervals@.len() + 1,
            forall|i: int| 0 <= i < r@.len() ==> #[trigger] r@[i] as int == axis_offset(self.graph_intervals@, i),
    {
        let mut r: Vec<u64> = Vec::new();
        let mut acc: u64 = 0;
        r.push(0);
        let mut i: usize = 0;
        while i < self.graph_intervals.len()
            invariant
                i <= self.graph_intervals@.len() < 0x1_0000_0000,
                r@.len() == i + 1,
                acc as int == axis_offset(self.graph_intervals@, i as int),
                acc <= i * 0xFFFF_FFFF,
                forall|q: int| 0 <= q < r@.len() ==> #[trigger] r@[q] as int == axis_offset(self.graph_intervals@, q),
            decreases self.graph_intervals@.len() - i,
        {
            let m = self.graph_intervals[i].meters();
            assert(acc + m <= (i + 1) * 0xFFFF_FFFF) by (nonlinear_arith)
                requires
                    acc <= i * 0xFFFF_FFFF,
                    m <= 0xFFFF_FFFF,
            ;
            acc = acc + m as u64;
            r.push(acc);
            i = i + 1;
        }
        r
    }

    /// The positions on the axis at which `station` is drawn, in order.
    pub fn indices_of(&self, station: StationID) -> (r: Option<&Vec<usize>>)
        ensures
            r is Some <==> multimap_contents(self.station_indices).contains_key(station),
            r matches Some(v) ==> v@ == multimap_contents(self.station_indices)[station],
    {
        multimap_get_vec(&self.station_indices, station)
    }
}

fn contains_id(v: &Vec<u64>, x: u64) -> (r: bool)
    ensures
        r == v@.contains(x),
{
    let mut i: usize = 0;
    while i < v.len()
        invariant
            i <= v@.len(),
            forall|j: int| 0 <= j < i ==> v@[j] != x,
        decreases v@.len() - i,
    {
        if v[i] == x {
            return true;
        }
        i = i + 1;
    }
    false
}

fn pair_length_exec(iv: &Vec<(IntervalID, Interval)>, a: StationID, b: StationID) -> (r: Option<IntervalLength>)
    ensures
        r == pair_length(iv@, a, b),
{
    match (find_interval(iv, (a, b)), find_interval(iv, (b, a))) {
        (Some(x), Some(y)) => Some(IntervalLength::mean(x, y)),
        (Some(x), None) => Some(x),
        (None, Some(y)) => Some(y),
        (None, None) => None,
    }
}

/// Builds the position axis for the drawn stations `s`.
pub fn make_station_draw_info(s: &Vec<StationID>, net: &Network) -> (r: Result<StationAxis, LayoutError>)
    ensures
        r is Err <==> axis_error(net, s@) is Some,
        r matches Err(e) ==> axis_error(net, s@) == Some(e),
        r matches Ok(axis) ==> axis.built_from(net, s@),
{
    let n = s.len();
    if n == 0 {
        return Err(LayoutError::NoStationsToDraw);
    }
    let mut i: usize = 0;
    while i < n
        invariant
            n == s@.len(),
            i <= n,
            first_missing(net.stations@, s@, 0) == first_missing(net.stations@, s@, i as int),
            forall|q: int| 0 <= q < i ==> net.stations@.contains_key(#[trigger] s@[q]),
        decreases n - i,
    {
        if !net.stations.contains_key(&s[i]) {
            return Err(LayoutError::StationNotFound { station: s[i] });
        }
        i = i + 1;
    }
    // the trains that call at the drawn stations
    let mut trains: Vec<TrainID> = Vec::new();
    let mut k: usize = 0;
    while k < n
        invariant
            n == s@.len(),
            k <= n,
            first_missing(net.stations@, s@, 0) == n,
            forall|q: int| 0 <= q < n ==> net.stations@.contains_key(#[trigger] s@[q]),
            trains@.no_duplicates(),
            forall|t: TrainID| #[trigger] trains@.contains(t) <==> calls_at_drawn(net.stations@, s@.subrange(0, k as int), t),
        decreases n - k,
    {
        let station = net.stations.get(&s[k]).unwrap();
        let ghost ts = station.trains@;
        let mut j: usize = 0;
        while j < station.trains.len()
            invariant
                k < n == s@.len(),
                ts == station.trains@,
                j <= ts.len(),
                trains@.no_duplicates(),
                forall|t: TrainID| #[trigger] trains@.contains(t) <==> (calls_at_drawn(net.stations@, s@.subrange(0, k as int), t)
                    || ts.subrange(0, j as int).contains(t)),
            decreases ts.len() - j,
        {
            let t = station.trains[j];
            let ghost before = trains@;
            let present = contains_id(&trains, t);
            if !present {
                trains.push(t);
                proof {
                    assert forall|x: TrainID| trains@.contains(x) <==> (before.contains(x) || x == t) by {
                        if trains@.contains(x) {
                            let q = choose|q: int| 0 <= q < trains@.len() && #[trigger] trains@[q] == x;
                            if q < before.len() {
                                assert(before[q] == x);
                            }
                        }
                        if before.contains(x) {
                            let q = choose|q: int| 0 <= q < before.len() && #[trigger] before[q] == x;
                            assert(trains@[q] == x);
                        }
                        if x == t {
                            assert(trains@[before.len() as int] == x);
                        }
                    }
                    assert forall|a: int, b: int| 0 <= a < b < trains@.len() implies trains@[a] != trains@[b] by {
                        if b == before.len() {
                            assert(before[a] == trains@[a]);
                            assert(before.contains(trains@[a]));
                        } else {
                            assert(before[a] == trains@[a] && before[b] == trains@[b]);
                        }
                    }
                }
            } else {
                assert forall|x: TrainID| trains@.contains(x) <==> (before.contains(x) || x == t) by {}
            }
            proof {
                assert forall|x: TrainID| ts.subrange(0, j + 1).contains(x) <==> (ts.subrange(0, j as int).contains(x) || x == t) by {
                    if ts.subrange(0, j + 1).contains(x) {
                        let q = choose|q: int| 0 <= q < j + 1 && #[trigger] ts.subrange(0, j + 1)[q] == x;
                        if q < j {
                            assert(ts.subrange(0, j as int)[q] == x);
                        }
                    }
                    if ts.subrange(0, j as int).contains(x) {
                        let q = choose|q: int| 0 <= q < j && #[trigger] ts.subrange(0, j as int)[q] == x;
                        assert(ts.subrange(0, j + 1)[q] == x);
                    }
                    if x == t {
                        assert(ts.subrange(0, j + 1)[j as int] == x);
                    }
                }
            }
            proof {
                assert forall|x: TrainID| #[trigger] trains@.contains(x) <==> (calls_at_drawn(net.stations@, s@.subrange(0, k as int), x)
                    || ts.subrange(0, j + 1).contains(x)) by {
                    assert(before.contains(x) <==> (calls_at_drawn(net.stations@, s@.subrange(0, k as int), x)
                        || ts.subrange(0, j as int).contains(x)));
                    assert(trains@.contains(x) <==> (before.contains(x) || x == t));
                }
            }
            j = j + 1;
        }
        proof {
            assert(ts.subrange(0, ts.len() as int) == ts);
            let upto = s@.subrange(0, k as int);
            let through = s@.subrange(0, k + 1);
            assert(net.stations@[s@[k as int]] == *station);
            assert forall|t: TrainID| calls_at_drawn(net.stations@, through, t) <==> (calls_at_drawn(net.stations@, upto, t) || ts.contains(t)) by {
                if calls_at_drawn(net.stations@, through, t) {
                    let q = choose|q: int| 0 <= q < through.len() && #[trigger] net.stations@[through[q]].trains@.contains(t);
                    if q < k {
                        assert(upto[q] == through[q]);
                    }
                }
                if calls_at_drawn(net.stations@, upto, t) {
                    let q = choose|q: int| 0 <= q < upto.len() && #[trigger] net.stations@[upto[q]].trains@.contains(t);
                    assert(upto[q] == through[q]);
                }
                if ts.contains(t) {
                    assert(through[k as int] == s@[k as int]);
                }
            }
        }
        k = k + 1;
    }
    assert(s@.subrange(0, n as int) == s@);
    let mut station_indices = multimap_new();
    assert(multimap_contents(station_indices) =~= Map::<u64, Seq<usize>>::empty());
    multimap_insert(&mut station_indices, s[0], 0);
    let mut graph_intervals: Vec<IntervalLength> = Vec::new();
    let mut draw_info: Vec<StationID> = Vec::new();
    draw_info.push(s[0]);
    assert(s@.subrange(0, 1).drop_last() =~= Seq::<StationID>::empty());
    assert(indices_map(Seq::<StationID>::empty()) == Map::<u64, Seq<usize>>::empty());
    assert(s@.subrange(0, 1).last() == s@[0]);
    let mut w: usize = 0;
    while w + 1 < n
        invariant
            n == s@.len(),
            n >= 1,
            w + 1 <= n,
            first_missing(net.stations@, s@, 0) == n,
            first_bad_pair(net.intervals@, s@, 0) == first_bad_pair(net.intervals@, s@, w as int),
            draw_info@ == s@.subrange(0, w + 1),
            graph_intervals@.len() == w,
            forall|q: int|
                0 <= q < w ==> pair_length(net.intervals@, s@[q], s@[q + 1])
                    == Some(#[trigger] graph_intervals@[q]),
            multimap_contents(station_indices) == indices_map(s@.subrange(0, w + 1)),
        decreases n - w,
    {
        let a = s[w];
        let b = s[w + 1];
        if a == b {
            return Err(LayoutError::ConsecutiveStationsSame { station: a });
        }
        let len = match pair_length_exec(&net.intervals, a, b) {
            Some(l) => l,
            None => {
                return Err(LayoutError::NoInterval { from: a, to: b });
            },
        };
        graph_intervals.push(len);
        draw_info.push(b);
        multimap_insert(&mut station_indices, b, w + 1);
        proof {
            assert(s@.subrange(0, w + 2).drop_last() =~= s@.subrange(0, w + 1));
        }
        w = w + 1;
    }
    assert(draw_info@ =~= s@);
    Ok(StationAxis { stations_draw_info: draw_info, graph_intervals, station_indices, trains })
}

} // verus!
