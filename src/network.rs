//! The railway network: stations, directed intervals and trains.
use vstd::prelude::*;

use std::collections::HashMap;

use crate::error::LayoutError;
use crate::train::Train;
use crate::types::{IntervalID, IntervalLength, StationID, TrainID};

verus! {

broadcast use vstd::std_specs::hash::group_hash_axioms;

/// A station, with the intervals that start or end at it and the trains
/// that call at it.
#[derive(Debug, Clone)]
pub struct Station {
    pub intervals: Vec<IntervalID>,
    pub trains: Vec<TrainID>,
}

/// A directed interval between two stations.
#[derive(Debug, Clone, Copy, PartialEq, Eq, Structural)]
pub struct Interval {
    pub length: IntervalLength,
}

/// Stations and trains by identifier, and the directed intervals in the
/// order they were added, each identifier at most once.
pub struct Network {
    pub stations: HashMap<StationID, Station>,
    pub trains: HashMap<TrainID, Train>,
    pub intervals: Vec<(IntervalID, Interval)>,
}

/// The first position from `i` on that holds `id`, or the length.
pub open spec fn find_interval_from(iv: Seq<(IntervalID, Interval)>, id: IntervalID, i: int) -> int
    decreases iv.len() - i,
{
    if i < 0 || i >= iv.len() {
        iv.len() as int
    } else if iv[i].0 == id {
        i
    } else {
        find_interval_from(iv, id, i + 1)
    }
}

/// The length of the directed interval `id`, if there is one.
pub open spec fn interval_length(iv: Seq<(IntervalID, Interval)>, id: IntervalID) -> Option<
    IntervalLength,
> {
    let i = find_interval_from(iv, id, 0);
    if i < iv.len() {
        Some(iv[i].1.length)
    } else {
        None
    }
}

/// The length between two drawn stations: the mean of both directions when
/// both exist, else the one that exists.
pub open spec fn pair_length(iv: Seq<(IntervalID, Interval)>, a: StationID, b: StationID) -> Option<
    IntervalLength,
> {
    match (interval_length(iv, (a, b)), interval_length(iv, (b, a))) {
        (Some(x), Some(y)) => Some(IntervalLength((((x.m() + y.m()) / 2) as u32))),
        (Some(x), None) => Some(x),
        (None, Some(y)) => Some(y),
        (None, None) => None,
    }
}

/// No directed interval is listed twice.
pub open spec fn intervals_unique(iv: Seq<(IntervalID, Interval)>) -> bool {
    forall|i: int, j: int| 0 <= i < j < iv.len() ==> iv[i].0 != iv[j].0
}

pub(crate) fn find_interval(iv: &Vec<(IntervalID, Interval)>, id: IntervalID) -> (r: Option<
    IntervalLength,
>)
    ensures
        r == interval_length(iv@, id),
{
    let mut i: usize = 0;
    while i < iv.len()
        invariant
            i <= iv@.len(),
            find_interval_from(iv@, id, 0) == find_interval_from(iv@, id, i as int),
        decreases iv@.len() - i,
    {
        if iv[i].0.0 == id.0 && iv[i].0.1 == id.1 {
            return Some(iv[i].1.length);
        }
        i = i + 1;
    }
    None
}

/// The train calls at the station.
pub open spec fn visits(t: Train, st: StationID) -> bool {
    exists|i: int| 0 <= i < t.schedule@.len() && (#[trigger] t.schedule@[i]).station == st
}

impl Network {
    pub open spec fn wf(&self) -> bool {
        &&& intervals_unique(self.intervals@)
        &&& forall|k: TrainID| #[trigger] self.trains@.contains_key(k) ==> self.trains@[k].wf()
    }

    /// Adds a station that no train calls at yet; one already there is kept.
    pub fn add_station(&mut self, id: StationID)
        requires
            old(self).wf(),
        ensures
            final(self).wf(),
            final(self).trains@ == old(self).trains@,
            final(self).intervals@ == old(self).intervals@,
            final(self).stations@.dom() == old(self).stations@.dom().insert(id),
            old(self).stations@.contains_key(id) ==> final(self).stations@ == old(self).stations@,
            !old(self).stations@.contains_key(id) ==> final(self).stations@[id].trains@.len() == 0
                && final(self).stations@[id].intervals@.len() == 0
                && forall|k: StationID| k != id && #[trigger] old(self).stations@.contains_key(k) ==> final(self).stations@[k]
                == old(self).stations@[k],
    {
        if !self.stations.contains_key(&id) {
            self.stations.insert(id, Station { intervals: Vec::new(), trains: Vec::new() });
        } else {
            assert(old(self).stations@.dom().insert(id) =~= old(self).stations@.dom());
        }
    }

    /// Adds a train, and records it at each station of the network that it
    /// calls at.
    pub fn add_train(&mut self, id: TrainID, train: Train)
        requires
            old(self).wf(),
            train.wf(),
        ensures
            final(self).wf(),
            final(self).trains@ == old(self).trains@.insert(id, train),
            final(self).intervals@ == old(self).intervals@,
            final(self).stations@.dom() == old(self).stations@.dom(),
            forall|k: StationID, x: TrainID|
                #[trigger] final(self).stations@.contains_key(k) ==> (#[trigger] final(self).stations@[k].trains@.contains(x)
                    <==> (old(self).stations@[k].trains@.contains(x) || (x == id && visits(train, k)))),
            forall|k: StationID|
                #[trigger] final(self).stations@.contains_key(k) ==> final(self).stations@[k].intervals@
                    == old(self).stations@[k].intervals@,
    {
        let ghost st0 = self.stations@;
        let mut i: usize = 0;
        while i < train.schedule.len()
            invariant
                i <= train.schedule@.len(),
                self.stations@.dom() == st0.dom(),
                forall|k: StationID, x: TrainID|
                    #[trigger] self.stations@.contains_key(k) ==> (#[trigger] self.stations@[k].trains@.contains(x)
                        <==> (st0[k].trains@.contains(x) || (x == id && exists|j: int| 0 <= j < i && (#[trigger] train.schedule@[j]).station == k))),
                forall|k: StationID| #[trigger] self.stations@.contains_key(k) ==> self.stations@[k].intervals@ == st0[k].intervals@,
                intervals_unique(self.intervals@),
                forall|k: TrainID| #[trigger] self.trains@.contains_key(k) ==> self.trains@[k].wf(),
                self.intervals@ == old(self).intervals@,
                self.trains@ == old(self).trains@,
                st0 == old(self).stations@,
            decreases train.schedule@.len() - i,
        {
            let sid = train.schedule[i].station;
            let ghost before = self.stations@;
            match self.stations.remove(&sid) {
                Some(st) => {
                    assert(before[sid] == st);
                    let intervals = st.intervals;
                    let mut trains = st.trains;
                    let ghost tb = trains@;
                    let mut q: usize = 0;
                    let mut found = false;
                    while q < trains.len()
                        invariant
                            q <= trains@.len(),
                            found == exists|z: int| 0 <= z < q && trains@[z] == id,
                        decreases trains@.len() - q,
                    {
                        if trains[q] == id {
                            found = true;
                        }
                        q = q + 1;
                    }
                    if !found {
                        trains.push(id);
                    }
                    proof {
                        assert forall|x: TrainID| trains@.contains(x) <==> (tb.contains(x) || x == id) by {
                            if !found {
                                if trains@.contains(x) {
                                    let z = choose|z: int| 0 <= z < trains@.len() && trains@[z] == x;
                                    if z < tb.len() {
                                        assert(tb[z] == x);
                                    }
                                }
                                if tb.contains(x) {
                                    let z = choose|z: int| 0 <= z < tb.len() && tb[z] == x;
                                    assert(trains@[z] == x);
                                }
                                assert(trains@[tb.len() as int] == id);
                            }
                        }
                    }
                    let ghost tn = trains@;
                    self.stations.insert(sid, Station { intervals, trains });
                    assert(self.stations@[sid].trains@ == tn);
                    assert forall|k: StationID| k != sid && #[trigger] before.contains_key(k) implies self.stations@[k] == before[k] by {}
                    assert(self.stations@[sid].intervals@ == before[sid].intervals@);
                    assert(forall|x: TrainID| self.stations@[sid].trains@.contains(x) <==> (before[sid].trains@.contains(x) || x == id));
                },
                None => {
                    assert(self.stations@ == before);
                },
            }
            proof {
                assert(self.stations@.dom() =~= st0.dom());
                assert forall|k: StationID, x: TrainID|
                    #[trigger] self.stations@.contains_key(k) implies (#[trigger] self.stations@[k].trains@.contains(x)
                        <==> (st0[k].trains@.contains(x) || (x == id && exists|j: int| 0 <= j < i + 1 && (#[trigger] train.schedule@[j]).station == k))) by {
                    assert(before.contains_key(k));
                    assert(before[k].trains@.contains(x) <==> (st0[k].trains@.contains(x) || (x == id && exists|j: int| 0 <= j < i && (#[trigger] train.schedule@[j]).station == k)));
                    if k == sid {
                        assert(self.stations@[k].trains@.contains(x) <==> (before[k].trains@.contains(x) || x == id));
                    }
                    if k != sid {
                        assert(self.stations@[k] == before[k]);
                    }
                    if exists|j: int| 0 <= j < i + 1 && (#[trigger] train.schedule@[j]).station == k {
                        let j = choose|j: int| 0 <= j < i + 1 && (#[trigger] train.schedule@[j]).station == k;
                        if j < i {
                            assert(exists|j: int| 0 <= j < i && (#[trigger] train.schedule@[j]).station == k);
                        }
                    }
                    if exists|j: int| 0 <= j < i && (#[trigger] train.schedule@[j]).station == k {
                        let j = choose|j: int| 0 <= j < i && (#[trigger] train.schedule@[j]).station == k;
                        assert(0 <= j < i + 1);
                    }
                    if k == sid {
                        assert(train.schedule@[i as int].station == k);
                    }
                }
            }
            i = i + 1;
        }
        self.trains.insert(id, train);
    }

    pub fn new() -> (r: Network)
        ensures
            r.wf(),
            r.stations@ == Map::<StationID, Station>::empty(),
            r.trains@ == Map::<TrainID, Train>::empty(),
            r.intervals@ == Seq::<(IntervalID, Interval)>::empty(),
    {
        Network { stations: HashMap::new(), trains: HashMap::new(), intervals: Vec::new() }
    }

    /// Records the interval at the station, if the network has the station.
    fn record_interval(&mut self, sid: StationID, iid: IntervalID)
        ensures
            final(self).intervals@ == old(self).intervals@,
            final(self).trains@ == old(self).trains@,
            final(self).stations@.dom() == old(self).stations@.dom(),
            forall|k: StationID| #[trigger] final(self).stations@.contains_key(k) ==> final(self).stations@[k].trains@
                == old(self).stations@[k].trains@,
            forall|k: StationID, x: IntervalID|
                #[trigger] final(self).stations@.contains_key(k) ==> (#[trigger] final(self).stations@[k].intervals@.contains(x)
                    <==> (old(self).stations@[k].intervals@.contains(x) || (k == sid && x == iid))),
    {
        let ghost before = self.stations@;
        match self.stations.remove(&sid) {
            Some(st) => {
                assert(before[sid] == st);
                let mut ivs = st.intervals;
                let ghost ib = ivs@;
                let mut q: usize = 0;
                let mut found = false;
                while q < ivs.len()
                    invariant
                        q <= ivs@.len(),
                        found == exists|z: int| 0 <= z < q && ivs@[z] == iid,
                    decreases ivs@.len() - q,
                {
                    if ivs[q].0 == iid.0 && ivs[q].1 == iid.1 {
                        found = true;
                    }
                    q = q + 1;
                }
                if !found {
                    ivs.push(iid);
                }
                proof {
                    assert forall|x: IntervalID| ivs@.contains(x) <==> (ib.contains(x) || x == iid) by {
                        if !found {
                            if ivs@.contains(x) {
                                let z = choose|z: int| 0 <= z < ivs@.len() && ivs@[z] == x;
                                if z < ib.len() {
                                    assert(ib[z] == x);
                                }
                            }
                            if ib.contains(x) {
                                let z = choose|z: int| 0 <= z < ib.len() && ib[z] == x;
                                assert(ivs@[z] == x);
                            }
                            assert(ivs@[ib.len() as int] == iid);
                        }
                    }
                }
                let ghost iv_new = ivs@;
                self.stations.insert(sid, Station { intervals: ivs, trains: st.trains });
                assert(self.stations@[sid].intervals@ == iv_new);
                assert(self.stations@.dom() =~= before.dom());
                assert forall|k: StationID, x: IntervalID|
                    #[trigger] self.stations@.contains_key(k) implies (#[trigger] self.stations@[k].intervals@.contains(x)
                        <==> (before[k].intervals@.contains(x) || (k == sid && x == iid))) by {
                    if k != sid {
                        assert(self.stations@[k] == before[k]);
                    }
                }
                assert forall|k: StationID| #[trigger] self.stations@.contains_key(k) implies self.stations@[k].trains@
                    == before[k].trains@ by {
                    if k != sid {
                        assert(self.stations@[k] == before[k]);
                    }
                }
            },
            None => {
                assert(self.stations@ == before);
            },
        }
    }

    /// Adds the directed interval `(from, to)`, and for a bidirectional one
    /// `(to, from)` before it, rejecting one that is already there.
    pub fn add_interval(&mut self, from: StationID, to: StationID, length: IntervalLength, bidirectional: bool) -> (r: Result<(), LayoutError>)
        requires
            old(self).wf(),
        ensures
            final(self).wf(),
            final(self).trains@ == old(self).trains@,
            bidirectional && interval_length(old(self).intervals@, (to, from)) is Some ==> r
                == Err::<(), LayoutError>(LayoutError::DuplicateInterval { from: to, to: from }),
            bidirectional && interval_length(old(self).intervals@, (to, from)) is None && (from
                == to || interval_length(old(self).intervals@, (from, to)) is Some) ==> r == Err::<
                (),
                LayoutError,
            >(LayoutError::DuplicateInterval { from, to }),
            !bidirectional && interval_length(old(self).intervals@, (from, to)) is Some ==> r
                == Err::<(), LayoutError>(LayoutError::DuplicateInterval { from, to }),
            r is Ok <==> (interval_length(old(self).intervals@, (from, to)) is None && (bidirectional ==> (
            from != to && interval_length(old(self).intervals@, (to, from)) is None))),
            r is Ok ==> final(self).intervals@ == (if bidirectional {
                old(self).intervals@.push(((to, from), Interval { length })).push(
                    ((from, to), Interval { length }),
                )
            } else {
                old(self).intervals@.push(((from, to), Interval { length }))
            }),
            r is Ok ==> bidirectional ==> interval_length(old(self).intervals@, (to, from)) is None
                && from != to,
            r is Err ==> final(self).intervals@ == old(self).intervals@,
            final(self).stations@.dom() == old(self).stations@.dom(),
            forall|k: StationID| #[trigger] final(self).stations@.contains_key(k) ==> final(self).stations@[k].trains@
                == old(self).stations@[k].trains@,
            forall|k: StationID, x: IntervalID|
                #[trigger] final(self).stations@.contains_key(k) ==> (#[trigger] final(self).stations@[k].intervals@.contains(x)
                    <==> (old(self).stations@[k].intervals@.contains(x) || (r is Ok && x == (from, to) && (k == from
                    || k == to)))),
    {
        let ghost iv0 = self.intervals@;
        if bidirectional {
            if find_interval(&self.intervals, (to, from)).is_some() {
                return Err(LayoutError::DuplicateInterval { from: to, to: from });
            }
            if from == to || find_interval(&self.intervals, (from, to)).is_some() {
                return Err(LayoutError::DuplicateInterval { from, to });
            }
            proof {
                lemma_absent_unique_push(iv0, ((to, from), Interval { length }));
                let iv1 = iv0.push(((to, from), Interval { length }));
                lemma_absent_extend(iv0, (from, to), ((to, from), Interval { length }));
                lemma_absent_unique_push(iv1, ((from, to), Interval { length }));
            }
            self.intervals.push(((to, from), Interval { length }));
            self.intervals.push(((from, to), Interval { length }));
        } else {
            if find_interval(&self.intervals, (from, to)).is_some() {
                return Err(LayoutError::DuplicateInterval { from, to });
            }
            proof {
                lemma_absent_unique_push(iv0, ((from, to), Interval { length }));
            }
            self.intervals.push(((from, to), Interval { length }));
        }
        let ghost st0 = self.stations@;
        self.record_interval(from, (from, to));
        let ghost st1 = self.stations@;
        self.record_interval(to, (from, to));
        proof {
            assert forall|k: StationID, x: IntervalID|
                #[trigger] self.stations@.contains_key(k) implies (#[trigger] self.stations@[k].intervals@.contains(x)
                    <==> (st0[k].intervals@.contains(x) || (x == (from, to) && (k == from || k == to)))) by {
                assert(st1.contains_key(k));
                assert(st1[k].intervals@.contains(x) <==> (st0[k].intervals@.contains(x) || (k == from && x == (from, to))));
            }
            assert forall|k: StationID| #[trigger] self.stations@.contains_key(k) implies self.stations@[k].trains@
                == st0[k].trains@ by {
                assert(st1.contains_key(k));
            }
        }
        Ok(())
    }
}

proof fn lemma_absent_from(iv: Seq<(IntervalID, Interval)>, id: IntervalID, i: int)
    requires
        0 <= i <= iv.len(),
        find_interval_from(iv, id, i) >= iv.len(),
    ensures
        forall|j: int| i <= j < iv.len() ==> iv[j].0 != id,
    decreases iv.len() - i,
{
    if i < iv.len() {
        lemma_absent_from(iv, id, i + 1);
    }
}

proof fn lemma_absent_unique_push(iv: Seq<(IntervalID, Interval)>, e: (IntervalID, Interval))
    requires
        intervals_unique(iv),
        interval_length(iv, e.0) is None,
    ensures
        intervals_unique(iv.push(e)),
{
    lemma_absent_from(iv, e.0, 0);
    let t = iv.push(e);
    assert forall|i: int, j: int| 0 <= i < j < t.len() implies t[i].0 != t[j].0 by {
        if j == iv.len() {
            assert(t[i] == iv[i]);
        } else {
            assert(t[i] == iv[i] && t[j] == iv[j]);
        }
    }
}

proof fn lemma_absent_extend(iv: Seq<(IntervalID, Interval)>, id: IntervalID, e: (IntervalID, Interval))
    requires
        interval_length(iv, id) is None,
        e.0 != id,
    ensures
        interval_length(iv.push(e), id) is None,
{
    lemma_absent_from(iv, id, 0);
    lemma_absent_everywhere(iv.push(e), id, 0);
}

proof fn lemma_absent_everywhere(iv: Seq<(IntervalID, Interval)>, id: IntervalID, i: int)
    requires
        0 <= i <= iv.len(),
        forall|j: int| i <= j < iv.len() ==> iv[j].0 != id,
    ensures
        find_interval_from(iv, id, i) == iv.len(),
    decreases iv.len() - i,
{
    if i < iv.len() {
        lemma_absent_everywhere(iv, id, i + 1);
    }
}

} // verus!
