//! The layout of a whole network: the position axis, then the polylines of
//! every train that calls at a drawn station.
use vstd::prelude::*;

use crate::axis::{axis_error, calls_at_drawn, indices_map, make_station_draw_info, StationAxis};
use crate::config::NetworkConfig;
use crate::edges::{edges_of, edges_view, make_edges, node_from_entries, polyline_ok, steps_adjacent, EdgeNode};
use crate::train::{all_fit, overlaps_window, unroll, unrolled_entries, Train};
use crate::error::LayoutError;
use crate::multimap_spec::multimap_contents;
use crate::network::Network;
use crate::types::{Time, TrainID};

verus! {

broadcast use vstd::std_specs::hash::group_hash_axioms;

/// The polylines of one train.
pub struct TrainEdges {
    pub train: TrainID,
    pub edges: Vec<Vec<EdgeNode>>,
}

/// The position axis and the polylines of each drawn train.
pub struct Layout {
    pub axis: StationAxis,
    pub trains: Vec<TrainEdges>,
}

/// A drawable polyline: at least two nodes, each on the axis, each step a
/// dwell or a move to a neighbouring position.
pub open spec fn drawable(p: Seq<EdgeNode>, n: nat) -> bool {
    &&& p.len() >= 2
    &&& steps_adjacent(p)
    &&& forall|i: int| 0 <= i < p.len() ==> (#[trigger] p[i]).index < n
}

/// The polylines of a train over the window, for the station positions `m`.
pub open spec fn train_edges(t: Train, start: Time, end: Time, m: Map<u64, Seq<usize>>) -> Seq<Seq<EdgeNode>> {
    if overlaps_window(t.schedule@, start.sec(), end.sec()) {
        edges_of(unrolled_entries(t.schedule@, unroll(t.schedule@, start.sec(), end.sec(), t.period())), m)
    } else {
        Seq::empty()
    }
}

/// The train's schedule can be unrolled over the window: it lies outside
/// the window, or its period is not zero and every unrolled time fits.
pub open spec fn unrollable(t: Train, start: Time, end: Time) -> bool {
    overlaps_window(t.schedule@, start.sec(), end.sec()) ==> (t.period() != 0 && all_fit(
        unroll(t.schedule@, start.sec(), end.sec(), t.period()),
    ))
}

/// Every train that calls at a drawn station is in the network and can be
/// unrolled over the window.
pub open spec fn trains_drawable(config: &NetworkConfig, network: &Network) -> bool {
    forall|t: TrainID|
        #[trigger] calls_at_drawn(network.stations@, config.stations_to_draw@, t) ==> network.trains@.contains_key(t)
            && unrollable(network.trains@[t], config.start_time, config.end_time)
}

/// Why the train cannot be unrolled over the window.
pub open spec fn train_error(t: Train, start: Time, end: Time, e: LayoutError) -> bool {
    let over = overlaps_window(t.schedule@, start.sec(), end.sec());
    let u = unroll(t.schedule@, start.sec(), end.sec(), t.period());
    match e {
        LayoutError::StartAfterEnd { start: s, end: f } => s == start && f == end && start.sec() > end.sec(),
        LayoutError::ZeroPeriod { train } => train@ == t.name@ && start.sec() <= end.sec() && over && t.period() == 0,
        LayoutError::TimeOutOfRange { train } => train@ == t.name@ && start.sec() <= end.sec() && over && t.period() != 0
            && !all_fit(u),
        _ => false,
    }
}

/// The train's polylines are those of `train_edges`, and each is drawable.
#[verifier::opaque]
pub open spec fn train_laid_out(te: TrainEdges, network: &Network, config: &NetworkConfig, m: Map<u64, Seq<usize>>) -> bool {
    &&& network.trains@.contains_key(te.train)
    &&& edges_view(te.edges@) == train_edges(network.trains@[te.train], config.start_time, config.end_time, m)
    &&& forall|j: int| 0 <= j < te.edges@.len() ==> drawable((#[trigger] te.edges@[j])@, config.stations_to_draw@.len())
}

/// The polylines of one train over the window.
fn train_polylines(axis: &StationAxis, id: TrainID, train: &Train, network: &Network, config: &NetworkConfig) -> (r: Result<TrainEdges, LayoutError>)
    requires
        train.wf(),
        network.trains@.contains_key(id),
        network.trains@[id] == *train,
        multimap_contents(axis.station_indices) == indices_map(axis.stations_draw_info@),
        axis.stations_draw_info@ == config.stations_to_draw@,
    ensures
        config.start_time.sec() <= config.end_time.sec() && unrollable(*train, config.start_time, config.end_time) ==> r is Ok,
        r matches Err(e) ==> train_error(*train, config.start_time, config.end_time, e),
        r matches Ok(te) ==> te.train == id && train_laid_out(te, network, config, multimap_contents(axis.station_indices)),
{
    let ghost n = config.stations_to_draw@.len();
    let start = config.start_time;
    let end = config.end_time;
    let unrolled = match train.iter_schedule(start, end) {
        Ok(u) => u,
        Err(e) => {
            return Err(e);
        },
    };
    let edges: Vec<Vec<EdgeNode>> = match unrolled {
        Some(entries) => {
            let e = make_edges(axis, &entries);
            proof {
                assert forall|j: int| 0 <= j < e@.len() implies drawable((#[trigger] e@[j])@, n) by {
                    let p = e@[j]@;
                    assert(polyline_ok(p, axis.stations_draw_info@, entries@));
                    assert forall|k: int| 0 <= k < p.len() implies (#[trigger] p[k]).index < n by {
                        assert(node_from_entries(p[k], axis.stations_draw_info@, entries@));
                    }
                }
            }
            e
        },
        None => Vec::new(),
    };
    assert(edges_view(edges@) == train_edges(*train, start, end, multimap_contents(axis.station_indices))) by {
        if !overlaps_window(train.schedule@, start.sec(), end.sec()) {
            assert(edges_view(edges@) =~= Seq::<Seq<EdgeNode>>::empty());
        }
    }
    let te = TrainEdges { train: id, edges };
    proof {
        reveal(train_laid_out);
    }
    Ok(te)
}

/// Lays out the network under the configuration.
pub fn layout(config: &NetworkConfig, network: &Network) -> (r: Result<Layout, LayoutError>)
    requires
        network.wf(),
    ensures
        axis_error(network, config.stations_to_draw@) matches Some(e) ==> r == Err::<Layout, LayoutError>(e),
        axis_error(network, config.stations_to_draw@) is None && config.start_time.sec() <= config.end_time.sec()
            && trains_drawable(config, network) ==> r is Ok,
        r matches Err(e) ==> axis_error(network, config.stations_to_draw@) == Some(e) || (axis_error(
            network,
            config.stations_to_draw@,
        ) is None && match e {
            LayoutError::TrainNotFound { train } => calls_at_drawn(network.stations@, config.stations_to_draw@, train)
                && !network.trains@.contains_key(train),
            _ => exists|t: TrainID|
                calls_at_drawn(network.stations@, config.stations_to_draw@, t) && network.trains@.contains_key(t)
                    && #[trigger] train_error(network.trains@[t], config.start_time, config.end_time, e),
        }),
        r matches Ok(l) ==> {
            &&& l.axis.built_from(network, config.stations_to_draw@)
            &&& l.trains@.len() == l.axis.trains@.len()
            &&& forall|i: int| 0 <= i < l.trains@.len() ==> (#[trigger] l.trains@[i]).train == l.axis.trains@[i]
            &&& forall|i: int|
                0 <= i < l.trains@.len() ==> train_laid_out(
                    #[trigger] l.trains@[i],
                    network,
                    config,
                    multimap_contents(l.axis.station_indices),
                )
        },
{
    let axis = make_station_draw_info(&config.stations_to_draw, network)?;
    let ghost n = config.stations_to_draw@.len();
    let mut trains: Vec<TrainEdges> = Vec::new();
    let mut i: usize = 0;
    while i < axis.trains.len()
        invariant
            i <= axis.trains@.len(),
            axis.built_from(network, config.stations_to_draw@),
            axis_error(network, config.stations_to_draw@) is None,
            n == config.stations_to_draw@.len(),
            network.wf(),
            trains@.len() == i,
            forall|q: int| 0 <= q < i ==> (#[trigger] trains@[q]).train == axis.trains@[q],
            forall|q: int|
                0 <= q < i ==> train_laid_out(#[trigger] trains@[q], network, config, multimap_contents(axis.station_indices)),
        decreases axis.trains@.len() - i,
    {
        let id = axis.trains[i];
        assert(axis.trains@[i as int] == id);
        assert(axis.trains@.contains(id));
        assert(calls_at_drawn(network.stations@, config.stations_to_draw@, id));
        let train = match network.trains.get(&id) {
            Some(t) => t,
            None => {
                return Err(LayoutError::TrainNotFound { train: id });
            },
        };
        assert(network.trains@.contains_key(id) && network.trains@[id] == *train);
        let te = match train_polylines(&axis, id, train, network, config) {
            Ok(te) => te,
            Err(e) => {
                return Err(e);
            },
        };
        let ghost prev = trains@;
        trains.push(te);
        proof {
            assert forall|q: int| 0 <= q < i + 1 implies train_laid_out(#[trigger] trains@[q], network, config, multimap_contents(axis.station_indices)) by {
                if q < i {
                    assert(trains@[q] == prev[q]);
                }
            }
        }
        i = i + 1;
    }
    Ok(Layout { axis, trains })
}

} // verus!
