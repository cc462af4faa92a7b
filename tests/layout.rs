use train_graph::axis::make_station_draw_info;
use train_graph::config::NetworkConfig;
use train_graph::edges::{make_edges, EdgeNode};
use train_graph::error::LayoutError;
use train_graph::layout::layout;
use train_graph::network::{Network, Station};
use train_graph::train::{ScheduleEntry, Train, TrainFrequency};
use train_graph::types::{IntervalLength, ScaleMode, Time};

const A: u64 = 11;
const B: u64 = 22;
const C: u64 = 33;
const D: u64 = 44;

fn entry(arrival: i32, departure: i32, station: u64) -> ScheduleEntry {
    ScheduleEntry { arrival: Time::new(arrival), departure: Time::new(departure), station }
}

fn corridor() -> Network {
    let mut n = Network::new();
    n.add_station(A);
    n.add_station(B);
    n.add_station(C);
    n.add_interval(A, B, IntervalLength::new(10000), true).unwrap();
    n.add_interval(B, C, IntervalLength::new(20000), true).unwrap();
    n
}

fn add_train(n: &mut Network, id: u64, period: i32, entries: Vec<ScheduleEntry>) {
    let t = Train::new(format!("T{id}"), TrainFrequency::Repeating(Time::new(period)), entries).unwrap();
    n.add_train(id, t);
}

fn config(stations: Vec<u64>, start: i32, end: i32) -> NetworkConfig {
    NetworkConfig::new(stations, Time::new(start), Time::new(end), ScaleMode::Linear).unwrap()
}

fn indices(p: &[EdgeNode]) -> Vec<usize> {
    p.iter().map(|n| n.index).collect()
}

#[test]
fn single_station_draws_no_polyline() {
    let mut n = Network::new();
    n.add_station(A);
    add_train(&mut n, 7, 3600, vec![entry(0, 0, A)]);
    let l = layout(&config(vec![A], 0, 3600), &n).unwrap();
    assert!(l.axis.graph_intervals.is_empty());
    assert_eq!(l.trains.len(), 1);
    assert!(l.trains[0].edges.is_empty());
}

#[test]
fn straight_corridor_positions() {
    let n = corridor();
    let axis = make_station_draw_info(&vec![A, B, C], &n).unwrap();
    let m: Vec<u32> = axis.graph_intervals.iter().map(|l| l.meters()).collect();
    assert_eq!(m, vec![10000, 20000]);
    assert_eq!(axis.offsets_meters(), vec![0, 10000, 30000]);
    let offs = axis.offsets_meters();
    for w in offs.windows(2) {
        assert!(w[0] <= w[1]);
    }
}

#[test]
fn one_direction_and_mean_of_both() {
    let mut n = Network::new();
    n.add_station(A);
    n.add_station(B);
    n.add_station(C);
    n.add_interval(A, B, IntervalLength::new(1000), false).unwrap();
    n.add_interval(B, A, IntervalLength::new(3001), false).unwrap();
    n.add_interval(C, B, IntervalLength::new(500), false).unwrap();
    let axis = make_station_draw_info(&vec![A, B, C], &n).unwrap();
    let m: Vec<u32> = axis.graph_intervals.iter().map(|l| l.meters()).collect();
    assert_eq!(m, vec![2000, 500]);
}

#[test]
fn revisit_gives_one_polyline() {
    let mut n = corridor();
    add_train(&mut n, 5, 86400, vec![entry(0, 0, A), entry(1800, 1800, B), entry(3600, 3600, A)]);
    let axis = make_station_draw_info(&vec![A, B, A], &n).unwrap();
    assert_eq!(axis.indices_of(A), Some(&vec![0, 2]));
    assert_eq!(axis.indices_of(B), Some(&vec![1]));
    assert_eq!(axis.indices_of(C), None);
    let t = n.trains.get(&5).unwrap();
    let entries = t.iter_schedule(Time::new(0), Time::new(3600)).unwrap().unwrap();
    let edges = make_edges(&axis, &entries);
    assert_eq!(edges.len(), 1);
    let times: Vec<i32> = edges[0].iter().map(|n| n.time.seconds()).collect();
    assert_eq!(times, vec![0, 1800, 3600]);
    assert_eq!(indices(&edges[0]), vec![0, 1, 0]);
}

#[test]
fn polylines_step_between_adjacent_positions() {
    let mut n = corridor();
    n.add_station(D);
    add_train(
        &mut n,
        9,
        7200,
        vec![entry(0, 60, A), entry(600, 660, B), entry(1200, 1200, D), entry(1800, 1860, B), entry(2400, 2500, C)],
    );
    let l = layout(&config(vec![A, B, C], 0, 3000), &n).unwrap();
    assert_eq!(l.trains.len(), 1);
    let edges = &l.trains[0].edges;
    assert!(!edges.is_empty());
    for p in edges {
        assert!(p.len() >= 2);
        for w in p.windows(2) {
            let (a, b) = (w[0].index, w[1].index);
            assert!(a == b || a + 1 == b || b + 1 == a);
        }
    }
    // the train leaves the corridor at D, which splits its path in two
    assert_eq!(indices(&edges[0]), vec![0, 0, 1, 1]);
    assert_eq!(indices(&edges[1]), vec![1, 1, 2, 2]);
}

#[test]
fn dwell_adds_departure_node() {
    let mut n = corridor();
    add_train(&mut n, 3, 86400, vec![entry(0, 120, A), entry(600, 600, B)]);
    let l = layout(&config(vec![A, B], 0, 600), &n).unwrap();
    let p = &l.trains[0].edges[0];
    let times: Vec<i32> = p.iter().map(|n| n.time.seconds()).collect();
    assert_eq!(times, vec![0, 120, 600]);
}

#[test]
fn config_rejects_backtracking_triple() {
    let r = NetworkConfig::new(vec![A, B, A, B], Time::new(0), Time::new(10), ScaleMode::Linear);
    assert!(matches!(r, Err(LayoutError::StationBacktracks { station: A })));
}

#[test]
fn config_rejects_repeated_station_in_triple() {
    let r = NetworkConfig::new(vec![A, B, B], Time::new(0), Time::new(10), ScaleMode::Linear);
    assert!(matches!(r, Err(LayoutError::ConsecutiveStationsSame { station: B })));
}

#[test]
fn config_rejects_empty_station_list() {
    let r = NetworkConfig::new(vec![], Time::new(0), Time::new(10), ScaleMode::Uniform);
    assert!(matches!(r, Err(LayoutError::NoStationsToDraw)));
}

#[test]
fn config_rejects_start_after_end() {
    let r = NetworkConfig::new(vec![A, B], Time::new(20), Time::new(10), ScaleMode::Squared);
    assert!(matches!(r, Err(LayoutError::StartAfterEnd { .. })));
}

#[test]
fn config_accepts_valid_input() {
    let c = NetworkConfig::new(vec![A, B, C], Time::new(0), Time::new(10), ScaleMode::Logarithmic).unwrap();
    assert_eq!(c.stations_to_draw, vec![A, B, C]);
    assert_eq!(c.position_axis_scale_mode, ScaleMode::Logarithmic);
}

#[test]
fn axis_rejects_missing_station() {
    let n = corridor();
    let r = make_station_draw_info(&vec![A, D], &n);
    assert!(matches!(r, Err(LayoutError::StationNotFound { station: D })));
}

#[test]
fn axis_rejects_missing_interval() {
    let mut n = corridor();
    n.add_station(D);
    let r = make_station_draw_info(&vec![A, B, D], &n);
    assert!(matches!(r, Err(LayoutError::NoInterval { from: B, to: D })));
}

#[test]
fn axis_rejects_same_consecutive_station() {
    let n = corridor();
    let r = make_station_draw_info(&vec![A, A], &n);
    assert!(matches!(r, Err(LayoutError::ConsecutiveStationsSame { station: A })));
}

#[test]
fn axis_rejects_empty_station_list() {
    let n = corridor();
    assert!(matches!(make_station_draw_info(&vec![], &n), Err(LayoutError::NoStationsToDraw)));
}

#[test]
fn duplicate_intervals_are_rejected() {
    let mut n = corridor();
    let r = n.add_interval(B, A, IntervalLength::new(5), false);
    assert!(matches!(r, Err(LayoutError::DuplicateInterval { from: B, to: A })));
    let r = n.add_interval(C, B, IntervalLength::new(5), true);
    assert!(matches!(r, Err(LayoutError::DuplicateInterval { from: B, to: C })));
    let r = n.add_interval(A, D, IntervalLength::new(5), true);
    assert!(r.is_ok());
    assert_eq!(n.intervals.len(), 6);
}

#[test]
fn trains_are_recorded_at_their_stations() {
    let mut n = corridor();
    add_train(&mut n, 5, 3600, vec![entry(0, 0, A), entry(100, 100, B), entry(200, 200, D)]);
    add_train(&mut n, 6, 3600, vec![entry(0, 0, C)]);
    assert_eq!(n.stations.get(&A).unwrap().trains, vec![5]);
    assert_eq!(n.stations.get(&B).unwrap().trains, vec![5]);
    assert_eq!(n.stations.get(&C).unwrap().trains, vec![6]);
    let axis = make_station_draw_info(&vec![A, B], &n).unwrap();
    assert_eq!(axis.trains, vec![5]);
    let axis = make_station_draw_info(&vec![C, B, A], &n).unwrap();
    assert_eq!(axis.trains, vec![6, 5]);
}

#[test]
fn layout_reports_missing_train() {
    let mut n = corridor();
    n.stations.insert(A, Station { intervals: vec![], trains: vec![99] });
    let r = layout(&config(vec![A, B], 0, 100), &n);
    assert!(matches!(r, Err(LayoutError::TrainNotFound { train: 99 })));
}

#[test]
fn layout_reports_zero_period() {
    let mut n = corridor();
    add_train(&mut n, 4, 0, vec![entry(0, 0, A), entry(60, 60, B)]);
    let r = layout(&config(vec![A, B], 0, 100), &n);
    assert!(matches!(r, Err(LayoutError::ZeroPeriod { .. })));
}

use train_graph::grid::{CellGrid, CellRect};

#[test]
fn grid_lists_overlapping_rects_under_a_shared_cell() {
    let mut g = CellGrid::new();
    let a = g.add(CellRect { x0: 0, x1: 2, y0: 0, y1: 1 });
    let b = g.add(CellRect { x0: 2, x1: 4, y0: 1, y1: 3 });
    let c = g.add(CellRect { x0: 10, x1: 11, y0: 10, y1: 10 });
    assert_eq!((a, b, c), (0, 1, 2));
    assert_eq!(g.ids_at(2, 1), vec![0, 1]);
    assert_eq!(g.ids_at(0, 0), vec![0]);
    assert_eq!(g.ids_at(11, 10), vec![2]);
    assert!(g.ids_at(5, 5).is_empty());
    assert_eq!(g.rects.len(), 3);
}

#[test]
fn intervals_are_recorded_at_their_stations() {
    let n = corridor();
    assert_eq!(n.stations.get(&A).unwrap().intervals, vec![(A, B)]);
    assert_eq!(n.stations.get(&B).unwrap().intervals, vec![(A, B), (B, C)]);
    assert_eq!(n.stations.get(&C).unwrap().intervals, vec![(B, C)]);
    assert_eq!(n.intervals.iter().map(|(id, _)| *id).collect::<Vec<_>>(), vec![(B, A), (A, B), (C, B), (B, C)]);
}
