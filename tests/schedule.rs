use train_graph::error::LayoutError;
use train_graph::train::{IterateScheduleEntry, ScheduleEntry, Train, TrainFrequency};
use train_graph::types::Time;

const A: u64 = 1;
const B: u64 = 2;
const C: u64 = 3;

fn entry(arrival: i32, departure: i32, station: u64) -> ScheduleEntry {
    ScheduleEntry { arrival: Time::new(arrival), departure: Time::new(departure), station }
}

fn train(period: i32, entries: Vec<ScheduleEntry>) -> Train {
    Train::new("T1".to_string(), TrainFrequency::Repeating(Time::new(period)), entries).unwrap()
}

fn unroll(t: &Train, start: i32, end: i32) -> Vec<IterateScheduleEntry> {
    t.iter_schedule(Time::new(start), Time::new(end)).unwrap().unwrap()
}

#[test]
fn train_rejects_departure_before_arrival() {
    let r = Train::new("X".to_string(), TrainFrequency::Repeating(Time::new(60)), vec![entry(10, 5, A)]);
    assert!(matches!(r, Err(LayoutError::InvalidSchedule { train }) if train == "X"));
}

#[test]
fn train_rejects_arrival_before_previous_departure() {
    let r = Train::new(
        "X".to_string(),
        TrainFrequency::Repeating(Time::new(60)),
        vec![entry(0, 100, A), entry(50, 60, B)],
    );
    assert!(matches!(r, Err(LayoutError::InvalidSchedule { .. })));
}

#[test]
fn train_schedule_keeps_entries_in_order() {
    let t = train(3600, vec![entry(0, 0, A), entry(5, 10, B), entry(20, 30, C)]);
    assert_eq!(t.schedule, vec![entry(0, 0, A), entry(5, 10, B), entry(20, 30, C)]);
    for w in t.schedule.windows(2) {
        assert!(w[1].arrival.seconds() >= w[0].departure.seconds());
    }
}

#[test]
fn train_rejects_two_entries_with_one_arrival() {
    let r = Train::new(
        "X".to_string(),
        TrainFrequency::Repeating(Time::new(60)),
        vec![entry(0, 0, A), entry(0, 10, B)],
    );
    assert!(matches!(r, Err(LayoutError::InvalidSchedule { .. })));
}

#[test]
fn periodic_unroll_over_three_hours() {
    let t = train(3600, vec![entry(0, 0, A), entry(1800, 1800, B)]);
    let u = unroll(&t, 0, 10800);
    let got: Vec<(i32, u64, bool)> = u.iter().map(|e| (e.arrival.seconds(), e.original_entry.station, e.clear)).collect();
    assert_eq!(
        got,
        vec![
            (0, A, true),
            (1800, B, false),
            (3600, A, true),
            (5400, B, false),
            (7200, A, true),
            (9000, B, false),
            (10800, A, true),
        ]
    );
    let at_a: Vec<i32> = u.iter().filter(|e| e.original_entry.station == A).map(|e| e.arrival.seconds()).collect();
    assert_eq!(at_a, vec![0, 3600, 7200, 10800]);
}

#[test]
fn offscreen_anchors_are_included() {
    let t = train(86400, vec![entry(0, 0, A), entry(1800, 1800, B), entry(3600, 3600, C)]);
    let u = unroll(&t, 900, 2700);
    let stations: Vec<u64> = u.iter().map(|e| e.original_entry.station).collect();
    assert_eq!(stations, vec![A, B, C]);
    assert_eq!(u[0].arrival, Time::new(0));
    assert_eq!(u[2].arrival, Time::new(3600));
}

#[test]
fn unrolled_entries_stay_within_one_period_of_window() {
    let t = train(3600, vec![entry(0, 60, A), entry(1200, 1300, B), entry(2400, 2500, C)]);
    let (s, e, p) = (2000, 9000, 3600);
    let u = unroll(&t, s, e);
    assert!(!u.is_empty());
    for x in &u {
        assert!(x.departure.seconds() >= s - p);
        assert!(x.arrival.seconds() <= e + p);
    }
}

#[test]
fn every_overlapping_instance_appears_once() {
    let base = vec![entry(0, 60, A), entry(1200, 1300, B), entry(2400, 2500, C)];
    let t = train(3600, base.clone());
    let (s, e, p) = (1000, 9000, 3600);
    let u = unroll(&t, s, e);
    for b in &base {
        for m in -5..6 {
            let a = b.arrival.seconds() + m * p;
            let d = b.departure.seconds() + m * p;
            let n = u.iter().filter(|x| x.original_entry == *b && x.arrival.seconds() == a).count();
            if a <= e && d >= s {
                assert_eq!(n, 1);
                let x = u.iter().find(|x| x.original_entry == *b && x.arrival.seconds() == a).unwrap();
                assert_eq!(x.departure.seconds(), d);
            }
        }
    }
}

#[test]
fn unroll_of_schedule_outside_window_is_none() {
    let t = train(3600, vec![entry(0, 100, A)]);
    assert!(matches!(t.iter_schedule(Time::new(3600), Time::new(3700)), Ok(None)));
    assert!(matches!(t.iter_schedule(Time::new(-500), Time::new(-200)), Ok(None)));
    let empty = train(3600, vec![]);
    assert!(matches!(empty.iter_schedule(Time::new(0), Time::new(10)), Ok(None)));
}

#[test]
fn unroll_rejects_start_after_end() {
    let t = train(3600, vec![entry(0, 100, A)]);
    let r = t.iter_schedule(Time::new(10), Time::new(5));
    assert!(matches!(r, Err(LayoutError::StartAfterEnd { start, end }) if start == Time::new(10) && end == Time::new(5)));
}

#[test]
fn unroll_rejects_zero_period() {
    let t = train(0, vec![entry(0, 100, A)]);
    let r = t.iter_schedule(Time::new(0), Time::new(50));
    assert!(matches!(r, Err(LayoutError::ZeroPeriod { train }) if train == "T1"));
}

#[test]
fn negative_period_is_taken_as_its_magnitude() {
    let t = train(-3600, vec![entry(0, 0, A), entry(1800, 1800, B)]);
    let u = unroll(&t, 0, 10800);
    assert_eq!(u.len(), 7);
    assert_eq!(u[2].arrival, Time::new(3600));
}

#[test]
fn unroll_reports_time_out_of_range() {
    let t = train(10, vec![entry(i32::MAX - 30, i32::MAX - 25, A)]);
    let r = t.iter_schedule(Time::new(i32::MAX - 28), Time::new(i32::MAX));
    assert!(matches!(r, Err(LayoutError::TimeOutOfRange { .. })));
}

use train_graph::train::TrainScheduleRepeatingIterator;

#[test]
fn repeating_iterator_walks_entries_lazily() {
    let t = train(3600, vec![entry(0, 0, A), entry(1800, 1800, B)]);
    let mut it = TrainScheduleRepeatingIterator::new(&t, Time::new(0), Time::new(10800), Time::new(3600)).unwrap();
    let mut got = Vec::new();
    while let Some(e) = it.next() {
        got.push(e);
    }
    assert_eq!(got, unroll(&t, 0, 10800));
    assert_eq!(got.len(), 7);
    assert!(it.next().is_none());
}

#[test]
fn repeating_iterator_rejects_zero_period_and_normalises_negative() {
    let t = train(3600, vec![entry(0, 0, A), entry(1800, 1800, B)]);
    let r = TrainScheduleRepeatingIterator::new(&t, Time::new(0), Time::new(10800), Time::new(0));
    assert!(matches!(r, Err(LayoutError::ZeroPeriod { train }) if train == "T1"));
    let mut it = TrainScheduleRepeatingIterator::new(&t, Time::new(0), Time::new(10800), Time::new(-3600)).unwrap();
    let mut got = Vec::new();
    while let Some(e) = it.next() {
        got.push(e);
    }
    assert_eq!(got, unroll(&t, 0, 10800));
}

#[test]
fn repeating_iterator_is_empty_outside_window() {
    let t = train(3600, vec![entry(0, 100, A)]);
    let mut it = TrainScheduleRepeatingIterator::new(&t, Time::new(3600), Time::new(3700), Time::new(3600)).unwrap();
    assert!(it.next().is_none());
    let mut it = TrainScheduleRepeatingIterator::new(&t, Time::new(50), Time::new(10), Time::new(3600)).unwrap();
    assert!(it.next().is_none());
}
