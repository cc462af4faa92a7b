use train_graph::types::{IntervalID, IntervalIDExt, IntervalLength, Time};

#[test]
fn time_fields_of_positive_time() {
    let t = Time::new(90061);
    assert_eq!(t.seconds(), 90061);
    assert_eq!(t.second(), 1);
    assert_eq!(t.minute(), 1);
    assert_eq!(t.hour(), 1);
    assert_eq!(t.day(), 1);
    assert_eq!(t.days(), 1);
    assert_eq!(t.hours(), 25);
    assert_eq!(t.minutes(), 1501);
}

#[test]
fn time_fields_of_negative_time_use_euclidean_remainder() {
    let t = Time::new(-1);
    assert_eq!(t.second(), 59);
    assert_eq!(t.minute(), 59);
    assert_eq!(t.hour(), 23);
    assert_eq!(t.day(), -1);
    assert_eq!(t.days(), 0);
    assert_eq!(t.hours(), 0);
    assert_eq!(t.minutes(), 0);
}

#[test]
fn time_text_of_minus_one_second() {
    assert_eq!(Time::new(-1).to_string(), "23:59:59-1");
}

#[test]
fn time_text_without_and_with_day_suffix() {
    assert_eq!(Time::new(0).to_string(), "00:00:00");
    assert_eq!(Time::new(3661).to_string(), "01:01:01");
    assert_eq!(Time::new(86400 * 12 + 45296).to_string(), "12:34:56+12");
    assert_eq!(Time::new(-86400 * 3).to_string(), "00:00:00-3");
}

#[test]
fn time_parse_reads_text_form() {
    assert_eq!(Time::parse("23:59:59-1"), Some(Time::new(-1)));
    assert_eq!(Time::parse("01:00:00+2"), Some(Time::new(2 * 86400 + 3600)));
    assert_eq!(Time::parse("00:00:07"), Some(Time::new(7)));
}

#[test]
fn time_parse_rejects_malformed_text() {
    assert_eq!(Time::parse(""), None);
    assert_eq!(Time::parse("24:00:00"), None);
    assert_eq!(Time::parse("00:60:00"), None);
    assert_eq!(Time::parse("00:00:0a"), None);
    assert_eq!(Time::parse("00-00:00"), None);
    assert_eq!(Time::parse("00:00:00+"), None);
    assert_eq!(Time::parse("00:00:00*1"), None);
    assert_eq!(Time::parse("00:00:00+99999"), None);
}

#[test]
fn time_text_round_trips() {
    for s in [0, 1, -1, 59, 60, 3599, 86399, 86400, -86400, -86401, 123456789, -987654321, i32::MAX, i32::MIN] {
        let t = Time::new(s);
        assert_eq!(Time::parse(&t.to_string()), Some(t));
    }
}

#[test]
fn interval_reverse_swaps_stations() {
    let id: IntervalID = (3, 9);
    assert_eq!(id.reverse(), (9, 3));
}

#[test]
fn interval_length_mean_rounds_down() {
    let a = IntervalLength::new(1000);
    let b = IntervalLength::new(2001);
    assert_eq!(a.meters(), 1000);
    assert_eq!(IntervalLength::mean(a, b).meters(), 1500);
    assert_eq!(IntervalLength::mean(IntervalLength::new(u32::MAX), IntervalLength::new(u32::MAX)).meters(), u32::MAX);
}
