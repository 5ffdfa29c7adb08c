use fit_kit::engine::AnalyticsEngine;
use fit_kit::record::{Field, Record};
use fit_kit::value::{Number, Value};
use fit_kit::zones::{time_in_zones, zone_intervals, zone_time_for, Interval};

fn field(name: &str, value: Value, units: &str) -> Field {
    Field { name: name.to_string(), value, units: units.to_string() }
}

fn record(kind: &str, fields: Vec<Field>) -> Record {
    Record { kind: kind.to_string(), fields }
}

fn beat(t: i64, rate: u8) -> Record {
    record(
        "record",
        vec![field("timestamp", Value::Timestamp(t), "s"), field("heart_rate", Value::UInt8(rate), "bpm")],
    )
}

fn widen(n: Number) -> f64 {
    match n {
        Number::Signed(i) => i as f64,
        Number::Unsigned(u) => u as f64,
        Number::Single(bits) => f32::from_bits(bits) as f64,
        Number::Double(bits) => f64::from_bits(bits),
    }
}

fn zone_times(records: &Vec<Record>, zones: &Vec<(f64, f64)>, name: &str) -> Vec<((f64, f64), f64)> {
    let seconds =
        zone_time_for(records, name, zones.len(), |value, zone| widen(value) > zones[zone].1).unwrap();
    zones.iter().zip(seconds.iter()).map(|(zone, s)| (*zone, *s as f64)).collect()
}

fn hr_zones() -> Vec<(f64, f64)> {
    vec![(0.0, 100.0), (100.0, 140.0), (140.0, 170.0)]
}

#[test]
fn seconds_go_to_the_zone_of_the_later_sample() {
    let records = vec![beat(0, 90), beat(10, 120), beat(25, 150), beat(27, 95)];
    assert_eq!(
        zone_times(&records, &hr_zones(), "heart_rate"),
        vec![((0.0, 100.0), 2.0), ((100.0, 140.0), 10.0), ((140.0, 170.0), 15.0)]
    );
}

#[test]
fn the_zone_seconds_add_up_to_the_elapsed_time() {
    let records = vec![
        beat(100, 60),
        beat(103, 101),
        beat(110, 180),
        beat(111, 100),
        beat(130, 140),
        beat(131, 141),
        beat(160, 20),
    ];
    let times = zone_times(&records, &hr_zones(), "heart_rate");
    let total: f64 = times.iter().map(|(_, s)| *s).sum();
    assert_eq!(total, 60.0);
    assert_eq!(times[0].1, 1.0 + 29.0);
    assert_eq!(times[1].1, 3.0 + 19.0);
    assert_eq!(times[2].1, 7.0 + 1.0);
}

#[test]
fn a_zone_that_is_never_met_has_no_seconds() {
    let records = vec![beat(0, 50), beat(5, 55), beat(9, 60)];
    assert_eq!(
        zone_times(&records, &hr_zones(), "heart_rate"),
        vec![((0.0, 100.0), 9.0), ((100.0, 140.0), 0.0), ((140.0, 170.0), 0.0)]
    );
}

#[test]
fn a_reading_above_every_zone_goes_to_the_last() {
    let records = vec![beat(0, 50), beat(8, 250)];
    assert_eq!(zone_times(&records, &hr_zones(), "heart_rate")[2].1, 8.0);
}

#[test]
fn a_reading_on_the_upper_bound_stays_in_the_zone() {
    let records = vec![beat(0, 50), beat(4, 100), beat(10, 140)];
    let times = zone_times(&records, &hr_zones(), "heart_rate");
    assert_eq!(times[0].1, 4.0);
    assert_eq!(times[1].1, 6.0);
}

#[test]
fn no_samples_no_seconds() {
    assert_eq!(
        zone_times(&vec![], &hr_zones(), "heart_rate"),
        vec![((0.0, 100.0), 0.0), ((100.0, 140.0), 0.0), ((140.0, 170.0), 0.0)]
    );
    assert_eq!(zone_times(&vec![beat(0, 90)], &hr_zones(), "heart_rate")[0].1, 0.0);
}

#[test]
fn no_zones_no_result() {
    let records = vec![beat(0, 90), beat(10, 120)];
    assert!(zone_times(&records, &vec![], "heart_rate").is_empty());
}

#[test]
fn records_without_the_field_are_left_out_before_pairing() {
    let records = vec![
        beat(0, 90),
        record("record", vec![field("timestamp", Value::Timestamp(4), "s")]),
        record("lap", vec![field("timestamp", Value::Timestamp(5), "s"), field("heart_rate", Value::UInt8(200), "bpm")]),
        beat(10, 120),
    ];
    assert_eq!(
        zone_intervals(&records, "heart_rate"),
        vec![Interval { value: Number::Unsigned(120), start: 0, end: 10 }]
    );
}

#[test]
fn a_pair_whose_later_value_is_no_number_is_skipped() {
    let records = vec![
        beat(0, 90),
        record(
            "record",
            vec![
                field("timestamp", Value::Timestamp(10), "s"),
                field("heart_rate", Value::String("-".to_string()), "bpm"),
            ],
        ),
        beat(30, 120),
    ];
    assert_eq!(
        zone_intervals(&records, "heart_rate"),
        vec![Interval { value: Number::Unsigned(120), start: 10, end: 30 }]
    );
}

#[test]
fn a_pair_with_a_missing_or_mistyped_time_is_skipped() {
    let records = vec![
        beat(0, 90),
        record("record", vec![field("heart_rate", Value::UInt8(100), "bpm")]),
        beat(20, 110),
        record(
            "record",
            vec![field("timestamp", Value::UInt32(30), "s"), field("heart_rate", Value::UInt8(120), "bpm")],
        ),
        beat(40, 130),
        beat(45, 131),
    ];
    assert_eq!(
        zone_intervals(&records, "heart_rate"),
        vec![Interval { value: Number::Unsigned(131), start: 40, end: 45 }]
    );
}

#[test]
fn the_first_field_of_the_name_is_classified() {
    let records = vec![
        beat(0, 90),
        record(
            "record",
            vec![
                field("heart_rate", Value::UInt8(150), "bpm"),
                field("timestamp", Value::Timestamp(6), "s"),
                field("heart_rate", Value::UInt8(20), "bpm"),
            ],
        ),
    ];
    assert_eq!(
        zone_intervals(&records, "heart_rate"),
        vec![Interval { value: Number::Unsigned(150), start: 0, end: 6 }]
    );
}

#[test]
fn times_that_run_backwards_take_seconds_away() {
    let records = vec![beat(50, 90), beat(40, 91), beat(70, 92)];
    assert_eq!(zone_times(&records, &hr_zones(), "heart_rate")[0].1, 20.0);
}

#[test]
fn a_reading_is_classified_from_the_first_zone_on() {
    let one = Interval { value: Number::Signed(1), start: 0, end: 1 };
    let rows: Vec<(Vec<bool>, usize)> = vec![
        (vec![false, false, false], 0),
        (vec![true, false, false], 1),
        (vec![true, true, false], 2),
        (vec![true, true, true], 2),
        (vec![false, true, true], 0),
        (vec![true, false, true], 1),
        (vec![true], 0),
    ];
    for (row, zone) in rows {
        let sums = time_in_zones(&vec![one], row.len(), |_, z| row[z]).unwrap();
        let mut expected = vec![0i128; row.len()];
        expected[zone] = 1;
        assert_eq!(sums, expected);
    }
}

#[test]
fn the_last_zone_is_never_asked_about() {
    let one = Interval { value: Number::Signed(1), start: 0, end: 1 };
    let asked = std::cell::RefCell::new(Vec::new());
    let sums = time_in_zones(&vec![one, one], 3, |_, z| {
        asked.borrow_mut().push(z);
        true
    });
    assert_eq!(sums, Some(vec![0, 0, 2]));
    assert_eq!(asked.into_inner(), vec![0, 1, 0, 1]);
}

#[test]
fn time_in_zones_adds_exact_seconds() {
    let far = Interval { value: Number::Signed(1), start: i64::MIN, end: i64::MAX };
    let intervals = vec![far, far, Interval { value: Number::Signed(2), start: 5, end: 3 }];
    let seconds = time_in_zones(&intervals, 2, |value, _| value == Number::Signed(2));
    assert_eq!(seconds, Some(vec![2 * (u64::MAX as i128), -2]));
}

#[test]
fn time_in_zones_without_intervals_or_zones() {
    let one = Interval { value: Number::Signed(1), start: 0, end: 4 };
    assert_eq!(time_in_zones(&vec![], 3, |_, _| true), Some(vec![0, 0, 0]));
    assert_eq!(time_in_zones(&vec![one], 0, |_, _| true), Some(vec![]));
    assert_eq!(time_in_zones(&vec![one], 1, |_, _| true), Some(vec![4]));
}

#[test]
fn the_engine_gives_the_same_zone_times() {
    let records = vec![beat(0, 90), beat(10, 120), beat(25, 150)];
    let engine = AnalyticsEngine::new(vec![beat(0, 90), beat(10, 120), beat(25, 150)]);
    let zones = hr_zones();
    let sums = engine.zone_time_for(zones.len(), "heart_rate", |v, z| widen(v) > zones[z].1);
    assert_eq!(sums, Some(vec![0, 10, 15]));
    assert_eq!(
        sums,
        zone_time_for(&records, "heart_rate", zones.len(), |v, z| widen(v) > zones[z].1)
    );
}
