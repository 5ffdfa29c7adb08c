use fit_kit::aggregate::{average, elevation_gain, gain_of, mean_of, Gain, Mean};
use fit_kit::engine::{is_cut, partition_stats, pick_range, window_stats, AnalyticsEngine};
use fit_kit::record::{Field, Record};
use fit_kit::resample::FitDataRecordVecExt;
use fit_kit::value::{Number, Value};

fn field(name: &str, value: Value, units: &str) -> Field {
    Field { name: name.to_string(), value, units: units.to_string() }
}

fn record(kind: &str, fields: Vec<Field>) -> Record {
    Record { kind: kind.to_string(), fields }
}

fn double(v: f64) -> Value {
    Value::Float64(v.to_bits())
}

fn widen(n: Number) -> f64 {
    match n {
        Number::Signed(i) => i as f64,
        Number::Unsigned(u) => u as f64,
        Number::Single(bits) => f32::from_bits(bits) as f64,
        Number::Double(bits) => f64::from_bits(bits),
    }
}

fn mean_value(mean: &Mean) -> (f64, String) {
    mean.value(0.0, |sum, n| sum + widen(n), |sum, count| sum / count as f64)
}

fn gain_value(gain: &Gain) -> (f64, String) {
    gain.value(0.0, |sum, earlier, later| {
        let (a, b) = (widen(earlier), widen(later));
        if b > a {
            sum + (b - a)
        } else {
            sum
        }
    })
}

fn ride() -> Vec<Record> {
    vec![
        record(
            "record",
            vec![
                field("timestamp", Value::Timestamp(0), "s"),
                field("dist", double(0.0), "m"),
                field("alt", double(10.0), "m"),
            ],
        ),
        record(
            "record",
            vec![
                field("timestamp", Value::Timestamp(10), "s"),
                field("dist", double(50.0), "m"),
                field("alt", double(15.0), "m"),
            ],
        ),
        record(
            "record",
            vec![
                field("timestamp", Value::Timestamp(20), "s"),
                field("dist", double(120.0), "m"),
                field("alt", double(12.0), "m"),
            ],
        ),
    ]
}

#[test]
fn average_of_an_absent_field_is_the_zero_sentinel() {
    let mean = average(&ride(), "power");
    assert!(mean.operands.is_empty());
    assert_eq!(mean.units, "");
    assert_eq!(mean_value(&mean), (0.0, String::new()));
}

#[test]
fn average_of_no_records_is_the_zero_sentinel() {
    let mean = average(&vec![], "alt");
    assert_eq!(mean, Mean { operands: vec![], units: String::new() });
}

#[test]
fn average_matches_the_hand_computed_mean() {
    let records = vec![
        record("record", vec![field("heart_rate", Value::UInt8(120), "bpm")]),
        record("record", vec![field("heart_rate", Value::UInt8(130), "bpm")]),
        record("record", vec![field("heart_rate", Value::UInt8(155), "bpm")]),
    ];
    let mean = average(&records, "heart_rate");
    assert_eq!(
        mean.operands,
        vec![Number::Unsigned(120), Number::Unsigned(130), Number::Unsigned(155)]
    );
    assert_eq!(mean_value(&mean), (135.0, "bpm".to_string()));
}

#[test]
fn average_takes_every_occurrence_in_a_record() {
    let records = vec![
        record(
            "record",
            vec![
                field("power", Value::UInt16(100), "watts"),
                field("cadence", Value::UInt8(80), "rpm"),
                field("power", Value::UInt16(300), "watts"),
            ],
        ),
        record("record", vec![field("power", Value::UInt16(200), "watts")]),
    ];
    let mean = average(&records, "power");
    assert_eq!(
        mean.operands,
        vec![Number::Unsigned(100), Number::Unsigned(300), Number::Unsigned(200)]
    );
    assert_eq!(mean_value(&mean), (200.0, "watts".to_string()));
}

#[test]
fn average_reads_periodic_samples_only() {
    let records = vec![
        record("lap", vec![field("power", Value::UInt16(900), "lap watts")]),
        record("record", vec![field("power", Value::UInt16(100), "watts")]),
        record("session", vec![field("power", Value::UInt16(500), "watts")]),
        record("record", vec![field("power", Value::UInt16(150), "watts")]),
    ];
    let mean = average(&records, "power");
    assert_eq!(mean.operands, vec![Number::Unsigned(100), Number::Unsigned(150)]);
    assert_eq!(mean_value(&mean), (125.0, "watts".to_string()));
}

#[test]
fn average_drops_values_that_are_no_numbers() {
    let records = vec![
        record("record", vec![field("temp", Value::String("warm".to_string()), "text")]),
        record("record", vec![field("temp", Value::SInt8(-4), "C")]),
        record("record", vec![field("temp", Value::Byte(9), "C")]),
        record("record", vec![field("temp", Value::SInt8(8), "C")]),
    ];
    let mean = average(&records, "temp");
    assert_eq!(mean.operands, vec![Number::Signed(-4), Number::Signed(8)]);
    let (value, units) = mean_value(&mean);
    assert_eq!(value, 2.0);
    assert_eq!(units, "text");
}

#[test]
fn average_without_a_number_has_no_units() {
    let records = vec![
        record("record", vec![field("temp", Value::String("warm".to_string()), "text")]),
        record("record", vec![field("temp", Value::Timestamp(3), "s")]),
    ];
    let mean = average(&records, "temp");
    assert_eq!(mean, Mean { operands: vec![], units: String::new() });
}

#[test]
fn average_of_mixed_number_kinds() {
    let records = vec![
        record("record", vec![field("speed", Value::Float32(1.5f32.to_bits()), "m/s")]),
        record("record", vec![field("speed", double(2.5), "m/s")]),
        record("record", vec![field("speed", Value::SInt32(-1), "m/s")]),
        record("record", vec![field("speed", Value::UInt64z(5), "m/s")]),
    ];
    assert_eq!(mean_value(&average(&records, "speed")), (2.0, "m/s".to_string()));
}

#[test]
fn elevation_gain_of_the_example_ride() {
    let gain = elevation_gain(&ride(), "alt");
    assert_eq!(
        gain.steps,
        vec![
            (Number::Double(10.0f64.to_bits()), Number::Double(15.0f64.to_bits())),
            (Number::Double(15.0f64.to_bits()), Number::Double(12.0f64.to_bits())),
        ]
    );
    assert_eq!(gain_value(&gain), (5.0, "m".to_string()));
}

#[test]
fn elevation_gain_of_a_falling_series_is_zero() {
    let records: Vec<Record> = [30u16, 30, 22, 22, 4]
        .iter()
        .map(|a| record("record", vec![field("alt", Value::UInt16(*a), "m")]))
        .collect();
    let gain = elevation_gain(&records, "alt");
    assert_eq!(gain.steps.len(), 4);
    assert_eq!(gain_value(&gain), (0.0, "m".to_string()));
}

#[test]
fn elevation_gain_of_a_rising_series_is_the_whole_ascent() {
    let records: Vec<Record> = [3.0f64, 4.5, 10.0, 10.25, 40.0]
        .iter()
        .map(|a| record("record", vec![field("alt", double(*a), "m")]))
        .collect();
    assert_eq!(gain_value(&elevation_gain(&records, "alt")), (37.0, "m".to_string()));
}

#[test]
fn elevation_gain_without_a_match_is_the_zero_sentinel() {
    let gain = elevation_gain(&ride(), "depth");
    assert_eq!(gain, Gain { steps: vec![], units: String::new() });
    assert_eq!(gain_value(&gain), (0.0, String::new()));
}

#[test]
fn elevation_gain_of_one_occurrence_keeps_its_units() {
    let records = vec![record("record", vec![field("alt", double(7.0), "m")])];
    let gain = elevation_gain(&records, "alt");
    assert_eq!(gain, Gain { steps: vec![], units: "m".to_string() });
}

#[test]
fn elevation_gain_skips_pairs_with_a_value_that_is_no_number() {
    let records = vec![
        record("record", vec![field("alt", Value::UInt16(10), "m")]),
        record("record", vec![field("alt", Value::String("?".to_string()), "m")]),
        record("record", vec![field("alt", Value::UInt16(50), "m")]),
        record("record", vec![field("alt", Value::UInt16(60), "m")]),
    ];
    let gain = elevation_gain(&records, "alt");
    assert_eq!(gain.steps, vec![(Number::Unsigned(50), Number::Unsigned(60))]);
    assert_eq!(gain_value(&gain), (10.0, "m".to_string()));
}

#[test]
fn elevation_gain_units_come_from_the_first_occurrence() {
    let records = vec![
        record("record", vec![field("alt", Value::String("?".to_string()), "none")]),
        record("record", vec![field("alt", Value::UInt16(50), "m")]),
    ];
    let gain = elevation_gain(&records, "alt");
    assert_eq!(gain, Gain { steps: vec![], units: "none".to_string() });
}

#[test]
fn elevation_gain_pairs_occurrences_inside_a_record() {
    let records = vec![
        record(
            "record",
            vec![field("alt", Value::UInt16(1), "m"), field("alt", Value::UInt16(4), "m")],
        ),
        record("lap", vec![field("alt", Value::UInt16(100), "m")]),
        record("record", vec![field("alt", Value::UInt16(6), "m")]),
    ];
    let gain = elevation_gain(&records, "alt");
    assert_eq!(
        gain.steps,
        vec![
            (Number::Unsigned(1), Number::Unsigned(4)),
            (Number::Unsigned(4), Number::Unsigned(6)),
        ]
    );
    assert_eq!(gain_value(&gain), (5.0, "m".to_string()));
}

#[test]
fn mean_and_gain_over_chosen_records() {
    let records = ride();
    let chosen: Vec<&Record> = vec![&records[2], &records[0]];
    let mean = mean_of(&chosen, "alt");
    assert_eq!(mean_value(&mean), (11.0, "m".to_string()));
    let gain = gain_of(&chosen, "alt");
    assert_eq!(gain_value(&gain), (0.0, "m".to_string()));
    let again = records.aggregate_field_values(vec![&records[1], &records[2]], "dist");
    assert_eq!(mean_value(&again), (85.0, "m".to_string()));
}

#[test]
fn engine_gives_the_same_statistics() {
    let engine = AnalyticsEngine::new(ride());
    assert_eq!(engine.records().len(), 3);
    assert_eq!(mean_value(&engine.avg_for("alt")).1, "m");
    assert_eq!(engine.avg_for("alt"), average(&ride(), "alt"));
    assert_eq!(engine.elevation_gain("alt"), elevation_gain(&ride(), "alt"));
    assert_eq!(gain_value(&engine.elevation_gain("alt")), (5.0, "m".to_string()));
}

#[test]
fn partition_stats_share_the_boundary_records() {
    let owned = ride();
    let records: Vec<&Record> = owned.iter().collect();
    let fields = vec!["alt".to_string(), "dist".to_string(), "power".to_string()];
    let stats = partition_stats(&records, &vec![0, 1, 2], &fields).unwrap();
    assert_eq!(stats.len(), 2);
    let first: Vec<(String, (f64, String))> =
        stats[0].iter().map(|(name, mean)| (name.clone(), mean_value(mean))).collect();
    assert_eq!(
        first,
        vec![
            ("alt".to_string(), (12.5, "m".to_string())),
            ("dist".to_string(), (25.0, "m".to_string())),
            ("power".to_string(), (0.0, String::new())),
        ]
    );
    let second: Vec<(String, (f64, String))> =
        stats[1].iter().map(|(name, mean)| (name.clone(), mean_value(mean))).collect();
    assert_eq!(
        second,
        vec![
            ("alt".to_string(), (13.5, "m".to_string())),
            ("dist".to_string(), (85.0, "m".to_string())),
            ("power".to_string(), (0.0, String::new())),
        ]
    );
}

#[test]
fn partition_stats_of_one_window() {
    let owned = ride();
    let records: Vec<&Record> = owned.iter().collect();
    let stats = partition_stats(&records, &vec![0, 2], &vec!["alt".to_string()]).unwrap();
    assert_eq!(stats.len(), 1);
    assert_eq!(stats[0].len(), 1);
    assert_eq!(stats[0][0].0, "alt");
    let (value, units) = mean_value(&stats[0][0].1);
    assert!((value - 37.0 / 3.0).abs() < 1e-12);
    assert_eq!(units, "m");
}

#[test]
fn partition_stats_without_a_window() {
    let owned = ride();
    let records: Vec<&Record> = owned.iter().collect();
    let fields = vec!["alt".to_string()];
    assert_eq!(partition_stats(&records, &vec![], &fields), Some(vec![]));
    assert_eq!(partition_stats(&records, &vec![0], &fields), Some(vec![]));
    let no_fields = partition_stats(&records, &vec![0, 2], &vec![]).unwrap();
    assert_eq!(no_fields.len(), 1);
    assert!(no_fields[0].is_empty());
}

#[test]
fn boundaries_that_do_not_cut_the_records_give_no_stats() {
    let owned = ride();
    let records: Vec<&Record> = owned.iter().collect();
    let fields = vec!["alt".to_string()];
    assert_eq!(partition_stats(&records, &vec![0, 3], &fields), None);
    assert_eq!(partition_stats(&records, &vec![2, 1], &fields), None);
    assert_eq!(partition_stats(&records, &vec![7], &fields), None);
    assert_eq!(partition_stats(&vec![], &vec![0], &fields), None);
    assert_eq!(partition_stats(&records, &vec![0, 1, 0], &fields), None);
}

#[test]
fn a_window_may_be_a_single_record() {
    let owned = ride();
    let records: Vec<&Record> = owned.iter().collect();
    let stats = partition_stats(&records, &vec![1, 1], &vec!["alt".to_string()]).unwrap();
    assert_eq!(stats.len(), 1);
    assert_eq!(mean_value(&stats[0][0].1), (15.0, "m".to_string()));
}

#[test]
fn is_cut_checks_range_and_order() {
    assert!(is_cut(&vec![], 0));
    assert!(is_cut(&vec![0, 0, 2], 3));
    assert!(!is_cut(&vec![0, 3], 3));
    assert!(!is_cut(&vec![1, 0], 3));
    assert!(!is_cut(&vec![0], 0));
}

#[test]
fn a_mean_is_the_sum_divided_by_the_count() {
    let mean = Mean {
        operands: vec![Number::Signed(-3), Number::Unsigned(4), Number::Double(0.5f64.to_bits())],
        units: "x".to_string(),
    };
    assert_eq!(mean_value(&mean), (0.5, "x".to_string()));
    let trace = mean.value(
        "0".to_string(),
        |sum: String, n| format!("({sum}+{})", widen(n)),
        |sum: String, count| format!("{sum}/{count}"),
    );
    assert_eq!(trace, ("(((0+-3)+4)+0.5)/3".to_string(), "x".to_string()));
}

#[test]
fn a_mean_without_operands_is_the_zero_given() {
    let mean = Mean { operands: vec![], units: String::new() };
    assert_eq!(mean.value(7.5, |sum, n| sum + widen(n), |sum, count| sum / count as f64).0, 7.5);
    let trace = mean.value(
        "0".to_string(),
        |sum: String, n| format!("({sum}+{})", widen(n)),
        |sum: String, count| format!("{sum}/{count}"),
    );
    assert_eq!(trace, ("0".to_string(), String::new()));
}

#[test]
fn a_gain_folds_the_steps_in_order() {
    let gain = Gain {
        steps: vec![
            (Number::Unsigned(1), Number::Unsigned(4)),
            (Number::Unsigned(4), Number::Unsigned(2)),
            (Number::Unsigned(2), Number::Unsigned(9)),
        ],
        units: "m".to_string(),
    };
    assert_eq!(gain_value(&gain), (10.0, "m".to_string()));
    let trace = gain.value(String::new(), |sum: String, a, b| {
        format!("{sum}[{}>{}]", widen(a), widen(b))
    });
    assert_eq!(trace.0, "[1>4][4>2][2>9]");
    let none = Gain { steps: vec![], units: "m".to_string() };
    assert_eq!(gain_value(&none), (0.0, "m".to_string()));
}

#[test]
fn the_engine_partitions_and_averages() {
    let engine = AnalyticsEngine::new(ride());
    let fields = vec!["alt".to_string(), "dist".to_string()];
    let stats = engine
        .partition_stats_for_fields("dist", |v, b| widen(v) - widen(b) >= 50.0, &fields)
        .unwrap();
    let values: Vec<Vec<(String, (f64, String))>> = stats
        .iter()
        .map(|window| window.iter().map(|(name, mean)| (name.clone(), mean_value(mean))).collect())
        .collect();
    assert_eq!(
        values,
        vec![
            vec![
                ("alt".to_string(), (12.5, "m".to_string())),
                ("dist".to_string(), (25.0, "m".to_string())),
            ],
            vec![
                ("alt".to_string(), (13.5, "m".to_string())),
                ("dist".to_string(), (85.0, "m".to_string())),
            ],
        ]
    );
    let whole = engine
        .partition_stats_for_fields("dist", |v, b| widen(v) - widen(b) >= 100.0, &fields)
        .unwrap();
    assert_eq!(whole.len(), 1);
    assert_eq!(mean_value(&whole[0][1].1), (170.0 / 3.0, "m".to_string()));
    let empty = AnalyticsEngine::new(vec![record("lap", vec![])]);
    assert_eq!(
        empty.partition_stats_for_fields("dist", |_, _| true, &fields),
        Err(fit_kit::error::AnalyticsError::EmptyInput)
    );
}

#[test]
fn the_engine_cuts_windows_from_the_periodic_samples() {
    let mut records = vec![record("file_id", vec![]), record("lap", vec![field("alt", double(999.0), "m")])];
    records.extend(ride());
    records.insert(3, record("event", vec![field("alt", double(777.0), "m")]));
    let engine = AnalyticsEngine::new(records);
    let fields = vec!["alt".to_string()];
    let stats = engine.partition_stats_for_fields("alt", |_, _| true, &fields).unwrap();
    assert_eq!(stats.len(), 2);
    assert_eq!(mean_value(&stats[0][0].1), (12.5, "m".to_string()));
    assert_eq!(mean_value(&stats[1][0].1), (13.5, "m".to_string()));
}

#[test]
fn window_stats_agree_with_partition_stats() {
    let owned = ride();
    let records: Vec<&Record> = owned.iter().collect();
    let fields = vec!["dist".to_string()];
    let boundaries = vec![0, 1, 2];
    assert!(is_cut(&boundaries, records.len()));
    let stats = window_stats(&records, &boundaries, &fields);
    assert_eq!(Some(stats), partition_stats(&records, &boundaries, &fields));
    let picked = pick_range(&records, 1, 3);
    assert_eq!(picked, vec![&owned[1], &owned[2]]);
}
