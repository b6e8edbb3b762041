use diamond::migrate::{
    archive_plan, column_index, destination_name, fetch_window, info_step, migration_message, row_times,
    Retention,
};
use diamond::rrd::{fetch_row_count, rows_of, AggregationMethod, Error, Info, Value};

fn info(entries: &[(&str, Value)]) -> Info {
    Info { entries: entries.iter().map(|(k, v)| (k.to_string(), v.clone())).collect() }
}

fn text(s: &str) -> Value {
    Value::Text(s.to_string())
}

fn archive(i: usize, cf: &str, rows: u64, pdp: u64, xff: f64) -> Vec<(String, Value)> {
    vec![
        (format!("rra[{}].cf", i), text(cf)),
        (format!("rra[{}].rows", i), Value::Long(rows)),
        (format!("rra[{}].cur_row", i), Value::Long(0)),
        (format!("rra[{}].pdp_per_row", i), Value::Long(pdp)),
        (format!("rra[{}].xff", i), Value::Float(xff.to_bits())),
    ]
}

fn sample() -> Info {
    let mut entries = vec![
        ("filename".to_string(), text("read_rrd.rrd")),
        ("step".to_string(), Value::Long(300)),
        ("ds[temp].index".to_string(), Value::Long(0)),
        ("ds[temp].type".to_string(), text("GAUGE")),
    ];
    entries.extend(archive(0, "AVERAGE", 1200, 1, 0.5));
    entries.extend(archive(1, "MIN", 2400, 12, 0.6));
    entries.extend(archive(2, "MAX", 2400, 12, 0.7));
    entries.extend(archive(3, "AVERAGE", 2400, 12, 0.8));
    Info { entries }
}

#[test]
fn aggregation_methods_by_name() {
    assert_eq!("average".parse::<AggregationMethod>(), Ok(AggregationMethod::Average));
    assert_eq!("AVERAGE".parse::<AggregationMethod>(), Ok(AggregationMethod::Average));
    assert_eq!("Min".parse::<AggregationMethod>(), Ok(AggregationMethod::Min));
    assert_eq!("max".parse::<AggregationMethod>(), Ok(AggregationMethod::Max));
    assert_eq!("LAST".parse::<AggregationMethod>(), Ok(AggregationMethod::Last));
    assert_eq!("avg_zero".parse::<AggregationMethod>(), Ok(AggregationMethod::AvgZero));
    assert_eq!("AVG_Zero".parse::<AggregationMethod>(), Ok(AggregationMethod::AvgZero));
    assert_eq!(AggregationMethod::AvgZero.as_str(), "avg_zero");
    assert_eq!(
        "sum".parse::<AggregationMethod>(),
        Err("Unsupported aggregation method 'sum'.".to_string())
    );
    for m in [
        AggregationMethod::Average,
        AggregationMethod::Min,
        AggregationMethod::Max,
        AggregationMethod::Last,
        AggregationMethod::AvgZero,
    ] {
        assert_eq!(AggregationMethod::from_text(m.as_str()), Ok(m));
    }
}

#[test]
fn values_read_as_numbers_and_texts() {
    assert_eq!(Value::Long(7).as_long(), Some(7));
    assert_eq!(Value::Int(-1).as_long(), None);
    assert_eq!(Value::Int(5).as_long(), Some(5));
    assert_eq!(text("+42").as_long(), Some(42));
    assert_eq!(text("-42").as_long(), None);
    assert_eq!(text("-42").as_int(), Some(-42));
    assert_eq!(text("-2147483648").as_int(), Some(i32::MIN));
    assert_eq!(text("2147483648").as_int(), None);
    assert_eq!(Value::Long(1 << 31).as_int(), None);
    assert_eq!(Value::Blob(vec![1, 2]).blob(), Some(&[1u8, 2][..]));
    assert_eq!(text("x").text(), Some("x"));
    assert_eq!(Value::Long(1).text(), None);
    assert!(text("1e3").has_float());
    assert!(!text("abc").has_float());
}

#[test]
fn info_describes_archives_and_sources() {
    let i = sample();
    assert_eq!(i.rra_count(), 4);
    let rras = i.rras();
    assert_eq!(rras.len(), 4);
    assert_eq!(rras[1].cf, AggregationMethod::Min);
    assert_eq!(rras[1].rows, 2400);
    assert_eq!(rras[1].pdp_per_row, 12);
    match rras[3].xff {
        Value::Float(bits) => assert_eq!(f64::from_bits(bits), 0.8),
        ref other => panic!("unexpected {:?}", other),
    }
    assert_eq!(i.datasources(), vec!["temp".to_string()]);
    assert_eq!(info_step(&i), Some(300));
    assert!(i.checked_rras().is_some());
    let broken = info(&[("rra[1].cf", text("AVERAGE"))]);
    assert_eq!(broken.rra_count(), 2);
    assert!(broken.checked_rras().is_none());
}

#[test]
fn datasources_are_sorted_and_distinct() {
    let i = info(&[("ds[b].index", Value::Long(0)), ("ds[a].index", Value::Long(1)), ("ds[b].type", text("GAUGE"))]);
    assert_eq!(i.datasources(), vec!["a".to_string(), "b".to_string()]);
}

#[test]
fn archives_of_a_consolidation_function() {
    let rras = sample().rras();
    let (archives, last) = archive_plan(&rras, AggregationMethod::Average, 300).unwrap();
    assert_eq!(
        archives,
        vec![
            Retention { seconds_per_point: 300, points: 1200 },
            Retention { seconds_per_point: 3600, points: 2400 },
        ]
    );
    assert_eq!(last, 3);
    assert_eq!(
        archive_plan(&rras, AggregationMethod::Last, 300),
        Err("[ERROR] Unable to find any RRAs with consolidation function: last".to_string())
    );
}

#[test]
fn destinations_and_windows() {
    assert_eq!(destination_name("read_rrd", "temp", false), "read_rrd.wsp");
    assert_eq!(destination_name("read_rrd", "temp", true), "read_rrd_temp.wsp");
    let a = Retention { seconds_per_point: 300, points: 12 };
    assert_eq!(a.retention(), 3600);
    assert_eq!(fetch_window(10_000, &a), (9_900 - 3_600, 9_900));
    assert_eq!(column_index(&["a".to_string(), "temp".to_string()], "temp"), Some(1));
    assert_eq!(column_index(&["a".to_string()], "temp"), None);
    assert_eq!(row_times(100, 300, 3), vec![100, 400, 700]);
    assert_eq!(migration_message(12, 0), " migrating 12 datapoints from archive 0");
}

#[test]
fn fetched_rows() {
    assert_eq!(fetch_row_count(0, 1200, 300), 4);
    assert_eq!(rows_of(&[1, 2, 3, 4, 5, 6], 3, 2), vec![vec![1, 2], vec![3, 4], vec![5, 6]]);
    assert_eq!(rows_of(&[1, 2, 3], 0, 2), Vec::<Vec<i32>>::new());
}

#[test]
fn errors_keep_their_message() {
    assert_eq!(Error("opening 'x': No such file".to_string()).message(), "opening 'x': No such file");
}
