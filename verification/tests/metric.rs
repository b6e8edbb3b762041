use diamond::metric::{MetricError, MetricPath, MetricPoint, MetricPoints, Point};
use std::path::PathBuf;

#[test]
fn metric_path_validate_ok() {
    assert!(MetricPath::validate("this.is.correct").is_ok());
}

#[test]
fn metric_path_validate_err() {
    assert!(MetricPath::validate("$this.is.not.correct").is_err());
    assert!(MetricPath::validate(",this.is.not.correct").is_err());
    assert!(MetricPath::validate("@this.is.not.correct").is_err());
    assert!(MetricPath::validate("\\this.is.not.correct").is_err());
    assert!(MetricPath::validate("/this.is.not.correct").is_err());
    assert!(MetricPath::validate("[this.is.not.correct").is_err());
    assert!(MetricPath::validate("{this.is.not.correct").is_err());
    assert!(MetricPath::validate("%this.is.not.correct").is_err());
    assert!(MetricPath::validate("#this.is.not.correct").is_err());
}

#[test]
fn metric_path_conversion_ok() {
    let m: PathBuf = PathBuf::from("this.is.ok".parse::<MetricPath>().unwrap().0);
    assert_eq!(PathBuf::from("./this/is/ok.wsp"), m);
}

#[test]
fn lib_test_metric_correct_parse() {
    let metric_result = "this.is.correct 1 123".parse::<MetricPoint>();
    assert!(metric_result.is_ok(), "It should be parsed");
    let metric = metric_result.unwrap();
    assert_eq!(metric.name, "this.is.correct", "It should be matched");
    assert_eq!(metric.point.interval, 1, "It should be matched");
    assert_eq!(metric.point.value.parse::<f64>().unwrap(), 123_f64, "It should be matched");
}

#[test]
fn lib_test_metric_parse_incorrect_name() {
    let s = "this\\.is./incorrect 1 123";
    let metric_result = s.parse::<MetricPoint>();
    assert!(metric_result.is_err(), "It({}) should not be parsed {:?}", s, metric_result);
}

#[test]
fn lib_test_metric_parse_incorrect_time() {
    let metric_result = "this.is.correct a 123".parse::<MetricPoint>();
    assert!(metric_result.is_err(), "It should not be parsed");
}

#[test]
fn lib_test_metric_parse_incorrect_value() {
    let metric_result = "this.is.correct 1 a123".parse::<MetricPoint>();
    assert!(metric_result.is_err(), "It should not be parsed");
}

#[test]
fn test_metric_parse_incorrect_parts_count() {
    let metric_result = "this.is.correct 1 123 1".parse::<MetricPoint>();
    assert!(metric_result.is_err(), "It should not be parsed");
}

#[test]
fn lib_test_metric_path_parse_correct() {
    let metric_result = "this.is.correct.path".parse::<MetricPath>();
    assert!(metric_result.is_ok(), "It should be parsed");
    let metric = metric_result.unwrap();
    assert_eq!(
        PathBuf::from(metric.0),
        PathBuf::from("./this/is/correct/path.wsp"),
        "It should be matched"
    );
}

#[test]
fn lib_test_metric_path_parse_incorrect() {
    let s = "this/.is.incorrect.path";
    let metric_result = s.parse::<MetricPath>();
    assert!(metric_result.is_err(), "It({}) should not be parsed {:?}", s, metric_result);
}

#[test]
fn lib_test_metrics_points_to_vec_metric_point() {
    let p1 = Point { interval: 100, value: "100.1".to_string() };
    let p2 = Point { interval: 200, value: "100.2".to_string() };
    let p3 = Point { interval: 300, value: "100.3".to_string() };
    let name = String::from("test-metric-name");
    let mp = MetricPoints { name: name.clone(), points: vec![p1.clone(), p2.clone(), p3.clone()] };
    let points_vec: Vec<MetricPoint> = mp.into_points();
    assert_eq!(
        points_vec,
        vec![
            MetricPoint { name: name.clone(), point: p1 },
            MetricPoint { name: name.clone(), point: p2 },
            MetricPoint { name: name.clone(), point: p3 },
        ]
    );
}

#[test]
fn metric_errors_name_their_cause() {
    assert_eq!(
        "this.is.correct 1 123 1".parse::<MetricPoint>().unwrap_err(),
        MetricError::LineParse("this.is.correct 1 123 1".to_string())
    );
    let e = "this.is.correct a 123".parse::<MetricPoint>().unwrap_err();
    assert_eq!(e.message(), "invalid digit found in string");
    let e = "this.is.correct 1 a123".parse::<MetricPoint>().unwrap_err();
    assert_eq!(e.message(), "invalid float literal");
    let e = "this/.is.incorrect.path".parse::<MetricPath>().unwrap_err();
    assert_eq!(e.message(), "Metric name(this/.is.incorrect.path) cannot be validated");
    let e = "bad$line 1 2".parse::<MetricPoint>().unwrap_err();
    assert_eq!(e.message(), "Metric line(bad$line 1 2) cannot be validated");
}

#[test]
fn metric_path_skips_empty_parts() {
    assert_eq!("a..b".parse::<MetricPath>().unwrap().0, "./a/b.wsp");
    assert_eq!("a.b.".parse::<MetricPath>().unwrap().0, "./a/b.wsp");
}

#[test]
fn line_targets_name_their_file() {
    let (point, path) = diamond::metric::line_target("this.is.correct1 1545778338 124").unwrap();
    assert_eq!(point.name, "this.is.correct1");
    assert_eq!(point.point.interval, 1545778338);
    assert_eq!(point.point.value, "124");
    assert_eq!(path.0, "./this/is/correct1.wsp");
    assert_eq!(
        diamond::metric::line_target("a b c d").unwrap_err(),
        MetricError::LineParse("a b c d".to_string())
    );
    assert_eq!(
        diamond::metric::line_target("a b 1").unwrap_err(),
        MetricError::Timestamp(diamond::number::IntErrorKind::InvalidDigit)
    );
}

#[test]
fn empty_values_are_refused() {
    let e = "a 1 ".parse::<MetricPoint>().unwrap_err();
    assert_eq!(e, MetricError::Value(diamond::number::FloatErrorKind::Empty));
    assert_eq!(e.message(), "cannot parse float from empty string");
}

#[test]
fn metric_paths_stay_in_their_directory() {
    for name in ["a.b.c", "..", "a..b", "x-1.y_2", "..a.."] {
        let p = name.parse::<MetricPath>().unwrap().0;
        let parts: Vec<&str> = p.split('/').collect();
        assert_eq!(parts[0], ".");
        assert!(parts[1..].iter().all(|c| *c != "." && *c != ".."));
    }
    assert_eq!("..".parse::<MetricPath>().unwrap().0, "./");
    assert_eq!("..a..".parse::<MetricPath>().unwrap().0, "./a.wsp");
}
