//! The checks that the original ran twice, in two of its packages.
use diamond::find::{FindFormat, FindPath, FindQuery, ListedEntry, MetricResponseLeaf};
use diamond::metric::{MetricPath, MetricPoint, MetricPoints, Point};
use diamond::render::{RenderFormat, RenderQuery};
use diamond::render_target::ast::{Arg, Expression};
use diamond::error::ParseError;
use std::path::PathBuf;
use std::time::{SystemTime, UNIX_EPOCH};

fn query(target: &[&str], from: u32, until: u32) -> RenderQuery {
    RenderQuery { target: target.iter().map(|t| t.to_string()).collect(), format: RenderFormat::Json, from, until }
}

fn now() -> u32 {
    SystemTime::now().duration_since(UNIX_EPOCH).unwrap().as_secs() as u32
}

#[test]
fn test_metric_correct_parse() {
    let metric_result = "this.is.correct 1 123".parse::<MetricPoint>();
    assert!(metric_result.is_ok(), "It should be parsed");
    let metric = metric_result.unwrap();
    assert_eq!(metric.name, "this.is.correct", "It should be matched");
    assert_eq!(metric.point.interval, 1, "It should be matched");
    assert_eq!(metric.point.value.parse::<f64>().unwrap(), 123_f64, "It should be matched");
}

#[test]
fn test_metric_parse_incorrect_name() {
    let s = "this\\.is./incorrect 1 123";
    let metric_result = s.parse::<MetricPoint>();
    assert!(metric_result.is_err(), "It({}) should not be parsed {:?}", s, metric_result);
}

#[test]
fn test_metric_parse_incorrect_time() {
    assert!("this.is.correct a 123".parse::<MetricPoint>().is_err(), "It should not be parsed");
}

#[test]
fn test_metric_parse_incorrect_value() {
    assert!("this.is.correct 1 a123".parse::<MetricPoint>().is_err(), "It should not be parsed");
}

#[test]
fn test_metric_path_parse_correct() {
    let metric_result = "this.is.correct.path".parse::<MetricPath>();
    assert!(metric_result.is_ok(), "It should be parsed");
    assert_eq!(
        PathBuf::from(metric_result.unwrap().0),
        PathBuf::from("./this/is/correct/path.wsp"),
        "It should be matched"
    );
}

#[test]
fn test_metric_path_parse_incorrect() {
    let s = "this/.is.incorrect.path";
    let metric_result = s.parse::<MetricPath>();
    assert!(metric_result.is_err(), "It({}) should not be parsed {:?}", s, metric_result);
}

#[test]
fn test_metrics_points_to_vec_metric_point() {
    let p1 = Point { interval: 100, value: "100.1".to_string() };
    let p2 = Point { interval: 200, value: "100.2".to_string() };
    let p3 = Point { interval: 300, value: "100.3".to_string() };
    let name = String::from("test-metric-name");
    let mp = MetricPoints { name: name.clone(), points: vec![p1.clone(), p2.clone(), p3.clone()] };
    assert_eq!(
        mp.into_points(),
        vec![
            MetricPoint { name: name.clone(), point: p1 },
            MetricPoint { name: name.clone(), point: p2 },
            MetricPoint { name: name.clone(), point: p3 },
        ]
    );
}

#[test]
fn findpath_convert() {
    let params = FindQuery { query: "123.456.789".to_owned(), format: FindFormat::default(), wildcards: 0, from: 0, until: 10 };
    assert_eq!(
        FindPath::from(&params).unwrap(),
        FindPath { path: vec!["123".to_owned(), "456".to_owned()], pattern: "789".to_owned() }
    );
}

#[test]
fn url_deserialize_one() {
    assert_eq!(
        "target=app.numUsers&format=json&from=0&until=10".parse::<RenderQuery>().unwrap(),
        query(&["app.numUsers"], 0, 10)
    );
}

#[test]
fn url_deserialize_multiple() {
    assert_eq!(
        "target=app.numUsers&target=app.numServers&format=json&from=0&until=10".parse::<RenderQuery>().unwrap(),
        query(&["app.numUsers", "app.numServers"], 0, 10)
    );
}

#[test]
fn url_deserialize_none() {
    assert_eq!("format=json&from=0&until=10".parse::<RenderQuery>().unwrap(), query(&[], 0, 10));
}

#[test]
fn url_deserialize_time_yesterday_now() {
    let now = now();
    assert_eq!(
        "target=m1&target=m2&format=json&from=yesterday&until=now".parse::<RenderQuery>().unwrap(),
        query(&["m1", "m2"], now - 3600 * 24, now)
    );
}

#[test]
fn url_deserialize_time_relative() {
    let now = now();
    assert_eq!(
        "target=m1&target=m2&format=json&from=-5d&until=-5min".parse::<RenderQuery>().unwrap(),
        query(&["m1", "m2"], now - 5 * 3600 * 24, now - 5 * 60)
    );
    assert_eq!(
        "target=m1&target=m2&format=json&from=-5w&until=-5s".parse::<RenderQuery>().unwrap(),
        query(&["m1", "m2"], now - 5 * 3600 * 24 * 7, now - 5)
    );
    assert_eq!(
        "target=m1&target=m2&format=json&from=-2y&until=-5h".parse::<RenderQuery>().unwrap(),
        query(&["m1", "m2"], now - 2 * 3600 * 24 * 365, now - 5 * 3600)
    );
    assert_eq!(
        "target=m1&target=m2&format=json&from=-5mon&until=-1min".parse::<RenderQuery>().unwrap(),
        query(&["m1", "m2"], now - 5 * 3600 * 24 * 30, now - 60)
    );
}

#[test]
fn url_deserialize_time_fail() {
    assert!("target=m1&target=m2&format=json&from=-&until=now".parse::<RenderQuery>().is_err());
    assert!("target=m1&target=m2&format=json&from=-d&until=now".parse::<RenderQuery>().is_err());
    assert!("target=m1&target=m2&format=json&from=&until=now".parse::<RenderQuery>().is_err());
    assert!("target=m1&target=m2&format=json&from=tomorrow&until=now".parse::<RenderQuery>().is_err());
}

#[test]
fn format_parse() {
    assert_eq!("png".parse(), Ok(RenderFormat::Png));
    assert_eq!("raw".parse(), Ok(RenderFormat::Raw));
    assert_eq!("csv".parse(), Ok(RenderFormat::Csv));
    assert_eq!("json".parse(), Ok(RenderFormat::Json));
    assert_eq!("svg".parse(), Ok(RenderFormat::Svg));
    assert_eq!("pdf".parse(), Ok(RenderFormat::Pdf));
    assert_eq!("dygraph".parse(), Ok(RenderFormat::Dygraph));
    assert_eq!("rickshaw".parse(), Ok(RenderFormat::Rickshaw));
    assert_eq!("".parse::<RenderFormat>(), Err(ParseError::RenderFormat));
}

/// The calls that pipes put around an expression, outermost first.
fn pipe_calls(e: &Expression) -> Vec<String> {
    match e {
        Expression::Call(c) => match c.args.first() {
            Some(Arg::Expression(inner @ Expression::Call(_))) | Some(Arg::Expression(inner @ Expression::Template(_))) => {
                let mut rest = pipe_calls(inner);
                rest.insert(0, c.function.clone());
                rest
            }
            _ => vec![c.function.clone()],
        },
        _ => vec![],
    }
}

#[test]
fn test_from_str() {
    let ex: Expression = "template(average(emea.events\\[2019\\].clicks,n=7),skip_empty=false,none=none)|aliasByNode(1)|movingAverage(\"5min\")".parse().unwrap();
    assert_eq!(pipe_calls(&ex), vec!["movingAverage".to_string(), "aliasByNode".to_string()]);
}

#[test]
fn walk_tree_verify() {
    let entry = |name: &str, is_dir: bool| ListedEntry { name: name.to_owned(), is_dir };
    let leaf = |name: &str, path: &str, is_leaf: bool| MetricResponseLeaf { name: name.to_owned(), path: path.to_owned(), is_leaf };
    let root = vec![entry("foo", true), entry("bar", true), entry("foobar.wsp", false)];
    assert_eq!(
        diamond::find::pattern_leaves(&root, "*", "").unwrap(),
        vec![leaf("bar", "bar", false), leaf("foo", "foo", false), leaf("foobar", "foobar", true)]
    );
    let foo = vec![entry("bar.wsp", false)];
    assert_eq!(diamond::find::pattern_leaves(&foo, "*", "foo").unwrap(), vec![leaf("bar", "foo.bar", true)]);
}
