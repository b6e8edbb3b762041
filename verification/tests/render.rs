use diamond::error::ParseError;
use diamond::number::IntErrorKind;
use diamond::render::{
    choose_response, entry_into_csv, response_into_csv, RenderFormat, RenderPoint, RenderQuery,
    RenderResponseEntry, ResponseFormat,
};
use diamond::time::{time_parse, time_parse_with};
use std::time::{SystemTime, UNIX_EPOCH};

fn query(target: &[&str], format: RenderFormat, from: u32, until: u32) -> RenderQuery {
    RenderQuery { target: target.iter().map(|t| t.to_string()).collect(), format, from, until }
}

fn now() -> u32 {
    SystemTime::now().duration_since(UNIX_EPOCH).unwrap().as_secs() as u32
}

fn pairs(list: &[(&str, &str)]) -> Vec<(String, String)> {
    list.iter().map(|(k, v)| (k.to_string(), v.to_string())).collect()
}

#[test]
fn render_format_parse() {
    assert_eq!("png".parse(), Ok(RenderFormat::Png));
    assert_eq!("raw".parse(), Ok(RenderFormat::Raw));
    assert_eq!("csv".parse(), Ok(RenderFormat::Csv));
    assert_eq!("json".parse(), Ok(RenderFormat::Json));
    assert_eq!("svg".parse(), Ok(RenderFormat::Svg));
    assert_eq!("pdf".parse(), Ok(RenderFormat::Pdf));
    assert_eq!("dygraph".parse(), Ok(RenderFormat::Dygraph));
    assert_eq!("rickshaw".parse(), Ok(RenderFormat::Rickshaw));
    assert_eq!("".parse::<RenderFormat>(), Err(ParseError::RenderFormat));
}

#[test]
fn format_names_read_back() {
    for f in [
        RenderFormat::Png,
        RenderFormat::Raw,
        RenderFormat::Csv,
        RenderFormat::Json,
        RenderFormat::Svg,
        RenderFormat::Pdf,
        RenderFormat::Dygraph,
        RenderFormat::Rickshaw,
    ] {
        assert_eq!(RenderFormat::from_text(&f.to_string()), Ok(f));
    }
    assert_eq!("JSON".parse::<RenderFormat>(), Err(ParseError::RenderFormat));
    assert_eq!(RenderFormat::default(), RenderFormat::Json);
}

#[test]
fn render_url_deserialize_one() {
    assert_eq!(
        "target=app.numUsers&format=json&from=0&until=10".parse::<RenderQuery>().unwrap(),
        query(&["app.numUsers"], RenderFormat::Json, 0, 10)
    );
}

#[test]
fn render_url_deserialize_multiple() {
    assert_eq!(
        "target=app.numUsers&target=app.numServers&format=json&from=0&until=10"
            .parse::<RenderQuery>()
            .unwrap(),
        query(&["app.numUsers", "app.numServers"], RenderFormat::Json, 0, 10)
    );
}

#[test]
fn render_url_deserialize_none() {
    assert_eq!(
        "format=json&from=0&until=10".parse::<RenderQuery>().unwrap(),
        query(&[], RenderFormat::Json, 0, 10)
    );
}

#[test]
fn url_deserialize_other() {
    assert_eq!(
        "target=m1&format=json&from=0&until=10&other=x".parse::<RenderQuery>().unwrap(),
        query(&["m1"], RenderFormat::Json, 0, 10)
    );
}

#[test]
fn render_url_deserialize_time_yesterday_now() {
    let now = now();
    assert_eq!(
        "target=m1&target=m2&format=json&from=yesterday&until=now".parse::<RenderQuery>().unwrap(),
        query(&["m1", "m2"], RenderFormat::Json, now - 3600 * 24, now)
    );
}

#[test]
fn render_url_deserialize_time_relative() {
    let now = now();
    assert_eq!(
        "target=m1&target=m2&format=json&from=-5d&until=-5min".parse::<RenderQuery>().unwrap(),
        query(&["m1", "m2"], RenderFormat::Json, now - 5 * 3600 * 24, now - 5 * 60)
    );
    assert_eq!(
        "target=m1&target=m2&format=json&from=-5w&until=-5s".parse::<RenderQuery>().unwrap(),
        query(&["m1", "m2"], RenderFormat::Json, now - 5 * 3600 * 24 * 7, now - 5)
    );
    assert_eq!(
        "target=m1&target=m2&format=json&from=-2y&until=-5h".parse::<RenderQuery>().unwrap(),
        query(&["m1", "m2"], RenderFormat::Json, now - 2 * 3600 * 24 * 365, now - 5 * 3600)
    );
    assert_eq!(
        "target=m1&target=m2&format=json&from=-5mon&until=-1min".parse::<RenderQuery>().unwrap(),
        query(&["m1", "m2"], RenderFormat::Json, now - 5 * 3600 * 24 * 30, now - 60)
    );
}

#[test]
fn render_url_deserialize_time_fail() {
    assert!("target=m1&target=m2&format=json&from=-&until=now".parse::<RenderQuery>().is_err());
    assert!("target=m1&target=m2&format=json&from=-d&until=now".parse::<RenderQuery>().is_err());
    assert!("target=m1&target=m2&format=json&from=&until=now".parse::<RenderQuery>().is_err());
    assert!("target=m1&target=m2&format=json&from=tomorrow&until=now".parse::<RenderQuery>().is_err());
}

#[test]
fn query_with_a_fixed_clock() {
    let p = pairs(&[("target", "a"), ("from", "-1h"), ("until", "now"), ("format", "csv")]);
    assert_eq!(RenderQuery::from_pairs(&p, Ok(100_000)), Ok(query(&["a"], RenderFormat::Csv, 96_400, 100_000)));
    assert_eq!(
        RenderQuery::from_pairs(&p, Err((1, 5))),
        Err(ParseError::SystemTimeError(1, 5))
    );
    let bad = pairs(&[("format", "jpeg"), ("from", "x")]);
    assert_eq!(RenderQuery::from_pairs(&bad, Ok(0)), Err(ParseError::RenderFormat));
    let bad_time = pairs(&[("from", "x"), ("format", "jpeg")]);
    assert_eq!(
        RenderQuery::from_pairs(&bad_time, Ok(0)),
        Err(ParseError::ParseIntError(IntErrorKind::InvalidDigit))
    );
    assert_eq!(RenderQuery::from_pairs(&[], Ok(0)), Ok(RenderQuery::default()));
}

#[test]
fn test_de_time_parse_ok() {
    assert_eq!(time_parse("123".to_string()), Ok(123));
}

#[test]
fn test_de_time_parse_error() {
    let e = time_parse("lol".to_string()).unwrap_err();
    assert_eq!(e, ParseError::ParseIntError(IntErrorKind::InvalidDigit));
    assert_eq!(e.message(), "invalid digit found in string");
}

#[test]
fn times_against_a_fixed_clock() {
    let clock = Ok(10_000_000);
    assert_eq!(time_parse_with("now", clock), Ok(10_000_000));
    assert_eq!(time_parse_with("yesterday", clock), Ok(10_000_000 - 86_400));
    assert_eq!(time_parse_with("-2w", clock), Ok(10_000_000 - 2 * 604_800));
    assert_eq!(time_parse_with("-1y", clock), Err(ParseError::Time));
    assert_eq!(time_parse_with("yesterday", Ok(100)), Err(ParseError::Time));
    assert_eq!(time_parse_with("", clock), Err(ParseError::EmptyString));
    assert_eq!(time_parse_with("-", clock), Err(ParseError::Time));
    assert_eq!(time_parse_with("-d", clock), Err(ParseError::ParseIntError(IntErrorKind::Empty)));
    assert_eq!(time_parse_with("4294967296", clock), Err(ParseError::ParseIntError(IntErrorKind::PosOverflow)));
    assert_eq!(time_parse_with("+7", Err((0, 0))), Ok(7));
    assert_eq!(time_parse_with("now", Err((3, 4))), Err(ParseError::SystemTimeError(3, 4)));
}

#[test]
fn render_handler_unsupported() {
    for format in [
        RenderFormat::Png,
        RenderFormat::Raw,
        RenderFormat::Svg,
        RenderFormat::Pdf,
        RenderFormat::Dygraph,
        RenderFormat::Rickshaw,
    ] {
        match choose_response(format) {
            ResponseFormat::Unsupported(m) => {
                assert_eq!(m, format!("Format '{}' not supported", format.to_string()))
            }
            other => panic!("unexpected {:?}", other),
        }
    }
    assert_eq!(choose_response(RenderFormat::Json), ResponseFormat::Json);
    assert_eq!(choose_response(RenderFormat::Csv), ResponseFormat::Csv);
}

fn texts(points: Vec<RenderPoint<f64>>) -> Vec<RenderPoint<String>> {
    points.into_iter().map(|RenderPoint(v, t)| RenderPoint(v.map(|f| format!("{}", f)), t)).collect()
}

#[test]
fn render_handler_csv_ok_empty() {
    let entries: Vec<RenderResponseEntry<String>> = vec![];
    assert_eq!(response_into_csv(&entries), "\n");
}

#[test]
fn render_handler_csv_ok_full() {
    let t = 1_564_432_988;
    let entry = RenderResponseEntry {
        target: "i.am.a.metric".to_owned(),
        datapoints: texts(vec![
            RenderPoint(Some(1.1_f64), t),
            RenderPoint(Some(2.2_f64), t + 60),
            RenderPoint(None, t + 60 * 60),
            RenderPoint(Some(3.3_f64), t + 24 * 60 * 60),
        ]),
    };
    assert_eq!(
        response_into_csv(&[entry]),
        "i.am.a.metric,2019-07-29 20:43:08,1.1\ni.am.a.metric,2019-07-29 20:44:08,2.2\ni.am.a.metric,2019-07-29 21:43:08,\ni.am.a.metric,2019-07-30 20:43:08,3.3\n"
    );
}

#[test]
fn csv_of_several_series() {
    let a = RenderResponseEntry { target: "a".to_owned(), datapoints: vec![RenderPoint(Some("1".to_owned()), 0)] };
    let b = RenderResponseEntry { target: "b".to_owned(), datapoints: vec![] };
    assert_eq!(entry_into_csv(&a), "a,1970-01-01 00:00:00,1");
    assert_eq!(response_into_csv(&[a.clone(), b, a]), "a,1970-01-01 00:00:00,1\n\na,1970-01-01 00:00:00,1\n");
}

#[test]
fn undecodable_query_text() {
    assert_eq!(
        "target=a%2".parse::<RenderQuery>().map(|q| q.target),
        Ok(vec!["a%2".to_string()])
    );
}

#[test]
fn query_parameters_are_percent_decoded() {
    assert_eq!(
        "target=a%2Eb&target=c+d&format=csv".parse::<RenderQuery>().unwrap(),
        query(&["a.b", "c d"], RenderFormat::Csv, 0, 0)
    );
}

#[test]
fn last_parameters_win_and_targets_accumulate() {
    assert_eq!(
        "target=a&format=csv&from=5&target=b&format=json&from=7&until=9".parse::<RenderQuery>().unwrap(),
        query(&["a", "b"], RenderFormat::Json, 7, 9)
    );
    assert_eq!("format=csv&format=bmp".parse::<RenderQuery>(), Err(ParseError::RenderFormat));
}
