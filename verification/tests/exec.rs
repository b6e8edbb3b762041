use diamond::exec::{
    adjust_series, aggregation_series, alias, alias_by_metric, alias_by_node, apply_function,
    base_metric, node_metric, pair_series, plan_expression, resolve_numbers, DFunction, Plan, Point,
    Series, Step,
};
use diamond::render_target::ast::{Expression, LiteralValue};

fn close(a: &[Point<f64>], b: &[Point<f64>]) -> bool {
    a.len() == b.len()
        && a.iter().zip(b.iter()).all(|(x, y)| x.0 == y.0 && (x.1 - y.1).abs() < (x.1 / 1000000_f64).abs().max(1e-12))
}

fn fetched(expr: Expression, store: &[Series<f64>]) -> (Plan, Vec<Series<f64>>) {
    match plan_expression(expr) {
        Step::Apply(plan, exprs) => {
            let mut series = Vec::new();
            for e in exprs {
                match plan_expression(e) {
                    Step::Fetch(_) => series.extend(store.iter().cloned()),
                    other => panic!("unexpected step {:?}", other),
                }
            }
            (plan, series)
        }
        other => panic!("unexpected step {:?}", other),
    }
}

#[test]
fn expression_path_test() {
    let a: Expression = "path.to.metric".parse().unwrap();
    match plan_expression(a) {
        Step::Fetch(p) => assert_eq!(p.to_string(), "path.to.metric"),
        other => panic!("unexpected step {:?}", other),
    }
}

#[test]
fn test_execution() {
    let store = vec![
        Series { name: "1".to_owned(), points: vec![Point(1, 0.1), Point(2, 0.2)] },
        Series { name: "2".to_owned(), points: vec![Point(1, 0.2), Point(2, 0.4)] },
        Series { name: "3".to_owned(), points: vec![Point(1, 0.3), Point(2, 0.6)] },
    ];
    let a: Expression = "sumSeries(path.to.metric)".parse().unwrap();
    let (plan, series) = fetched(a, &store);
    assert_eq!(plan, Plan::Sum);
    let sum = aggregation_series(series, "".to_owned(), 0.0, |x: f64, y: f64| x + y).unwrap();
    assert_eq!(sum.name, "");
    assert!(close(&sum.points, &[Point(1, 0.6), Point(2, 1.2)]));
}

#[test]
fn test_execution2() {
    let store = vec![
        Series { name: "".to_owned(), points: vec![Point(1, 1_f64), Point(2, 1_f64)] },
        Series { name: "".to_owned(), points: vec![Point(1, 2_f64), Point(2, 0.5)] },
        Series { name: "".to_owned(), points: vec![Point(1, 3_f64), Point(2, 4_f64)] },
    ];
    let a: Expression = "multiplySeries(path.to.metric)".parse().unwrap();
    let (plan, series) = fetched(a, &store);
    assert_eq!(plan, Plan::Multiply);
    let product = aggregation_series(series, "".to_owned(), 1.0, |x: f64, y: f64| x * y).unwrap();
    assert!(close(&product.points, &[Point(1, 6_f64), Point(2, 2_f64)]));
}

#[test]
fn aggregation_of_no_series_is_none() {
    let none: Option<Series<i64>> = aggregation_series(Vec::new(), "x".to_owned(), 0, |a: i64, b: i64| a + b);
    assert!(none.is_none());
}

#[test]
fn aggregation_stops_at_the_shortest_series() {
    let series = vec![
        Series { name: "a".to_owned(), points: vec![Point(1, 1i64), Point(2, 2), Point(3, 3)] },
        Series { name: "b".to_owned(), points: vec![Point(1, 10i64), Point(2, 20)] },
    ];
    let sum = aggregation_series(series, "s".to_owned(), 0, |a: i64, b: i64| a + b).unwrap();
    assert_eq!(sum.points.iter().map(|p| (p.0, p.1)).collect::<Vec<_>>(), vec![(1, 11), (2, 22)]);
}

#[test]
fn adjust_and_pair() {
    let series = vec![Series { name: "a".to_owned(), points: vec![Point(1, -1i64), Point(2, 2)] }];
    let abs = adjust_series(series, |p: Point<i64>| Point(p.0, p.1.abs()));
    assert_eq!(abs[0].points.iter().map(|p| p.1).collect::<Vec<_>>(), vec![1, 2]);
    let left = Series { name: "l".to_owned(), points: vec![Point(1, 10i64), Point(2, 20)] };
    let right = Series { name: "r".to_owned(), points: vec![Point(1, 3i64)] };
    let diff = pair_series(&left, &right, "d".to_owned(), |a: Point<i64>, b: Point<i64>| Point(a.0, a.1 - b.1));
    assert_eq!(diff.name, "d");
    assert_eq!(diff.points.iter().map(|p| (p.0, p.1)).collect::<Vec<_>>(), vec![(1, 7)]);
}

#[test]
fn names_of_series() {
    assert_eq!(base_metric("a.b.c".to_owned()), "c");
    assert_eq!(base_metric("abc".to_owned()), "abc");
    assert_eq!(node_metric("a.b.c".to_owned(), vec![0, 2]), ".a.c");
    assert_eq!(node_metric("a.b.c".to_owned(), vec![-1]), ".c");
    assert_eq!(node_metric("a.b.c".to_owned(), vec![5]), ".");
    let s = vec![Series { name: "x.y.z".to_owned(), points: vec![Point(1, 0i64)] }];
    assert_eq!(alias(s.clone(), "n".to_owned())[0].name, "n");
    assert_eq!(alias_by_metric(s.clone())[0].name, "z");
    assert_eq!(alias_by_node(s, vec![1])[0].name, ".y");
}

#[test]
fn function_names() {
    assert_eq!(DFunction::from_text("sumSeries"), Some(DFunction::SumSeries));
    assert_eq!(DFunction::from_text("aliasByNode"), Some(DFunction::AliasByNode));
    assert_eq!(DFunction::from_text("SumSeries"), None);
    assert_eq!(DFunction::MultiplySeries.name(), "multiplySeries");
}

#[test]
fn plans_of_calls() {
    let lits = vec![LiteralValue::Str("name".to_owned())];
    assert_eq!(apply_function(DFunction::Alias, 1, &lits, 0), Plan::Alias("name".to_owned()));
    assert_eq!(apply_function(DFunction::Alias, 1, &[], 0), Plan::Nothing);
    assert_eq!(apply_function(DFunction::DivideSeries, 1, &[], 0), Plan::Nothing);
    assert_eq!(apply_function(DFunction::DivideSeries, 2, &[], 0), Plan::Divide);
    assert_eq!(apply_function(DFunction::SumSeries, 1, &[], 1), Plan::Unsupported);
    assert_eq!(apply_function(DFunction::SumSeries, 1, &lits, 0), Plan::Unsupported);
    assert_eq!(
        resolve_numbers(&[LiteralValue::Integer(3), LiteralValue::Boolean(true), LiteralValue::Integer(-1)]),
        vec![3, -1]
    );
    let unknown: Expression = "movingAverage(a.b)".parse().unwrap();
    match plan_expression(unknown) {
        Step::UnknownFunction(n) => assert_eq!(n, "movingAverage"),
        other => panic!("unexpected step {:?}", other),
    }
}

#[test]
fn base_metric_is_the_last_part() {
    assert_eq!(base_metric("a.".to_owned()), "");
    assert_eq!(base_metric("a.b.c".to_owned()), "c");
    assert!(!base_metric("x.y.zz".to_owned()).contains('.'));
}
