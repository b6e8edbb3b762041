use diamond::error::ResponseError;
use diamond::render_target::ast::PathExpression;
use diamond::storage::{entry_metric_name, matching_entries, sort_by_name, MetricName, StorageEntry};

fn name(s: &str) -> MetricName {
    s.parse().unwrap()
}

fn dir(n: &str) -> StorageEntry {
    StorageEntry { name: n.to_owned(), is_dir: true, is_file: false }
}

fn file(n: &str) -> StorageEntry {
    StorageEntry { name: n.to_owned(), is_dir: false, is_file: true }
}

#[test]
fn metric_names_from_text() {
    assert_eq!(name("foo.bar").0, vec!["foo".to_string(), "bar".to_string()]);
    assert_eq!(name("").0, vec![String::new()]);
    assert_eq!(MetricName::default().0, Vec::<String>::new());
}

#[test]
fn joining_a_part_extends_the_name() {
    assert_eq!(name("foo").join("bar"), name("foo.bar"));
    assert_eq!(MetricName::default().join("foo"), name("foo"));
}

#[test]
fn entries_stand_for_metric_parts() {
    assert_eq!(entry_metric_name(&dir("foo")), Some("foo".to_string()));
    assert_eq!(entry_metric_name(&file("foobar.wsp")), Some("foobar".to_string()));
    assert_eq!(entry_metric_name(&file("notes.txt")), None);
    let other = StorageEntry { name: "x.wsp".to_owned(), is_dir: false, is_file: false };
    assert_eq!(entry_metric_name(&other), None);
}

#[test]
fn whisper_fs_walk_tree_verify() {
    let root = vec![dir("foo"), dir("bar"), file("foobar.wsp")];
    let star = "*".parse::<PathExpression>().unwrap();
    let found = matching_entries(&star.0[0], &root).unwrap();
    let named: Vec<(MetricName, usize)> =
        found.into_iter().map(|(i, n)| (MetricName::default().join(&n), i)).collect();
    let sorted = sort_by_name(named);
    assert_eq!(
        sorted.iter().map(|(n, _)| n.clone()).collect::<Vec<_>>(),
        vec![name("bar"), name("foo"), name("foobar")]
    );
    assert_eq!(sorted.iter().map(|(_, i)| *i).collect::<Vec<_>>(), vec![1, 0, 2]);

    let foo = vec![file("bar.wsp")];
    let expr = "foo.*".parse::<PathExpression>().unwrap();
    let first = matching_entries(&expr.0[0], &root).unwrap();
    assert_eq!(first, vec![(0, "foo".to_string())]);
    let second = matching_entries(&expr.0[1], &foo).unwrap();
    assert_eq!(second, vec![(0, "bar".to_string())]);
    assert_eq!(name("foo").join(&second[0].1), name("foo.bar"));
}

#[test]
fn words_that_cannot_be_regexes() {
    let expr = "$var".parse::<PathExpression>().unwrap();
    assert_eq!(matching_entries(&expr.0[0], &[dir("a")]), Err(ResponseError::Path));
}

#[test]
fn names_sort_part_by_part() {
    let sorted = sort_by_name(vec![(name("b"), 0), (name("a.b"), 1), (name("a"), 2), (name("a.a"), 3), (name("a"), 4)]);
    assert_eq!(
        sorted,
        vec![(name("a"), 2), (name("a"), 4), (name("a.a"), 3), (name("a.b"), 1), (name("b"), 0)]
    );
}

#[test]
fn equal_names_keep_their_order() {
    let sorted = sort_by_name(vec![(name("b"), 0), (name("a"), 1), (name("b"), 2), (name("a"), 3)]);
    assert_eq!(sorted, vec![(name("a"), 1), (name("a"), 3), (name("b"), 0), (name("b"), 2)]);
}
