use diamond::error::ParseError;
use diamond::find::{
    listing_leaves, wsp_stem_of, FindFormat, FindPath, FindQuery, JsonTreeLeaf, ListedEntry,
    MetricResponseLeaf,
};

fn leaf(name: &str, path: &str, is_leaf: bool) -> MetricResponseLeaf {
    MetricResponseLeaf { name: name.to_owned(), path: path.to_owned(), is_leaf }
}

fn entry(name: &str, is_dir: bool) -> ListedEntry {
    ListedEntry { name: name.to_owned(), is_dir }
}

#[test]
fn find_query_defaults() {
    let q = FindQuery::new("123".to_owned());
    assert_eq!(
        q,
        FindQuery {
            query: "123".to_owned(),
            format: FindFormat::default(),
            wildcards: u8::default(),
            from: u32::default(),
            until: u32::max_value(),
        }
    );
}

#[test]
fn find_findpath_convert() {
    let params = FindQuery {
        query: "123.456.789".to_owned(),
        format: FindFormat::default(),
        wildcards: u8::default(),
        from: 0,
        until: 10,
    };
    assert_eq!(
        FindPath::from(&params).unwrap(),
        FindPath { path: vec!["123".to_owned(), "456".to_owned()], pattern: "789".to_owned() }
    );
}

#[test]
fn query_convertion() {
    let params = FindQuery {
        query: "123".to_owned(),
        format: FindFormat::TreeJson,
        wildcards: 1,
        from: 0,
        until: 10,
    };
    assert_eq!(
        FindPath::from(&params).unwrap(),
        FindPath { path: vec![], pattern: "123*".to_owned() }
    );
}

#[test]
fn bad_patterns_are_refused() {
    let params = FindQuery::new("a.[b".to_owned());
    match FindPath::from(&params) {
        Err(ParseError::Pattern(pos, msg)) => {
            assert_eq!(pos, 0);
            assert_eq!(msg, "invalid range pattern");
        }
        other => panic!("unexpected {:?}", other),
    }
    let e = FindPath::from(&params).unwrap_err();
    assert_eq!(e.message(), "Pattern syntax error near position 0: invalid range pattern");
}

#[test]
fn metric_response_convertion() {
    let mleaf: JsonTreeLeaf = leaf("456", "123.456", true).into();
    assert_eq!(
        mleaf,
        JsonTreeLeaf { text: "123.456".to_owned(), id: "456".to_owned(), allow_children: 0, expandable: 0, leaf: 1 }
    );
    let mleaf2: JsonTreeLeaf = leaf("789", "123.456.789", false).into();
    assert_eq!(
        mleaf2,
        JsonTreeLeaf { text: "123.456.789".to_owned(), id: "789".to_owned(), allow_children: 1, expandable: 1, leaf: 0 }
    );
}

#[test]
fn leaves_know_their_paths() {
    assert_eq!(MetricResponseLeaf::new("bar", "foo", true), leaf("bar", "foo.bar", true));
    assert_eq!(MetricResponseLeaf::new("bar", "", false), leaf("bar", "bar", false));
}

#[test]
fn storage_walk_tree_verify() {
    let root = vec![entry("foo", true), entry("bar", true), entry("foobar.wsp", false)];
    assert_eq!(
        listing_leaves(&root, "*", ""),
        vec![leaf("bar", "bar", false), leaf("foo", "foo", false), leaf("foobar", "foobar", true)]
    );
    let foo = vec![entry("bar.wsp", false)];
    assert_eq!(listing_leaves(&foo, "*", "foo"), vec![leaf("bar", "foo.bar", true)]);
}

#[test]
fn listing_filters_by_pattern_and_kind() {
    let entries = vec![
        entry("b.wsp", false),
        entry("a.wsp", false),
        entry("notes.txt", false),
        entry(".wsp", false),
        entry("cpu", true),
        entry("c.wsp", false),
    ];
    assert_eq!(
        listing_leaves(&entries, "[ab]*", "host"),
        vec![leaf("a", "host.a", true), leaf("b", "host.b", true)]
    );
    assert_eq!(
        listing_leaves(&entries, "*", ""),
        vec![leaf("a", "a", true), leaf("b", "b", true), leaf("c", "c", true), leaf("cpu", "cpu", false)]
    );
}

#[test]
fn series_file_stems() {
    assert_eq!(wsp_stem_of("a.wsp"), Some("a".to_string()));
    assert_eq!(wsp_stem_of("a.b.wsp"), Some("a.b".to_string()));
    assert_eq!(wsp_stem_of(".wsp"), None);
    assert_eq!(wsp_stem_of("a.wspx"), None);
    assert_eq!(wsp_stem_of("wsp"), None);
    assert_eq!(wsp_stem_of("..wsp"), Some(".".to_string()));
}

#[test]
fn directory_parts_are_written_together() {
    assert_eq!(diamond::find::dir_metric(&[]), "");
    assert_eq!(diamond::find::dir_metric(&["foo".to_string()]), "foo");
    assert_eq!(diamond::find::dir_metric(&["a".to_string(), "b".to_string()]), "ab");
}
