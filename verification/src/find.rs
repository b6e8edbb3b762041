//! Find requests: which directory to list and which glob pattern its entries
//! must match, and the metric tree leaves made of a directory's listing.
use vstd::prelude::*;
use crate::error::ParseError;
use crate::text::{
    chars_of, lemma_text_le_total, lemma_text_le_transitive, push_str, split, split_str,
    string_of_range, text_le, text_le_exec,
};
use crate::trusted::{glob_check, glob_error, glob_match, glob_matches};

verus! {

/// How found metrics are written out.
#[derive(Debug, Clone, Copy, PartialEq, Eq)]
pub enum FindFormat {
    TreeJson,
    Completer,
}

impl Default for FindFormat {
    /// The tree form, for a request that names no format.
    fn default() -> (r: FindFormat)
        ensures
            r == FindFormat::TreeJson,
    {
        FindFormat::TreeJson
    }
}

/// A find request: a dotted metric path whose last part is a glob pattern.
#[derive(Debug, Clone, PartialEq, Eq)]
pub struct FindQuery {
    pub query: String,
    pub format: FindFormat,
    /// `1` asks for a `*` after the pattern.
    pub wildcards: u8,
    pub from: u32,
    pub until: u32,
}

impl FindQuery {
    /// The request for `query` with every other parameter left out: the tree
    /// form, no wildcard, and the widest time range.
    pub fn new(query: String) -> (r: FindQuery)
        ensures
            r.query@ == query@,
            r.format == FindFormat::TreeJson,
            r.wildcards == 0,
            r.from == 0,
            r.until == u32::MAX,
    {
        FindQuery { query, format: FindFormat::TreeJson, wildcards: 0, from: 0, until: u32::MAX }
    }
}

/// Where to look for a find request: the directories below the root, one
/// per part of the query before the last, and the glob pattern the entries
/// there must match.
#[derive(Debug, Clone, PartialEq, Eq)]
pub struct FindPath {
    pub path: Vec<String>,
    pub pattern: String,
}

/// The directories of a query: its dotted parts but the last.
pub open spec fn find_dirs(query: Seq<char>) -> Seq<Seq<char>> {
    split(query, '.').drop_last()
}

/// The pattern of a query: its last dotted part, with `*` added when the
/// request asks for a wildcard.
pub open spec fn find_pattern(query: Seq<char>, wildcards: u8) -> Seq<char> {
    let last = split(query, '.').last();
    if wildcards == 1 {
        last + "*"@
    } else {
        last
    }
}

impl FindPath {
    /// The directories and pattern of a query. A pattern that `glob` refuses
    /// gives a `Pattern` error with its position and message.
    pub fn from(query: &FindQuery) -> (r: Result<FindPath, ParseError>)
        ensures
            match glob_error(find_pattern(query.query@, query.wildcards)) {
                None => r matches Ok(p) && p.path.deep_view() == find_dirs(query.query@)
                    && p.pattern@ == find_pattern(query.query@, query.wildcards),
                Some((pos, msg)) => r matches Err(ParseError::Pattern(p, m)) && p == pos && m@ == msg,
            },
    {
        let mut segments = split_str(query.query.as_str(), '.');
        proof {
            crate::text::lemma_split_len(query.query@, '.');
        }
        let ghost all = segments.deep_view();
        let last = match segments.pop() {
            Some(l) => l,
            None => {
                return Err(ParseError::Unknown);
            },
        };
        proof {
            assert(segments.deep_view() =~= all.drop_last());
            assert(last@ == all.last());
        }
        let mut pattern = last;
        if query.wildcards == 1 {
            push_str(&mut pattern, "*");
        }
        match glob_check(pattern.as_str()) {
            Ok(()) => Ok(FindPath { path: segments, pattern }),
            Err((pos, msg)) => Err(ParseError::Pattern(pos, msg)),
        }
    }
}

/// A found metric: its last name, its dotted path, and whether it is a
/// series (a leaf) rather than a directory.
#[derive(Debug, Clone, PartialEq, Eq)]
pub struct MetricResponseLeaf {
    pub name: String,
    pub path: String,
    pub is_leaf: bool,
}

/// The dotted path of `name` inside the metric directory `dir`.
pub open spec fn leaf_path(name: Seq<char>, dir: Seq<char>) -> Seq<char> {
    if dir.len() > 0 {
        dir + "."@ + name
    } else {
        name
    }
}

/// A leaf as values: name, path, and whether it is a series.
pub open spec fn leaf_value(l: MetricResponseLeaf) -> (Seq<char>, Seq<char>, bool) {
    (l.name@, l.path@, l.is_leaf)
}

/// The values of a list of leaves.
pub open spec fn leaf_values(s: Seq<MetricResponseLeaf>) -> Seq<(Seq<char>, Seq<char>, bool)> {
    s.map_values(|l: MetricResponseLeaf| leaf_value(l))
}

impl MetricResponseLeaf {
    /// The leaf `name` in the metric directory `dir` (empty for the root).
    pub fn new(name: &str, dir: &str, is_leaf: bool) -> (r: MetricResponseLeaf)
        ensures
            leaf_value(r) == (name@, leaf_path(name@, dir@), is_leaf),
    {
        let mut path = String::new();
        if !dir.is_empty() {
            push_str(&mut path, dir);
            push_str(&mut path, ".");
            push_str(&mut path, name);
        } else {
            push_str(&mut path, name);
        }
        let mut n = String::new();
        push_str(&mut n, name);
        MetricResponseLeaf { name: n, path, is_leaf }
    }
}

/// A leaf as the tree view of a find response writes it.
#[derive(Debug, Clone, PartialEq, Eq)]
pub struct JsonTreeLeaf {
    pub text: String,
    pub id: String,
    pub allow_children: u8,
    pub expandable: u8,
    pub leaf: u8,
}

/// The tree entry of a leaf: a series cannot be opened, a directory can.
pub open spec fn tree_leaf_of(m: MetricResponseLeaf) -> JsonTreeLeaf {
    if m.is_leaf {
        JsonTreeLeaf { text: m.path, id: m.name, allow_children: 0, expandable: 0, leaf: 1 }
    } else {
        JsonTreeLeaf { text: m.path, id: m.name, allow_children: 1, expandable: 1, leaf: 0 }
    }
}

impl From<MetricResponseLeaf> for JsonTreeLeaf {
    fn from(m: MetricResponseLeaf) -> (r: JsonTreeLeaf) {
        if m.is_leaf {
            JsonTreeLeaf { text: m.path, id: m.name, allow_children: 0, expandable: 0, leaf: 1 }
        } else {
            JsonTreeLeaf { text: m.path, id: m.name, allow_children: 1, expandable: 1, leaf: 0 }
        }
    }
}

impl vstd::std_specs::convert::FromSpecImpl<MetricResponseLeaf> for JsonTreeLeaf {
    open spec fn obeys_from_spec() -> bool {
        true
    }

    open spec fn from_spec(m: MetricResponseLeaf) -> JsonTreeLeaf {
        tree_leaf_of(m)
    }
}

/// An entry of a listed directory: its file name and whether it is a
/// directory.
#[derive(Debug, Clone, PartialEq, Eq)]
pub struct ListedEntry {
    pub name: String,
    pub is_dir: bool,
}

/// The position of the last `.` in `s`, or `-1`.
pub open spec fn last_dot(s: Seq<char>) -> int
    decreases s.len(),
{
    if s.len() == 0 {
        -1
    } else if s.last() == '.' {
        s.len() - 1
    } else {
        last_dot(s.drop_last())
    }
}

proof fn lemma_last_dot(s: Seq<char>)
    ensures
        -1 <= last_dot(s) < s.len(),
        last_dot(s) >= 0 ==> s[last_dot(s)] == '.',
        forall|j: int| last_dot(s) < j < s.len() ==> s[j] != '.',
    decreases s.len(),
{
    if s.len() > 0 && s.last() != '.' {
        lemma_last_dot(s.drop_last());
        assert forall|j: int| last_dot(s) < j < s.len() implies s[j] != '.' by {
            if j < s.len() - 1 {
                assert(s.drop_last()[j] == s[j]);
            }
        }
    }
}

/// The stem of a series file name: the name without its `.wsp` extension,
/// where the extension is what follows the last `.` that does not begin
/// the name (as `Path::extension` and `Path::file_stem` see it).
pub open spec fn wsp_stem(name: Seq<char>) -> Option<Seq<char>> {
    let k = last_dot(name);
    if k > 0 && name.skip(k + 1) == "wsp"@ {
        Some(name.take(k))
    } else {
        None
    }
}

/// The stem of `name` when it is a series file name.
pub fn wsp_stem_of(name: &str) -> (r: Option<String>)
    ensures
        match r {
            Some(t) => wsp_stem(name@) == Some(t@),
            None => wsp_stem(name@) is None,
        },
{
    let v = chars_of(name);
    let n = v.len();
    let mut k = n;
    while k > 0 && v[k - 1] != '.'
        invariant
            k <= n,
            n == v@.len(),
            v@ == name@,
            forall|j: int| k <= j < n ==> v@[j] != '.',
        decreases k,
    {
        k = k - 1;
    }
    proof {
        lemma_last_dot(v@);
        if k > 0 {
            assert(v@[k - 1] == '.');
            assert(last_dot(v@) == k - 1) by {
                lemma_last_dot_is(v@, k - 1);
            }
        } else {
            assert(last_dot(v@) == -1) by {
                lemma_last_dot_none(v@);
            }
        }
    }
    if k < 2 {
        return None;
    }
    let dot = k - 1;
    proof {
        reveal_strlit("wsp");
    }
    if n - k == 3 && v[k] == 'w' && v[k + 1] == 's' && v[k + 2] == 'p' {
        proof {
            assert(v@.skip(k as int) =~= "wsp"@);
        }
        Some(string_of_range(v.as_slice(), 0, dot))
    } else {
        proof {
            if v@.skip(k as int) == "wsp"@ {
                assert(v@.skip(k as int).len() == 3);
                assert(v@.skip(k as int)[0] == v@[k as int]);
                assert(v@.skip(k as int)[1] == v@[k + 1]);
                assert(v@.skip(k as int)[2] == v@[k + 2]);
            }
        }
        None
    }
}

proof fn lemma_last_dot_is(s: Seq<char>, k: int)
    requires
        0 <= k < s.len(),
        s[k] == '.',
        forall|j: int| k < j < s.len() ==> s[j] != '.',
    ensures
        last_dot(s) == k,
    decreases s.len(),
{
    if s.len() - 1 != k {
        lemma_last_dot_is(s.drop_last(), k);
    }
}

proof fn lemma_last_dot_none(s: Seq<char>)
    requires
        forall|j: int| 0 <= j < s.len() ==> s[j] != '.',
    ensures
        last_dot(s) == -1,
    decreases s.len(),
{
    if s.len() > 0 {
        lemma_last_dot_none(s.drop_last());
    }
}

/// The leaf that an entry gives in the metric directory `dir`: nothing
/// unless its name matches the pattern; a directory by its name; a series
/// file by its stem; nothing for any other file.
pub open spec fn entry_leaf(e: ListedEntry, pattern: Seq<char>, dir: Seq<char>) -> Option<(Seq<char>, Seq<char>, bool)> {
    if !glob_match(pattern, e.name@) {
        None
    } else if e.is_dir {
        Some((e.name@, leaf_path(e.name@, dir), false))
    } else {
        match wsp_stem(e.name@) {
            Some(stem) => Some((stem, leaf_path(stem, dir), true)),
            None => None,
        }
    }
}

/// The leaves that the entries give, in the order of the listing.
pub open spec fn listing_values(entries: Seq<ListedEntry>, pattern: Seq<char>, dir: Seq<char>) -> Seq<(Seq<char>, Seq<char>, bool)>
    decreases entries.len(),
{
    if entries.len() == 0 {
        Seq::empty()
    } else {
        let prev = listing_values(entries.drop_last(), pattern, dir);
        match entry_leaf(entries.last(), pattern, dir) {
            Some(v) => prev.push(v),
            None => prev,
        }
    }
}

/// The leaves are in the order of their names.
pub open spec fn sorted_by_name(leaves: Seq<MetricResponseLeaf>) -> bool {
    forall|i: int, j: int| 0 <= i < j < leaves.len() ==> text_le(#[trigger] leaves[i].name@, #[trigger] leaves[j].name@)
}

/// Inserts `leaf` after every leaf whose name does not come after its own.
fn insert_by_name(v: &mut Vec<MetricResponseLeaf>, leaf: MetricResponseLeaf)
    requires
        sorted_by_name(old(v)@),
    ensures
        sorted_by_name(final(v)@),
        exists|pos: int| 0 <= pos <= old(v)@.len() && final(v)@ == old(v)@.insert(pos, leaf),
{
    let mut pos: usize = 0;
    while pos < v.len() && text_le_exec(v[pos].name.as_str(), leaf.name.as_str())
        invariant
            pos <= v.len(),
            forall|k: int| 0 <= k < pos ==> text_le(#[trigger] v@[k].name@, leaf.name@),
        decreases v.len() - pos,
    {
        pos = pos + 1;
    }
    let ghost before = v@;
    proof {
        assert forall|k: int| pos <= k < before.len() implies text_le(leaf.name@, #[trigger] before[k].name@) by {
            lemma_text_le_total(before[pos as int].name@, leaf.name@);
            if text_le(before[k].name@, leaf.name@) {
                if k > pos {
                    lemma_text_le_transitive(before[pos as int].name@, before[k].name@, leaf.name@);
                }
            }
            lemma_text_le_total(before[k].name@, leaf.name@);
        }
    }
    v.insert(pos, leaf);
    proof {
        let after = v@;
        assert(after =~= before.insert(pos as int, leaf));
        assert forall|i: int, j: int| 0 <= i < j < after.len() implies text_le(#[trigger] after[i].name@, #[trigger] after[j].name@) by {
            if j < pos {
            } else if j == pos {
            } else if i < pos {
                lemma_text_le_transitive(after[i].name@, leaf.name@, after[j].name@);
            } else if i == pos {
            } else {
                assert(after[i] == before[i - 1]);
                assert(after[j] == before[j - 1]);
            }
        }
    }
}

/// The leaves of a directory listing in the metric directory `dir_metric`,
/// ordered by name: each entry whose name matches `pattern` gives a
/// directory leaf, or a series leaf when it is a `.wsp` file.
pub fn listing_leaves(entries: &[ListedEntry], pattern: &str, dir_metric: &str) -> (r: Vec<MetricResponseLeaf>)
    requires
        glob_error(pattern@) is None,
    ensures
        sorted_by_name(r@),
        leaf_values(r@).to_multiset()
            == listing_values(entries@, pattern@, dir_metric@).to_multiset(),
{
    broadcast use vstd::seq_lib::group_to_multiset_ensures;
    let mut out: Vec<MetricResponseLeaf> = Vec::new();
    let mut i: usize = 0;
    proof {
        assert(entries@.take(0) =~= Seq::<ListedEntry>::empty());
        assert(leaf_values(out@) =~= Seq::empty());
    }
    while i < entries.len()
        invariant
            i <= entries.len(),
            glob_error(pattern@) is None,
            sorted_by_name(out@),
            leaf_values(out@).to_multiset()
                == listing_values(entries@.take(i as int), pattern@, dir_metric@).to_multiset(),
        decreases entries.len() - i,
    {
        let e = &entries[i];
        proof {
            assert(entries@.take(i + 1).drop_last() =~= entries@.take(i as int));
            assert(entries@.take(i + 1).last() == entries@[i as int]);
        }
        let ghost before = out@;
        let found: Option<MetricResponseLeaf> = if !glob_matches(pattern, e.name.as_str()) {
            None
        } else if e.is_dir {
            Some(MetricResponseLeaf::new(e.name.as_str(), dir_metric, false))
        } else {
            match wsp_stem_of(e.name.as_str()) {
                Some(stem) => Some(MetricResponseLeaf::new(stem.as_str(), dir_metric, true)),
                None => None,
            }
        };
        match found {
            Some(leaf) => {
                let ghost lv = leaf_value(leaf);
                assert(entry_leaf(*e, pattern@, dir_metric@) == Some(lv));
                insert_by_name(&mut out, leaf);
                proof {
                    let pos = choose|pos: int| 0 <= pos <= before.len() && out@ == before.insert(pos, leaf);
                    assert(leaf_values(out@)
                        =~= leaf_values(before).insert(pos, lv));
                    vstd::seq_lib::to_multiset_insert(leaf_values(before), pos, lv);
                    assert(listing_values(entries@.take(i + 1), pattern@, dir_metric@)
                        == listing_values(entries@.take(i as int), pattern@, dir_metric@).push(lv));
                    vstd::seq_lib::to_multiset_build(listing_values(entries@.take(i as int), pattern@, dir_metric@), lv);
                }
            },
            None => {
                assert(entry_leaf(*e, pattern@, dir_metric@) is None);
                assert(listing_values(entries@.take(i + 1), pattern@, dir_metric@)
                    == listing_values(entries@.take(i as int), pattern@, dir_metric@));
            },
        }
        i = i + 1;
    }
    proof {
        assert(entries@.take(i as int) =~= entries@);
    }
    out
}

/// The leaves of a directory listing for the glob pattern `pattern`, as
/// `listing_leaves` finds them; a pattern that `glob` refuses gives a
/// `Pattern` error with its position and message.
pub fn pattern_leaves(entries: &[ListedEntry], pattern: &str, dir_metric: &str) -> (r: Result<Vec<MetricResponseLeaf>, ParseError>)
    ensures
        match glob_error(pattern@) {
            None => r matches Ok(v) && sorted_by_name(v@)
                && leaf_values(v@).to_multiset() == listing_values(entries@, pattern@, dir_metric@).to_multiset(),
            Some((pos, msg)) => r matches Err(ParseError::Pattern(p, m)) && p == pos && m@ == msg,
        },
{
    match glob_check(pattern) {
        Ok(()) => Ok(listing_leaves(entries, pattern, dir_metric)),
        Err((pos, msg)) => Err(ParseError::Pattern(pos, msg)),
    }
}

/// The parts of a directory's path written one after another.
pub open spec fn joined_parts(parts: Seq<Seq<char>>) -> Seq<char>
    decreases parts.len(),
{
    if parts.len() == 0 {
        Seq::empty()
    } else {
        joined_parts(parts.drop_last()) + parts.last()
    }
}

/// The metric directory that the leaves of a listed directory are named in:
/// the parts of the directory's path below the root written one after
/// another, with nothing between them.
pub fn dir_metric(components: &[String]) -> (r: String)
    ensures
        r@ == joined_parts(components.deep_view()),
{
    let mut out = String::new();
    let mut i: usize = 0;
    proof {
        assert(components.deep_view().take(0) =~= Seq::<Seq<char>>::empty());
    }
    while i < components.len()
        invariant
            i <= components.len(),
            out@ == joined_parts(components.deep_view().take(i as int)),
        decreases components.len() - i,
    {
        push_str(&mut out, components[i].as_str());
        proof {
            assert(components.deep_view().take(i + 1).drop_last() =~= components.deep_view().take(i as int));
            assert(components.deep_view()[i as int] == components@[i as int]@);
        }
        i = i + 1;
    }
    proof {
        assert(components.deep_view().take(i as int) =~= components.deep_view());
    }
    out
}

} // verus!
