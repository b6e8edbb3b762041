//! The metric store on disk: dotted metric names, which entries of a
//! directory a path word selects, and the order of found metrics.
use vstd::prelude::*;
use crate::error::ResponseError;
use crate::find::wsp_stem_of;
use crate::find::wsp_stem;
use crate::render_target::ast::PathWord;
use crate::render_target::display::word_pattern;
use crate::text::{lemma_text_le_antisymmetric, lemma_text_le_total, lemma_text_le_transitive, push_str, split, split_str, str_eq, text_le, text_le_exec};
use crate::trusted::{regex_compiles, regex_matches};

verus! {

/// `std::path::PathBuf`, which the store is rooted at; opaque to proofs.
#[verifier::external_type_specification]
#[verifier::external_body]
pub struct ExPathBuf(std::path::PathBuf);

/// A store of whisper files under a root directory, one directory per
/// dotted part of a metric name.
pub struct WhisperFileSystemStorage(pub std::path::PathBuf);

/// A metric's name as its dotted parts.
#[derive(Debug, Clone, PartialEq, Eq, PartialOrd, Ord, Hash)]
pub struct MetricName(pub Vec<String>);

/// The parts of a name as texts.
pub open spec fn name_parts(n: MetricName) -> Seq<Seq<char>> {
    n.0.deep_view()
}

impl Default for MetricName {
    /// The name with no part.
    fn default() -> (r: MetricName)
        ensures
            name_parts(r) == Seq::<Seq<char>>::empty(),
    {
        let r = MetricName(Vec::new());
        assert(name_parts(r) =~= Seq::<Seq<char>>::empty());
        r
    }
}

impl MetricName {
    /// The name with one more part at the end.
    pub fn join(&self, item: &str) -> (r: MetricName)
        ensures
            name_parts(r) == name_parts(*self).push(item@),
    {
        let mut parts: Vec<String> = Vec::new();
        let mut i: usize = 0;
        while i < self.0.len()
            invariant
                i <= self.0.len(),
                parts.deep_view() == name_parts(*self).take(i as int),
            decreases self.0.len() - i,
        {
            let c = self.0[i].clone();
            let ghost before = parts.deep_view();
            parts.push(c);
            proof {
                assert(c@ == name_parts(*self)[i as int]);
                assert(parts.deep_view() =~= before.push(c@));
                assert(parts.deep_view() =~= name_parts(*self).take(i + 1));
            }
            i = i + 1;
        }
        let mut last = String::new();
        push_str(&mut last, item);
        let ghost before = parts.deep_view();
        parts.push(last);
        proof {
            assert(before =~= name_parts(*self));
            assert(parts.deep_view() =~= name_parts(*self).push(item@));
        }
        MetricName(parts)
    }

    /// The name whose parts are the dotted parts of `s`.
    pub fn from_text(s: &str) -> (r: MetricName)
        ensures
            name_parts(r) == split(s@, '.'),
    {
        MetricName(split_str(s, '.'))
    }
}

impl std::str::FromStr for MetricName {
    type Err = ();

    fn from_str(s: &str) -> (r: Result<MetricName, ()>)
        ensures
            r matches Ok(n) && name_parts(n) == split(s@, '.'),
    {
        Ok(MetricName::from_text(s))
    }
}

/// The name of `s.x`, for a part `x` without dots, is the name of `s` with
/// the part `x` joined at the end.
pub proof fn lemma_join_extends_name(s: Seq<char>, x: Seq<char>)
    requires
        forall|i: int| 0 <= i < x.len() ==> x[i] != '.',
    ensures
        split(s + seq!['.'] + x, '.') == split(s, '.').push(x),
    decreases x.len(),
{
    let t = s + seq!['.'] + x;
    if x.len() == 0 {
        assert(t.drop_last() =~= s);
        assert(t.last() == '.');
        assert(x =~= Seq::<char>::empty());
        assert(split(t, '.') == split(s, '.').push(Seq::empty()));
    } else {
        let y = x.drop_last();
        lemma_join_extends_name(s, y);
        assert(t.drop_last() =~= s + seq!['.'] + y);
        assert(t.last() == x.last());
        assert(x.last() != '.');
        assert(x =~= y.push(x.last()));
        let prev = split(t.drop_last(), '.');
        assert(prev == split(s, '.').push(y));
        assert(split(t, '.') == prev.update(prev.len() - 1, prev.last().push(t.last())));
        crate::text::lemma_split_len(s, '.');
        assert(split(s, '.').push(y).update(split(s, '.').len() as int, y.push(x.last())) =~= split(s, '.').push(x));
    }
}

/// A found metric of the store: its name and whether it is a series file.
#[derive(Debug, Clone, PartialEq, Eq)]
pub struct MetricResponseLeaf {
    pub name: MetricName,
    pub is_leaf: bool,
}

/// The points of a metric that a query found.
#[derive(Debug, Clone)]
pub struct StorageResponse<V> {
    pub name: MetricName,
    pub data: Vec<crate::render::RenderPoint<V>>,
}

/// An entry of a directory of the store: its file name (as text) and what
/// kind of file it is.
#[derive(Debug, Clone, PartialEq, Eq)]
pub struct StorageEntry {
    pub name: String,
    pub is_dir: bool,
    pub is_file: bool,
}

/// The metric part that an entry stands for: a directory by its name, a
/// `.wsp` file by its stem; other entries stand for none.
pub open spec fn storage_name(e: StorageEntry) -> Option<Seq<char>> {
    if e.is_dir {
        Some(e.name@)
    } else if e.is_file {
        wsp_stem(e.name@)
    } else {
        None
    }
}

/// The metric part of an entry, if it stands for one.
pub fn entry_metric_name(e: &StorageEntry) -> (r: Option<String>)
    ensures
        match r {
            Some(t) => storage_name(*e) == Some(t@),
            None => storage_name(*e) is None,
        },
{
    if e.is_dir {
        let mut t = String::new();
        push_str(&mut t, e.name.as_str());
        Some(t)
    } else if e.is_file {
        wsp_stem_of(e.name.as_str())
    } else {
        None
    }
}

/// The path word's regular expression matches the metric part `name`.
pub open spec fn word_selects(w: PathWord, name: Seq<char>) -> bool {
    match word_pattern(w) {
        Ok(p) => regex_matches(p, name),
        Err(_) => false,
    }
}

/// The word can be turned into a regular expression.
pub open spec fn word_usable(w: PathWord) -> bool {
    word_pattern(w) is Ok && regex_compiles(word_pattern(w)->Ok_0)
}

/// The entries a word selects, with their positions and metric parts, in
/// the order of the listing.
pub open spec fn selected_entries(entries: Seq<StorageEntry>, w: PathWord) -> Seq<(int, Seq<char>)>
    decreases entries.len(),
{
    if entries.len() == 0 {
        Seq::empty()
    } else {
        let prev = selected_entries(entries.drop_last(), w);
        match storage_name(entries.last()) {
            Some(n) => if word_selects(w, n) {
                prev.push((entries.len() - 1, n))
            } else {
                prev
            },
            None => prev,
        }
    }
}

/// Positions and parts as values.
pub open spec fn selection_values(s: Seq<(usize, String)>) -> Seq<(int, Seq<char>)> {
    s.map_values(|x: (usize, String)| (x.0 as int, x.1@))
}

/// The entries of a listed directory that the path word selects: those
/// that stand for a metric part the word's regular expression matches. A
/// word that cannot be turned into a regular expression is a `Path` error.
pub fn matching_entries(word: &PathWord, entries: &[StorageEntry]) -> (r: Result<Vec<(usize, String)>, ResponseError>)
    ensures
        match r {
            Ok(v) => word_usable(*word) && selection_values(v@) == selected_entries(entries@, *word),
            Err(e) => !word_usable(*word) && e == ResponseError::Path,
        },
{
    if word.to_regex().is_err() {
        return Err(ResponseError::Path);
    }
    let mut out: Vec<(usize, String)> = Vec::new();
    let mut i: usize = 0;
    proof {
        assert(entries@.take(0) =~= Seq::<StorageEntry>::empty());
        assert(selection_values(out@) =~= Seq::<(int, Seq<char>)>::empty());
    }
    while i < entries.len()
        invariant
            i <= entries.len(),
            word_usable(*word),
            selection_values(out@) == selected_entries(entries@.take(i as int), *word),
        decreases entries.len() - i,
    {
        proof {
            assert(entries@.take(i + 1).drop_last() =~= entries@.take(i as int));
            assert(entries@.take(i + 1).last() == entries@[i as int]);
        }
        let ghost before = out@;
        match entry_metric_name(&entries[i]) {
            Some(n) => {
                if word.matches(n.as_str()) {
                    out.push((i, n));
                    proof {
                        assert(selection_values(out@) =~= selection_values(before).push((i as int, n@)));
                    }
                }
            },
            None => {},
        }
        i = i + 1;
    }
    proof {
        assert(entries@.take(i as int) =~= entries@);
    }
    Ok(out)
}

/// `a` comes no later than `b` in the order of names: part by part, a
/// prefix first (as `Vec<String>`'s `Ord`).
pub open spec fn names_le(a: Seq<Seq<char>>, b: Seq<Seq<char>>) -> bool
    decreases a.len(),
{
    if a.len() == 0 {
        true
    } else if b.len() == 0 {
        false
    } else if a[0] != b[0] {
        text_le(a[0], b[0])
    } else {
        names_le(a.drop_first(), b.drop_first())
    }
}

/// Any two names are ordered one way or the other.
pub proof fn lemma_names_le_total(a: Seq<Seq<char>>, b: Seq<Seq<char>>)
    ensures
        names_le(a, b) || names_le(b, a),
    decreases a.len(),
{
    if a.len() > 0 && b.len() > 0 {
        if a[0] == b[0] {
            lemma_names_le_total(a.drop_first(), b.drop_first());
        } else {
            lemma_text_le_total(a[0], b[0]);
        }
    }
}

/// The order of names is transitive.
pub proof fn lemma_names_le_transitive(a: Seq<Seq<char>>, b: Seq<Seq<char>>, c: Seq<Seq<char>>)
    requires
        names_le(a, b),
        names_le(b, c),
    ensures
        names_le(a, c),
    decreases a.len(),
{
    if a.len() > 0 && b.len() > 0 && c.len() > 0 {
        if a[0] == b[0] && b[0] == c[0] {
            lemma_names_le_transitive(a.drop_first(), b.drop_first(), c.drop_first());
        } else if a[0] != b[0] && b[0] != c[0] {
            lemma_text_le_transitive(a[0], b[0], c[0]);
            if a[0] == c[0] {
                lemma_text_le_antisymmetric(b[0], c[0]);
            }
        }
    }
}

/// Whether the name `a` comes no later than `b`.
pub fn names_le_exec(a: &MetricName, b: &MetricName) -> (r: bool)
    ensures
        r == names_le(name_parts(*a), name_parts(*b)),
{
    let ghost pa = name_parts(*a);
    let ghost pb = name_parts(*b);
    let mut i: usize = 0;
    proof {
        assert(pa.skip(0) =~= pa);
        assert(pb.skip(0) =~= pb);
    }
    while i < a.0.len() && i < b.0.len() && str_eq(a.0[i].as_str(), b.0[i].as_str())
        invariant
            i <= a.0.len(),
            i <= b.0.len(),
            pa == name_parts(*a),
            pb == name_parts(*b),
            names_le(pa, pb) == names_le(pa.skip(i as int), pb.skip(i as int)),
        decreases a.0.len() - i,
    {
        proof {
            assert(pa.skip(i as int).drop_first() =~= pa.skip(i + 1));
            assert(pb.skip(i as int).drop_first() =~= pb.skip(i + 1));
            assert(pa.skip(i as int)[0] == pa[i as int]);
            assert(pb.skip(i as int)[0] == pb[i as int]);
        }
        i = i + 1;
    }
    if i == a.0.len() {
        true
    } else if i == b.0.len() {
        false
    } else {
        proof {
            assert(pa.skip(i as int)[0] == pa[i as int]);
            assert(pb.skip(i as int)[0] == pb[i as int]);
        }
        text_le_exec(a.0[i].as_str(), b.0[i].as_str())
    }
}

/// The found metrics are in the order of their names.
pub open spec fn sorted_by_names<T>(found: Seq<(MetricName, T)>) -> bool {
    forall|i: int, j: int| 0 <= i < j < found.len() ==> names_le(name_parts(#[trigger] found[i].0), name_parts(#[trigger] found[j].0))
}

/// An item is found under the name `n`.
pub open spec fn named<T>(n: Seq<Seq<char>>) -> spec_fn((MetricName, T)) -> bool {
    |x: (MetricName, T)| name_parts(x.0) == n
}

/// The items found under the name `n`, in their order.
pub open spec fn with_name<T>(s: Seq<(MetricName, T)>, n: Seq<Seq<char>>) -> Seq<(MetricName, T)> {
    s.filter(named::<T>(n))
}

/// Every name comes no later than itself.
pub proof fn lemma_names_le_reflexive(a: Seq<Seq<char>>)
    ensures
        names_le(a, a),
    decreases a.len(),
{
    if a.len() > 0 {
        lemma_names_le_reflexive(a.drop_first());
    }
}

proof fn lemma_filter_single<A>(x: A, p: spec_fn(A) -> bool)
    ensures
        seq![x].filter(p) == (if p(x) { seq![x] } else { Seq::<A>::empty() }),
{
    reveal(Seq::filter);
    assert(seq![x].drop_last() =~= Seq::<A>::empty());
    assert(Seq::<A>::empty().filter(p) =~= Seq::<A>::empty());
}

proof fn lemma_filter_none<A>(s: Seq<A>, p: spec_fn(A) -> bool)
    requires
        forall|i: int| 0 <= i < s.len() ==> !p(#[trigger] s[i]),
    ensures
        s.filter(p) == Seq::<A>::empty(),
    decreases s.len(),
{
    reveal(Seq::filter);
    if s.len() > 0 {
        lemma_filter_none(s.drop_last(), p);
    } else {
        assert(s =~= Seq::<A>::empty());
    }
}

/// The found metrics ordered by name; items with equal names keep their
/// order.
pub fn sort_by_name<T>(found: Vec<(MetricName, T)>) -> (r: Vec<(MetricName, T)>)
    ensures
        sorted_by_names(r@),
        r@.to_multiset() == found@.to_multiset(),
        forall|n: Seq<Seq<char>>| #[trigger] with_name(r@, n) == with_name(found@, n),
{
    let ghost all = found@;
    let mut rest = found;
    let mut out: Vec<(MetricName, T)> = Vec::new();
    proof {
        assert(all.skip(all.len() as int) =~= Seq::<(MetricName, T)>::empty());
        assert(rest@ =~= all.take(all.len() as int));
    }
    while rest.len() > 0
        invariant
            rest@.len() <= all.len(),
            rest@ == all.take(rest@.len() as int),
            sorted_by_names(out@),
            out@.to_multiset() == all.skip(rest@.len() as int).to_multiset(),
            forall|n: Seq<Seq<char>>| #[trigger] with_name(out@, n) == with_name(all.skip(rest@.len() as int), n),
        decreases rest.len(),
    {
        let ghost m = rest@.len() as int;
        let item = match rest.pop() {
            Some(v) => v,
            None => {
                return out;
            },
        };
        proof {
            assert(item == all[m - 1]);
            assert(rest@ =~= all.take(m - 1));
        }
        let ghost before = out@;
        let mut pos: usize = 0;
        while pos < out.len() && !names_le_exec(&item.0, &out[pos].0)
            invariant
                pos <= out.len(),
                out@ == before,
                forall|k: int| 0 <= k < pos ==> !names_le(name_parts(item.0), name_parts(#[trigger] before[k].0)),
            decreases out.len() - pos,
        {
            pos = pos + 1;
        }
        proof {
            assert forall|k: int| 0 <= k < pos implies names_le(name_parts(#[trigger] before[k].0), name_parts(item.0)) by {
                lemma_names_le_total(name_parts(before[k].0), name_parts(item.0));
            }
            assert forall|k: int| pos <= k < before.len() implies names_le(name_parts(item.0), name_parts(#[trigger] before[k].0)) by {
                if k > pos {
                    lemma_names_le_transitive(name_parts(item.0), name_parts(before[pos as int].0), name_parts(before[k].0));
                }
            }
        }
        let ghost it = item;
        out.insert(pos, item);
        proof {
            let after = out@;
            assert(after =~= before.insert(pos as int, it));
            assert forall|a: int, b: int| 0 <= a < b < after.len() implies names_le(name_parts(#[trigger] after[a].0), name_parts(#[trigger] after[b].0)) by {
                if b < pos {
                } else if b == pos {
                } else if a < pos {
                    lemma_names_le_transitive(name_parts(after[a].0), name_parts(it.0), name_parts(after[b].0));
                } else if a == pos {
                } else {
                    assert(after[a] == before[a - 1]);
                    assert(after[b] == before[b - 1]);
                }
            }
            vstd::seq_lib::to_multiset_insert(before, pos as int, it);
            assert(all.skip(m - 1) =~= all.skip(m).insert(0, it));
            vstd::seq_lib::to_multiset_insert(all.skip(m), 0, it);
            let ni = name_parts(it.0);
            let head = before.take(pos as int);
            let tail = before.skip(pos as int);
            assert(before =~= head + tail);
            assert(after =~= head + seq![it] + tail);
            assert(all.skip(m - 1) =~= seq![it] + all.skip(m));
            assert forall|n: Seq<Seq<char>>| #[trigger] with_name(after, n) == with_name(all.skip(m - 1), n) by {
                let p = named::<T>(n);
                Seq::filter_distributes_over_add(head, tail, p);
                Seq::filter_distributes_over_add(head + seq![it], tail, p);
                Seq::filter_distributes_over_add(head, seq![it], p);
                Seq::filter_distributes_over_add(seq![it], all.skip(m), p);
                lemma_filter_single(it, p);
                assert(with_name(before, n) == with_name(all.skip(m), n));
                assert(with_name(before, n) == head.filter(p) + tail.filter(p));
                assert(with_name(after, n) == head.filter(p) + seq![it].filter(p) + tail.filter(p));
                assert(with_name(all.skip(m - 1), n) == seq![it].filter(p) + with_name(all.skip(m), n));
                if n == ni {
                    assert(p(it));
                    assert forall|k: int| 0 <= k < head.len() implies !p(#[trigger] head[k]) by {
                        assert(head[k] == before[k]);
                        if name_parts(before[k].0) == ni {
                            lemma_names_le_reflexive(ni);
                        }
                    }
                    lemma_filter_none(head, p);
                    assert(head.filter(p) + seq![it] + tail.filter(p) =~= seq![it] + (head.filter(p) + tail.filter(p)));
                } else {
                    assert(head.filter(p) + Seq::<(MetricName, T)>::empty() =~= head.filter(p));
                    assert(Seq::<(MetricName, T)>::empty() + all.skip(m).filter(p) =~= all.skip(m).filter(p));
                }
            }
        }
    }
    proof {
        assert(all.skip(0) =~= all);
    }
    out
}

} // verus!
