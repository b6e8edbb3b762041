//! Round-robin databases as librrd describes them: its errors, the
//! consolidation functions, the values of an `info` listing, and what such a
//! listing says of a file's archives and data sources.
use vstd::prelude::*;
use crate::number::{i32_of, is_float_text, parse_i32, parse_u64, u64_of, word_ci, word_ci_at};
use crate::text::{
    chars_of, decimal, decimal_string, lemma_text_le_antisymmetric, lemma_text_le_total,
    lemma_text_le_transitive, push_str, str_eq, text_le, text_le_exec,
};
use crate::trusted::{regex_capture, regex_compiles, regex_first_group};

verus! {

/// An error that librrd reported, with its message.
#[derive(Debug)]
pub struct Error(pub String);

impl Error {
    /// The message of the error.
    pub fn message(&self) -> (r: String)
        ensures
            r@ == self.0@,
    {
        let mut m = String::new();
        push_str(&mut m, self.0.as_str());
        m
    }
}

/// librrd's opaque database handle.
#[allow(non_camel_case_types)]
#[derive(Debug, Copy, Clone)]
pub struct rrd_t {
    _unused: [u8; 0],
}

/// How an archive consolidates the primary data points of a row.
#[derive(Clone, Copy, Debug, PartialEq, Eq, Structural)]
pub enum AggregationMethod {
    Average,
    Last,
    Max,
    Min,
    /// The average, with unknown values counted as zero.
    AvgZero,
}

/// The lower-case name of a consolidation function.
pub open spec fn aggregation_name(m: AggregationMethod) -> Seq<char> {
    match m {
        AggregationMethod::Average => "average"@,
        AggregationMethod::Min => "min"@,
        AggregationMethod::Max => "max"@,
        AggregationMethod::Last => "last"@,
        AggregationMethod::AvgZero => "avg_zero"@,
    }
}

/// The consolidation function named `s` in any letter case, if any.
pub open spec fn aggregation_named(s: Seq<char>) -> Option<AggregationMethod> {
    if word_ci(s, "average"@) {
        Some(AggregationMethod::Average)
    } else if word_ci(s, "min"@) {
        Some(AggregationMethod::Min)
    } else if word_ci(s, "max"@) {
        Some(AggregationMethod::Max)
    } else if word_ci(s, "last"@) {
        Some(AggregationMethod::Last)
    } else if word_ci(s, "avg_zero"@) {
        Some(AggregationMethod::AvgZero)
    } else {
        None
    }
}

/// The message for a name that is no consolidation function.
pub open spec fn unsupported_aggregation(s: Seq<char>) -> Seq<char> {
    "Unsupported aggregation method '"@ + s + "'."@
}

fn word_ci_str(s: &str, w: &str) -> (r: bool)
    ensures
        r == word_ci(s@, w@),
{
    let v = chars_of(s);
    let wv = chars_of(w);
    proof {
        assert(v@.skip(0) =~= v@);
    }
    word_ci_at(v.as_slice(), 0, wv.as_slice())
}

impl AggregationMethod {
    /// The consolidation function named `s` in any letter case; any other
    /// text is refused with a message that quotes it.
    pub fn from_text(s: &str) -> (r: Result<AggregationMethod, String>)
        ensures
            match aggregation_named(s@) {
                Some(m) => r == Ok::<AggregationMethod, String>(m),
                None => r matches Err(e) && e@ == unsupported_aggregation(s@),
            },
    {
        if word_ci_str(s, "average") {
            Ok(AggregationMethod::Average)
        } else if word_ci_str(s, "min") {
            Ok(AggregationMethod::Min)
        } else if word_ci_str(s, "max") {
            Ok(AggregationMethod::Max)
        } else if word_ci_str(s, "last") {
            Ok(AggregationMethod::Last)
        } else if word_ci_str(s, "avg_zero") {
            Ok(AggregationMethod::AvgZero)
        } else {
            let mut m = String::new();
            push_str(&mut m, "Unsupported aggregation method '");
            push_str(&mut m, s);
            push_str(&mut m, "'.");
            Err(m)
        }
    }

    /// The lower-case name of the function.
    pub fn as_str(&self) -> (r: &'static str)
        ensures
            r@ == aggregation_name(*self),
    {
        match self {
            AggregationMethod::Average => "average",
            AggregationMethod::Min => "min",
            AggregationMethod::Max => "max",
            AggregationMethod::Last => "last",
            AggregationMethod::AvgZero => "avg_zero",
        }
    }
}

impl std::str::FromStr for AggregationMethod {
    type Err = String;

    fn from_str(s: &str) -> (r: Result<AggregationMethod, String>)
        ensures
            match aggregation_named(s@) {
                Some(m) => r == Ok::<AggregationMethod, String>(m),
                None => r matches Err(e) && e@ == unsupported_aggregation(s@),
            },
    {
        AggregationMethod::from_text(s)
    }
}

/// Reading the name of a consolidation function gives it back.
pub proof fn lemma_aggregation_name_round_trip(m: AggregationMethod)
    ensures
        aggregation_named(aggregation_name(m)) == Some(m),
{
    reveal_strlit("average");
    reveal_strlit("min");
    reveal_strlit("max");
    reveal_strlit("last");
    reveal_strlit("avg_zero");
    let n = aggregation_name(m);
    assert(word_ci(n, n)) by {
        assert forall|i: int| 0 <= i < n.len() implies #[trigger] crate::render_target::grammar::ascii_lower(n[i]) == n[i] by {
        }
    }
    assert("average"@[0] == 'a' && "min"@[1] == 'i' && "max"@[1] == 'a' && "last"@.len() == 4);
    assert("min"@[0] == 'm' && "max"@[0] == 'm' && "min"@.len() == 3 && "max"@.len() == 3);
    assert("average"@.len() == 7 && "last"@[0] == 'l' && "avg_zero"@.len() == 8);
    if m != AggregationMethod::Average {
        assert(!word_ci(n, "average"@)) by {
            if n.len() == 7 {
                assert(crate::render_target::grammar::ascii_lower(n[0]) == n[0]);
            }
        }
    }
    if m == AggregationMethod::Max || m == AggregationMethod::Last || m == AggregationMethod::AvgZero {
        assert(!word_ci(n, "min"@)) by {
            if n.len() == 3 {
                assert(crate::render_target::grammar::ascii_lower(n[1]) == n[1]);
                assert(crate::render_target::grammar::ascii_lower(n[0]) == n[0]);
            }
        }
    }
    if m == AggregationMethod::Last || m == AggregationMethod::AvgZero {
        assert(!word_ci(n, "max"@)) by {
            assert(n.len() == 4 || n.len() == 8);
        }
    }
    if m == AggregationMethod::AvgZero {
        assert(!word_ci(n, "last"@)) by {
            assert(n.len() == 8);
        }
    }
}

/// Names that differ only in the case of ASCII letters name the same
/// consolidation function (or none).
pub proof fn lemma_aggregation_case_insensitive(s: Seq<char>, t: Seq<char>)
    requires
        s.len() == t.len(),
        forall|i: int| 0 <= i < s.len() ==> crate::render_target::grammar::ascii_lower(#[trigger] s[i]) == crate::render_target::grammar::ascii_lower(t[i]),
    ensures
        aggregation_named(s) == aggregation_named(t),
{
    assert forall|w: Seq<char>| word_ci(s, w) <==> word_ci(t, w) by {
        if word_ci(s, w) {
            assert forall|i: int| 0 <= i < t.len() implies #[trigger] crate::render_target::grammar::ascii_lower(t[i]) == w[i] by {
                assert(crate::render_target::grammar::ascii_lower(s[i]) == w[i]);
            }
        }
        if word_ci(t, w) {
            assert forall|i: int| 0 <= i < s.len() implies #[trigger] crate::render_target::grammar::ascii_lower(s[i]) == w[i] by {
                assert(crate::render_target::grammar::ascii_lower(t[i]) == w[i]);
            }
        }
    }
}

/// The time range of fetched rows: first and last time, and seconds per row.
pub struct Range {
    pub start: i64,
    pub end: i64,
    pub step: u64,
}

/// A value of an `info` listing. A float is kept as its IEEE-754 bits
/// (`f64::to_bits`).
#[derive(Debug, Clone)]
pub enum Value {
    Float(u64),
    Long(u64),
    Int(i32),
    Text(String),
    Blob(Vec<u8>),
}

/// The unsigned integer a value reads as: a count as it is, an integer when
/// it is not negative, a text that `u64::from_str` accepts.
pub open spec fn value_long(v: Value) -> Option<int> {
    match v {
        Value::Long(x) => Some(x as int),
        Value::Int(x) => if x >= 0 { Some(x as int) } else { None },
        Value::Text(t) => match u64_of(t@) {
            Ok(n) => Some(n),
            Err(_) => None,
        },
        _ => None,
    }
}

/// The `i32` a value reads as: a count within range, an integer as it is, a
/// text that `i32::from_str` accepts.
pub open spec fn value_int(v: Value) -> Option<int> {
    match v {
        Value::Long(x) => if x <= i32::MAX { Some(x as int) } else { None },
        Value::Int(x) => Some(x as int),
        Value::Text(t) => match i32_of(t@) {
            Ok(n) => Some(n),
            Err(_) => None,
        },
        _ => None,
    }
}

/// The value reads as a float: any number, or a text that
/// `f64::from_str` accepts.
pub open spec fn value_has_float(v: Value) -> bool {
    match v {
        Value::Float(_) | Value::Long(_) | Value::Int(_) => true,
        Value::Text(t) => t@.len() > 0 && is_float_text(t@),
        Value::Blob(_) => false,
    }
}

/// Two values are of the same kind and hold the same contents.
pub open spec fn same_value(a: Value, b: Value) -> bool {
    match (a, b) {
        (Value::Float(x), Value::Float(y)) => x == y,
        (Value::Long(x), Value::Long(y)) => x == y,
        (Value::Int(x), Value::Int(y)) => x == y,
        (Value::Text(x), Value::Text(y)) => x@ == y@,
        (Value::Blob(x), Value::Blob(y)) => x@ == y@,
        _ => false,
    }
}

impl Value {
    /// The value as an unsigned integer, where it reads as one.
    pub fn as_long(&self) -> (r: Option<u64>)
        ensures
            match r {
                Some(x) => value_long(*self) == Some(x as int),
                None => value_long(*self) is None,
            },
    {
        match self {
            Value::Long(x) => Some(*x),
            Value::Int(x) => if *x >= 0 { Some(*x as u64) } else { None },
            Value::Text(t) => match parse_u64(t.as_str()) {
                Ok(n) => Some(n),
                Err(_) => None,
            },
            _ => None,
        }
    }

    /// The value as an `i32`, where it reads as one.
    pub fn as_int(&self) -> (r: Option<i32>)
        ensures
            match r {
                Some(x) => value_int(*self) == Some(x as int),
                None => value_int(*self) is None,
            },
    {
        match self {
            Value::Long(x) => if *x <= 0x7fff_ffff { Some(*x as i32) } else { None },
            Value::Int(x) => Some(*x),
            Value::Text(t) => match parse_i32(t.as_str()) {
                Ok(n) => Some(n),
                Err(_) => None,
            },
            _ => None,
        }
    }

    /// The text of a text value.
    pub fn text(&self) -> (r: Option<&str>)
        ensures
            match *self {
                Value::Text(t) => r matches Some(x) && x@ == t@,
                _ => r is None,
            },
    {
        match self {
            Value::Text(x) => Some(x.as_str()),
            _ => None,
        }
    }

    /// The bytes of a blob value.
    pub fn blob(&self) -> (r: Option<&[u8]>)
        ensures
            match *self {
                Value::Blob(b) => r matches Some(x) && x@ == b@,
                _ => r is None,
            },
    {
        match self {
            Value::Blob(x) => Some(x.as_slice()),
            _ => None,
        }
    }

    /// Whether the value reads as a float.
    pub fn has_float(&self) -> (r: bool)
        ensures
            r == value_has_float(*self),
    {
        match self {
            Value::Text(t) => crate::number::float_check(t.as_str()).is_ok(),
            Value::Blob(_) => false,
            _ => true,
        }
    }

    /// A value of the same kind with the same contents.
    pub fn copied(&self) -> (r: Value)
        ensures
            same_value(r, *self),
    {
        match self {
            Value::Float(x) => Value::Float(*x),
            Value::Long(x) => Value::Long(*x),
            Value::Int(x) => Value::Int(*x),
            Value::Text(t) => Value::Text(t.clone()),
            Value::Blob(b) => {
                let mut c: Vec<u8> = Vec::new();
                let mut i: usize = 0;
                while i < b.len()
                    invariant
                        i <= b.len(),
                        c@ == b@.take(i as int),
                    decreases b.len() - i,
                {
                    c.push(b[i]);
                    i = i + 1;
                    assert(c@ =~= b@.take(i as int));
                }
                assert(b@.take(i as int) =~= b@);
                Value::Blob(c)
            },
        }
    }
}

/// What `usize::from_str` gives for `s`, where it succeeds.
pub open spec fn usize_of(s: Seq<char>) -> Option<int> {
    match u64_of(s) {
        Ok(n) => if n <= usize::MAX { Some(n) } else { None },
        Err(_) => None,
    }
}

/// The keys of archive entries: `rra[N]` and the rest of the key.
pub open spec fn rra_key_pattern() -> Seq<char> {
    "^rra\\[(\\d+)\\]"@
}

/// The keys of data source entries: `ds[NAME]` and the rest of the key.
pub open spec fn ds_key_pattern() -> Seq<char> {
    "^ds\\[([^\\]]+)\\]"@
}

/// The archive number that a key names, if it names one.
pub open spec fn key_rra_index(key: Seq<char>) -> Option<int> {
    if regex_compiles(rra_key_pattern()) {
        match regex_first_group(rra_key_pattern(), key) {
            Some(g) => usize_of(g),
            None => None,
        }
    } else {
        None
    }
}

/// The data source that a key names, if it names one.
pub open spec fn key_datasource(key: Seq<char>) -> Option<Seq<char>> {
    if regex_compiles(ds_key_pattern()) {
        regex_first_group(ds_key_pattern(), key)
    } else {
        None
    }
}

/// The largest archive number that the keys name.
pub open spec fn max_rra_index(entries: Seq<(String, Value)>) -> Option<int>
    decreases entries.len(),
{
    if entries.len() == 0 {
        None
    } else {
        let prev = max_rra_index(entries.drop_last());
        match key_rra_index(entries.last().0@) {
            Some(k) => match prev {
                Some(p) => if p >= k { Some(p) } else { Some(k) },
                None => Some(k),
            },
            None => prev,
        }
    }
}

/// The number of archives: one more than the largest archive number named.
pub open spec fn rra_count_of(entries: Seq<(String, Value)>) -> int {
    match max_rra_index(entries) {
        Some(c) => c + 1,
        None => 0,
    }
}

/// The data sources that the keys name.
pub open spec fn datasource_set(entries: Seq<(String, Value)>) -> Set<Seq<char>>
    decreases entries.len(),
{
    if entries.len() == 0 {
        Set::empty()
    } else {
        let prev = datasource_set(entries.drop_last());
        match key_datasource(entries.last().0@) {
            Some(d) => prev.insert(d),
            None => prev,
        }
    }
}

/// The value of the last entry with key `key` (a later entry replaces an
/// earlier one, as in a map built from the listing).
pub open spec fn info_value(entries: Seq<(String, Value)>, key: Seq<char>) -> Option<Value>
    decreases entries.len(),
{
    if entries.len() == 0 {
        None
    } else if entries.last().0@ == key {
        Some(entries.last().1)
    } else {
        info_value(entries.drop_last(), key)
    }
}

/// The key of a field of archive `i`: `rra[i].field`.
pub open spec fn rra_field_key(i: int, field: Seq<char>) -> Seq<char> {
    "rra["@ + decimal(i as nat) + "]."@ + field
}

/// An archive of a round-robin database.
pub struct RRA {
    pub cf: AggregationMethod,
    pub rows: u64,
    pub cur_row: u64,
    pub pdp_per_row: u64,
    /// The xFilesFactor entry, which reads as a float.
    pub xff: Value,
}

/// The entries describe archive `i` completely: its consolidation function
/// by name, its row counts as unsigned integers, its xFilesFactor as a float.
pub open spec fn rra_described(entries: Seq<(String, Value)>, i: int) -> bool {
    &&& info_value(entries, rra_field_key(i, "cf"@)) matches Some(Value::Text(t))
        && aggregation_named(t@) is Some
    &&& info_value(entries, rra_field_key(i, "rows"@)) matches Some(v) && value_long(v) is Some
    &&& info_value(entries, rra_field_key(i, "cur_row"@)) matches Some(v) && value_long(v) is Some
    &&& info_value(entries, rra_field_key(i, "pdp_per_row"@)) matches Some(v) && value_long(v) is Some
    &&& info_value(entries, rra_field_key(i, "xff"@)) matches Some(v) && value_has_float(v)
}

/// Archive `i` as the entries describe it.
pub open spec fn rra_matches(entries: Seq<(String, Value)>, i: int, r: RRA) -> bool {
    &&& info_value(entries, rra_field_key(i, "cf"@)) matches Some(Value::Text(t))
        && aggregation_named(t@) == Some(r.cf)
    &&& value_long(info_value(entries, rra_field_key(i, "rows"@))->Some_0) == Some(r.rows as int)
    &&& value_long(info_value(entries, rra_field_key(i, "cur_row"@))->Some_0) == Some(r.cur_row as int)
    &&& value_long(info_value(entries, rra_field_key(i, "pdp_per_row"@))->Some_0) == Some(r.pdp_per_row as int)
    &&& same_value(r.xff, info_value(entries, rra_field_key(i, "xff"@))->Some_0)
}

/// Adds `d` to texts kept in increasing order, each once.
fn insert_distinct(v: &mut Vec<String>, d: String)
    requires
        forall|a: int, b: int| 0 <= a < b < old(v)@.len() ==> text_le(#[trigger] old(v)@[a]@, #[trigger] old(v)@[b]@) && old(v)@[a]@ != old(v)@[b]@,
    ensures
        final(v).deep_view().to_set() == old(v).deep_view().to_set().insert(d@),
        forall|a: int, b: int| 0 <= a < b < final(v)@.len() ==> text_le(#[trigger] final(v)@[a]@, #[trigger] final(v)@[b]@) && final(v)@[a]@ != final(v)@[b]@,
{
    let ghost before = v@;
    let ghost bd = v.deep_view();
    let mut pos: usize = 0;
    while pos < v.len() && text_le_exec(v[pos].as_str(), d.as_str()) && !str_eq(v[pos].as_str(), d.as_str())
        invariant
            pos <= v.len(),
            v@ == before,
            forall|k: int| 0 <= k < pos ==> text_le(#[trigger] before[k]@, d@) && before[k]@ != d@,
        decreases v.len() - pos,
    {
        pos = pos + 1;
    }
    if pos < v.len() && str_eq(v[pos].as_str(), d.as_str()) {
        proof {
            assert(bd[pos as int] == d@);
            assert(bd.to_set().insert(d@) =~= bd.to_set());
        }
        return;
    }
    proof {
        assert forall|k: int| pos <= k < before.len() implies text_le(d@, #[trigger] before[k]@) && before[k]@ != d@ by {
            lemma_text_le_total(before[pos as int]@, d@);
            if k > pos {
                lemma_text_le_transitive(d@, before[pos as int]@, before[k]@);
                if before[k]@ == d@ {
                    lemma_text_le_antisymmetric(before[pos as int]@, d@);
                }
            }
        }
    }
    let ghost dv = d@;
    v.insert(pos, d);
    proof {
        let after = v@;
        assert(after =~= before.insert(pos as int, after[pos as int]));
        assert forall|a: int, b: int| 0 <= a < b < after.len() implies text_le(#[trigger] after[a]@, #[trigger] after[b]@) && after[a]@ != after[b]@ by {
            if b < pos {
            } else if b == pos {
            } else if a < pos {
                lemma_text_le_transitive(after[a]@, dv, after[b]@);
                if after[a]@ == after[b]@ {
                    lemma_text_le_antisymmetric(after[a]@, dv);
                }
            } else if a == pos {
            } else {
                assert(after[a] == before[a - 1]);
                assert(after[b] == before[b - 1]);
            }
        }
        assert(v.deep_view() =~= bd.insert(pos as int, dv));
        assert forall|x: Seq<char>| v.deep_view().to_set().contains(x) <==> bd.to_set().insert(dv).contains(x) by {
            if bd.to_set().contains(x) && x != dv {
                let k = choose|k: int| 0 <= k < bd.len() && bd[k] == x;
                if k < pos {
                    assert(v.deep_view()[k] == x);
                } else {
                    assert(v.deep_view()[k + 1] == x);
                }
            }
            if v.deep_view().to_set().contains(x) {
                let k = choose|k: int| 0 <= k < v.deep_view().len() && v.deep_view()[k] == x;
                if k < pos {
                    assert(bd[k] == x);
                } else if k > pos {
                    assert(bd[k - 1] == x);
                }
            }
            if x == dv {
                assert(v.deep_view()[pos as int] == x);
            }
        }
        assert(v.deep_view().to_set() =~= bd.to_set().insert(dv));
    }
}

/// The listing of `rrd info` for a file: keys and values in librrd's order.
pub struct Info {
    pub entries: Vec<(String, Value)>,
}

/// The position of the last entry with key `key`.
fn last_entry(entries: &[(String, Value)], key: &str) -> (r: Option<usize>)
    ensures
        match r {
            Some(k) => k < entries.len() && info_value(entries@, key@) == Some(entries@[k as int].1),
            None => info_value(entries@, key@) is None,
        },
{
    let mut i = entries.len();
    assert(entries@.take(i as int) =~= entries@);
    while i > 0
        invariant
            i <= entries.len(),
            info_value(entries@, key@) == info_value(entries@.take(i as int), key@),
        decreases i,
    {
        proof {
            assert(entries@.take(i as int).drop_last() =~= entries@.take(i - 1));
            assert(entries@.take(i as int).last() == entries@[i - 1]);
        }
        if str_eq(entries[i - 1].0.as_str(), key) {
            return Some(i - 1);
        }
        i = i - 1;
    }
    None
}

/// The key of a field of archive `i`.
fn rra_key(i: usize, field: &str) -> (r: String)
    ensures
        r@ == rra_field_key(i as int, field@),
{
    let mut k = String::new();
    push_str(&mut k, "rra[");
    let n = decimal_string(i as u64);
    push_str(&mut k, n.as_str());
    push_str(&mut k, "].");
    push_str(&mut k, field);
    k
}

impl Info {
    /// The entries of the listing, in order.
    pub fn iter(&self) -> (r: &[(String, Value)])
        ensures
            r@ == self.entries@,
    {
        self.entries.as_slice()
    }

    /// The value of the last entry with key `key`.
    pub fn value(&self, key: &str) -> (r: Option<&Value>)
        ensures
            match r {
                Some(v) => info_value(self.entries@, key@) == Some(*v),
                None => info_value(self.entries@, key@) is None,
            },
    {
        match last_entry(self.entries.as_slice(), key) {
            Some(k) => Some(&self.entries[k].1),
            None => None,
        }
    }

    /// The largest archive number that the keys name, if any.
    pub fn max_rra_index(&self) -> (r: Option<usize>)
        ensures
            match r {
                Some(k) => max_rra_index(self.entries@) == Some(k as int),
                None => max_rra_index(self.entries@) is None,
            },
    {
        let mut best: Option<usize> = None;
        let mut i: usize = 0;
        proof {
            assert(self.entries@.take(0) =~= Seq::<(String, Value)>::empty());
        }
        while i < self.entries.len()
            invariant
                i <= self.entries.len(),
                match best {
                    Some(k) => max_rra_index(self.entries@.take(i as int)) == Some(k as int),
                    None => max_rra_index(self.entries@.take(i as int)) is None,
                },
            decreases self.entries.len() - i,
        {
            proof {
                assert(self.entries@.take(i + 1).drop_last() =~= self.entries@.take(i as int));
                assert(self.entries@.take(i + 1).last() == self.entries@[i as int]);
            }
            let found = regex_capture("^rra\\[(\\d+)\\]", self.entries[i].0.as_str());
            let index: Option<usize> = match found {
                Some(g) => match parse_u64(g.as_str()) {
                    Ok(n) => if n <= usize::MAX as u64 { Some(n as usize) } else { None },
                    Err(_) => None,
                },
                None => None,
            };
            match index {
                Some(k) => {
                    best = match best {
                        Some(p) => if p >= k { Some(p) } else { Some(k) },
                        None => Some(k),
                    };
                },
                None => {},
            }
            i = i + 1;
        }
        proof {
            assert(self.entries@.take(i as int) =~= self.entries@);
        }
        best
    }

    /// The number of archives: one more than the largest archive number the
    /// keys name, or zero.
    pub fn rra_count(&self) -> (r: usize)
        requires
            max_rra_index(self.entries@) != Some(usize::MAX as int),
        ensures
            r as int == rra_count_of(self.entries@),
    {
        match self.max_rra_index() {
            Some(c) => c + 1,
            None => 0,
        }
    }

    /// The number of archives, or `None` when a key names the archive
    /// `usize::MAX`, whose successor cannot be counted.
    pub fn checked_rra_count(&self) -> (r: Option<usize>)
        ensures
            match r {
                Some(n) => n as int == rra_count_of(self.entries@),
                None => max_rra_index(self.entries@) == Some(usize::MAX as int),
            },
    {
        match self.max_rra_index() {
            Some(c) => if c == usize::MAX { None } else { Some(c + 1) },
            None => Some(0),
        }
    }

    /// The archives, by number, as the listing describes them.
    pub fn rras(&self) -> (r: Vec<RRA>)
        requires
            max_rra_index(self.entries@) != Some(usize::MAX as int),
            forall|i: int| 0 <= i < rra_count_of(self.entries@) ==> rra_described(self.entries@, i),
        ensures
            r.len() == rra_count_of(self.entries@),
            forall|i: int| 0 <= i < r.len() ==> rra_matches(self.entries@, i, #[trigger] r@[i]),
    {
        let count = self.rra_count();
        let mut out: Vec<RRA> = Vec::new();
        let mut i: usize = 0;
        while i < count
            invariant
                i <= count,
                count as int == rra_count_of(self.entries@),
                out.len() == i,
                forall|j: int| 0 <= j < count ==> rra_described(self.entries@, j),
                forall|j: int| 0 <= j < i ==> rra_matches(self.entries@, j, #[trigger] out@[j]),
            decreases count - i,
        {
            assert(rra_described(self.entries@, i as int));
            let cf_key = rra_key(i, "cf");
            let rows_key = rra_key(i, "rows");
            let cur_key = rra_key(i, "cur_row");
            let pdp_key = rra_key(i, "pdp_per_row");
            let xff_key = rra_key(i, "xff");
            let cf = match self.value(cf_key.as_str()) {
                Some(Value::Text(t)) => match AggregationMethod::from_text(t.as_str()) {
                    Ok(m) => m,
                    Err(_) => {
                        assert(false);
                        return out;
                    },
                },
                _ => {
                    assert(false);
                    return out;
                },
            };
            let rows = match self.value(rows_key.as_str()) {
                Some(v) => match v.as_long() {
                    Some(x) => x,
                    None => {
                        assert(false);
                        return out;
                    },
                },
                None => {
                    assert(false);
                    return out;
                },
            };
            let cur_row = match self.value(cur_key.as_str()) {
                Some(v) => match v.as_long() {
                    Some(x) => x,
                    None => {
                        assert(false);
                        return out;
                    },
                },
                None => {
                    assert(false);
                    return out;
                },
            };
            let pdp_per_row = match self.value(pdp_key.as_str()) {
                Some(v) => match v.as_long() {
                    Some(x) => x,
                    None => {
                        assert(false);
                        return out;
                    },
                },
                None => {
                    assert(false);
                    return out;
                },
            };
            let xff = match self.value(xff_key.as_str()) {
                Some(v) => v.copied(),
                None => {
                    assert(false);
                    return out;
                },
            };
            let rra = RRA { cf, rows, cur_row, pdp_per_row, xff };
            assert(rra_matches(self.entries@, i as int, rra));
            out.push(rra);
            i = i + 1;
        }
        out
    }

    /// The archives, or `None` where the listing does not describe them all
    /// (or names the archive `usize::MAX`).
    pub fn checked_rras(&self) -> (r: Option<Vec<RRA>>)
        ensures
            match r {
                Some(v) => max_rra_index(self.entries@) != Some(usize::MAX as int)
                    && v.len() == rra_count_of(self.entries@)
                    && forall|i: int| 0 <= i < v.len() ==> rra_matches(self.entries@, i, #[trigger] v@[i]),
                None => max_rra_index(self.entries@) == Some(usize::MAX as int)
                    || exists|i: int| 0 <= i < rra_count_of(self.entries@) && !rra_described(self.entries@, i),
            },
    {
        let count = match self.checked_rra_count() {
            Some(n) => n,
            None => return None,
        };
        let mut i: usize = 0;
        while i < count
            invariant
                i <= count,
                count as int == rra_count_of(self.entries@),
                forall|j: int| 0 <= j < i ==> rra_described(self.entries@, j),
            decreases count - i,
        {
            let cf_ok = match self.value(rra_key(i, "cf").as_str()) {
                Some(Value::Text(t)) => AggregationMethod::from_text(t.as_str()).is_ok(),
                _ => false,
            };
            let rows_ok = match self.value(rra_key(i, "rows").as_str()) {
                Some(v) => v.as_long().is_some(),
                None => false,
            };
            let cur_ok = match self.value(rra_key(i, "cur_row").as_str()) {
                Some(v) => v.as_long().is_some(),
                None => false,
            };
            let pdp_ok = match self.value(rra_key(i, "pdp_per_row").as_str()) {
                Some(v) => v.as_long().is_some(),
                None => false,
            };
            let xff_ok = match self.value(rra_key(i, "xff").as_str()) {
                Some(v) => v.has_float(),
                None => false,
            };
            if !(cf_ok && rows_ok && cur_ok && pdp_ok && xff_ok) {
                assert(!rra_described(self.entries@, i as int));
                return None;
            }
            assert(rra_described(self.entries@, i as int));
            i = i + 1;
        }
        Some(self.rras())
    }

    /// The data sources that the keys name, in order and each once.
    pub fn datasources(&self) -> (r: Vec<String>)
        ensures
            r.deep_view().to_set() == datasource_set(self.entries@),
            forall|i: int, j: int| 0 <= i < j < r.len() ==> text_le(#[trigger] r@[i]@, #[trigger] r@[j]@) && r@[i]@ != r@[j]@,
    {
        let mut out: Vec<String> = Vec::new();
        let mut i: usize = 0;
        proof {
            assert(self.entries@.take(0) =~= Seq::<(String, Value)>::empty());
            assert(out.deep_view().to_set() =~= Set::<Seq<char>>::empty());
        }
        while i < self.entries.len()
            invariant
                i <= self.entries.len(),
                out.deep_view().to_set() == datasource_set(self.entries@.take(i as int)),
                forall|a: int, b: int| 0 <= a < b < out.len() ==> text_le(#[trigger] out@[a]@, #[trigger] out@[b]@) && out@[a]@ != out@[b]@,
            decreases self.entries.len() - i,
        {
            proof {
                assert(self.entries@.take(i + 1).drop_last() =~= self.entries@.take(i as int));
                assert(self.entries@.take(i + 1).last() == self.entries@[i as int]);
            }
            match regex_capture("^ds\\[([^\\]]+)\\]", self.entries[i].0.as_str()) {
                Some(d) => {
                    insert_distinct(&mut out, d);
                },
                None => {},
            }
            i = i + 1;
        }
        proof {
            assert(self.entries@.take(i as int) =~= self.entries@);
        }
        out
    }
}

/// The number of rows of a fetch that librrd answered with the times
/// `start` and `end` and `step` seconds per row.
pub fn fetch_row_count(start: i64, end: i64, step: u64) -> (r: i64)
    requires
        start <= end,
        0 < step <= i64::MAX,
        end - start <= i64::MAX,
    ensures
        r == (end - start) / (step as int),
{
    (end - start) / (step as i64)
}

/// The rows of a fetch whose values librrd returned row after row, each
/// row holding a value per data source.
pub fn rows_of<V: Copy>(data: &[V], rows: usize, columns: usize) -> (r: Vec<Vec<V>>)
    requires
        rows * columns <= data.len(),
    ensures
        r.len() == rows,
        forall|i: int| 0 <= i < rows ==> (#[trigger] r@[i]).len() == columns,
        forall|i: int, j: int| 0 <= i < rows && 0 <= j < columns ==> #[trigger] r@[i]@[j] == data@[i * columns + j],
{
    let mut out: Vec<Vec<V>> = Vec::new();
    let mut i: usize = 0;
    while i < rows
        invariant
            i <= rows,
            rows * columns <= data.len(),
            out.len() == i,
            forall|a: int| 0 <= a < i ==> (#[trigger] out@[a]).len() == columns,
            forall|a: int, b: int| 0 <= a < i && 0 <= b < columns ==> #[trigger] out@[a]@[b] == data@[a * columns + b],
        decreases rows - i,
    {
        let mut row: Vec<V> = Vec::new();
        let mut j: usize = 0;
        assert((i + 1) * columns <= rows * columns) by (nonlinear_arith)
            requires
                i + 1 <= rows,
        ;
        assert((i + 1) * columns == i * columns + columns) by (nonlinear_arith);
        while j < columns
            invariant
                j <= columns,
                i < rows,
                i * columns + columns <= data.len(),
                row.len() == j,
                forall|b: int| 0 <= b < j ==> #[trigger] row@[b] == data@[i * columns + b],
            decreases columns - j,
        {
            row.push(data[i * columns + j]);
            j = j + 1;
        }
        out.push(row);
        i = i + 1;
    }
    out
}

} // verus!
