//! Render requests: the output formats, the query read from a URL-encoded
//! string, and the CSV text of a response.
use vstd::prelude::*;
use crate::error::ParseError;
use crate::text::{join, lemma_join_push, push_str, str_eq};
use crate::time::{clock_reading, time_of, time_parse_with};
use crate::trusted::{pair_views, urlencoded_pairs, urlencoded_parse, utc_datetime, utc_datetime_text};

verus! {

/// The output formats a render request can ask for.
#[derive(Debug, Clone, Copy, PartialEq, Eq)]
pub enum RenderFormat {
    Png,
    Raw,
    Csv,
    Json,
    Svg,
    Pdf,
    Dygraph,
    Rickshaw,
}

/// The lower-case name of a format, as requests write it.
pub open spec fn format_name(f: RenderFormat) -> Seq<char> {
    match f {
        RenderFormat::Png => "png"@,
        RenderFormat::Raw => "raw"@,
        RenderFormat::Csv => "csv"@,
        RenderFormat::Json => "json"@,
        RenderFormat::Svg => "svg"@,
        RenderFormat::Pdf => "pdf"@,
        RenderFormat::Dygraph => "dygraph"@,
        RenderFormat::Rickshaw => "rickshaw"@,
    }
}

/// The format whose name is `s`, if any.
pub open spec fn format_named(s: Seq<char>) -> Option<RenderFormat> {
    if s == "png"@ {
        Some(RenderFormat::Png)
    } else if s == "raw"@ {
        Some(RenderFormat::Raw)
    } else if s == "csv"@ {
        Some(RenderFormat::Csv)
    } else if s == "json"@ {
        Some(RenderFormat::Json)
    } else if s == "svg"@ {
        Some(RenderFormat::Svg)
    } else if s == "pdf"@ {
        Some(RenderFormat::Pdf)
    } else if s == "dygraph"@ {
        Some(RenderFormat::Dygraph)
    } else if s == "rickshaw"@ {
        Some(RenderFormat::Rickshaw)
    } else {
        None
    }
}

impl Default for RenderFormat {
    /// JSON, the format of a request that names none.
    fn default() -> (r: RenderFormat)
        ensures
            r == RenderFormat::Json,
    {
        RenderFormat::Json
    }
}

impl RenderFormat {
    /// The format named `s` (exactly, in lower case); any other text is a
    /// `RenderFormat` error.
    pub fn from_text(s: &str) -> (r: Result<RenderFormat, ParseError>)
        ensures
            r == (match format_named(s@) {
                Some(f) => Ok::<RenderFormat, ParseError>(f),
                None => Err(ParseError::RenderFormat),
            }),
    {
        if str_eq(s, "png") {
            Ok(RenderFormat::Png)
        } else if str_eq(s, "raw") {
            Ok(RenderFormat::Raw)
        } else if str_eq(s, "csv") {
            Ok(RenderFormat::Csv)
        } else if str_eq(s, "json") {
            Ok(RenderFormat::Json)
        } else if str_eq(s, "svg") {
            Ok(RenderFormat::Svg)
        } else if str_eq(s, "pdf") {
            Ok(RenderFormat::Pdf)
        } else if str_eq(s, "dygraph") {
            Ok(RenderFormat::Dygraph)
        } else if str_eq(s, "rickshaw") {
            Ok(RenderFormat::Rickshaw)
        } else {
            Err(ParseError::RenderFormat)
        }
    }

    /// The format's name in lower case.
    pub fn to_string(&self) -> (r: String)
        ensures
            r@ == format_name(*self),
    {
        let mut m = String::new();
        match self {
            RenderFormat::Png => push_str(&mut m, "png"),
            RenderFormat::Raw => push_str(&mut m, "raw"),
            RenderFormat::Csv => push_str(&mut m, "csv"),
            RenderFormat::Json => push_str(&mut m, "json"),
            RenderFormat::Svg => push_str(&mut m, "svg"),
            RenderFormat::Pdf => push_str(&mut m, "pdf"),
            RenderFormat::Dygraph => push_str(&mut m, "dygraph"),
            RenderFormat::Rickshaw => push_str(&mut m, "rickshaw"),
        }
        m
    }
}

/// Reading a format's name gives the format back, and only its name reads
/// as it.
pub proof fn lemma_format_name_round_trip(f: RenderFormat, s: Seq<char>)
    ensures
        format_named(format_name(f)) == Some(f),
        format_named(s) == Some(f) ==> s == format_name(f),
{
    reveal_strlit("png");
    reveal_strlit("raw");
    reveal_strlit("csv");
    reveal_strlit("json");
    reveal_strlit("svg");
    reveal_strlit("pdf");
    reveal_strlit("dygraph");
    reveal_strlit("rickshaw");
    assert("png"@[0] == 'p' && "png"@[1] == 'n');
    assert("raw"@[0] == 'r' && "raw"@.len() == 3);
    assert("csv"@[0] == 'c');
    assert("json"@.len() == 4);
    assert("svg"@[0] == 's');
    assert("pdf"@[0] == 'p' && "pdf"@[1] == 'd');
    assert("dygraph"@.len() == 7);
    assert("rickshaw"@.len() == 8);
}

/// A render request: the metrics to draw, the format, and the time range.
#[derive(Debug, Clone, PartialEq, Eq)]
pub struct RenderQuery {
    pub target: Vec<String>,
    pub format: RenderFormat,
    pub from: u32,
    pub until: u32,
}

/// A query as values: its targets' texts, format, from and until.
pub type QueryValue = (Seq<Seq<char>>, RenderFormat, u32, u32);

/// The values of a query.
pub open spec fn query_value(q: RenderQuery) -> QueryValue {
    (q.target@.map_values(|t: String| t@), q.format, q.from, q.until)
}

/// The query of a request that gives no parameter.
pub open spec fn empty_query() -> QueryValue {
    (Seq::empty(), RenderFormat::Json, 0, 0)
}

impl Default for RenderQuery {
    /// No target, JSON, and both times zero.
    fn default() -> (r: RenderQuery)
        ensures
            query_value(r) == empty_query(),
    {
        let r = RenderQuery { target: Vec::new(), format: RenderFormat::Json, from: 0, until: 0 };
        assert(query_value(r).0 =~= Seq::<Seq<char>>::empty());
        r
    }
}

/// The query after one more parameter: `target` adds a metric, `format`,
/// `from` and `until` replace their value, and any other name is ignored.
pub open spec fn query_step(q: QueryValue, key: Seq<char>, value: Seq<char>, clock: Result<u32, (u64, u32)>) -> Result<QueryValue, ParseError> {
    if key == "target"@ {
        Ok((q.0.push(value), q.1, q.2, q.3))
    } else if key == "format"@ {
        match format_named(value) {
            Some(f) => Ok((q.0, f, q.2, q.3)),
            None => Err(ParseError::RenderFormat),
        }
    } else if key == "from"@ {
        match time_of(value, clock) {
            Ok(t) => Ok((q.0, q.1, t as u32, q.3)),
            Err(e) => Err(e),
        }
    } else if key == "until"@ {
        match time_of(value, clock) {
            Ok(t) => Ok((q.0, q.1, q.2, t as u32)),
            Err(e) => Err(e),
        }
    } else {
        Ok(q)
    }
}

/// The query that `pairs` give, parameter by parameter from the default
/// query, stopping at the first one that cannot be read.
pub open spec fn query_of_pairs(pairs: Seq<(Seq<char>, Seq<char>)>, clock: Result<u32, (u64, u32)>) -> Result<QueryValue, ParseError>
    decreases pairs.len(),
{
    if pairs.len() == 0 {
        Ok(empty_query())
    } else {
        match query_of_pairs(pairs.drop_last(), clock) {
            Ok(q) => query_step(q, pairs.last().0, pairs.last().1, clock),
            Err(e) => Err(e),
        }
    }
}

/// A parameter whose name is none of `target`, `format`, `from` and `until`
/// leaves the query as it was.
pub proof fn lemma_other_parameters_ignored(pairs: Seq<(Seq<char>, Seq<char>)>, key: Seq<char>, value: Seq<char>, clock: Result<u32, (u64, u32)>)
    requires
        key != "target"@,
        key != "format"@,
        key != "from"@,
        key != "until"@,
    ensures
        query_of_pairs(pairs.push((key, value)), clock) == query_of_pairs(pairs, clock),
{
    assert(pairs.push((key, value)).drop_last() =~= pairs);
}

/// A parameter that a query cannot take: a format that names none, or a
/// time that cannot be read.
pub open spec fn bad_parameter(p: (Seq<char>, Seq<char>), clock: Result<u32, (u64, u32)>) -> bool {
    ||| p.0 == "format"@ && format_named(p.1) is None
    ||| (p.0 == "from"@ || p.0 == "until"@) && time_of(p.1, clock) is Err
}

/// The values of the `target` parameters, in order.
pub open spec fn target_values(pairs: Seq<(Seq<char>, Seq<char>)>) -> Seq<Seq<char>>
    decreases pairs.len(),
{
    if pairs.len() == 0 {
        Seq::empty()
    } else if pairs.last().0 == "target"@ {
        target_values(pairs.drop_last()).push(pairs.last().1)
    } else {
        target_values(pairs.drop_last())
    }
}

/// The format the last readable `format` parameter names; JSON without one.
pub open spec fn last_format(pairs: Seq<(Seq<char>, Seq<char>)>) -> RenderFormat
    decreases pairs.len(),
{
    if pairs.len() == 0 {
        RenderFormat::Json
    } else if pairs.last().0 == "format"@ && format_named(pairs.last().1) is Some {
        format_named(pairs.last().1)->Some_0
    } else {
        last_format(pairs.drop_last())
    }
}

/// The time the last readable parameter named `key` gives; zero without one.
pub open spec fn last_time(pairs: Seq<(Seq<char>, Seq<char>)>, key: Seq<char>, clock: Result<u32, (u64, u32)>) -> u32
    decreases pairs.len(),
{
    if pairs.len() == 0 {
        0
    } else if pairs.last().0 == key && time_of(pairs.last().1, clock) is Ok {
        time_of(pairs.last().1, clock)->Ok_0 as u32
    } else {
        last_time(pairs.drop_last(), key, clock)
    }
}

/// The pairs make a query exactly when none of them is a parameter the query
/// cannot take. The query then has every target in order, the last format
/// (JSON by default), and the last `from` and `until` (zero by default);
/// other parameters are ignored.
pub proof fn lemma_query_of_pairs(pairs: Seq<(Seq<char>, Seq<char>)>, clock: Result<u32, (u64, u32)>)
    ensures
        query_of_pairs(pairs, clock) is Err <==> exists|i: int| 0 <= i < pairs.len() && #[trigger] bad_parameter(pairs[i], clock),
        query_of_pairs(pairs, clock) is Ok ==> query_of_pairs(pairs, clock)->Ok_0 == (
            target_values(pairs),
            last_format(pairs),
            last_time(pairs, "from"@, clock),
            last_time(pairs, "until"@, clock),
        ),
    decreases pairs.len(),
{
    reveal_strlit("target");
    reveal_strlit("format");
    reveal_strlit("from");
    reveal_strlit("until");
    assert("target"@.len() == 6 && "format"@.len() == 6 && "target"@[0] == 't' && "format"@[0] == 'f');
    assert("from"@.len() == 4 && "until"@.len() == 5 && "from"@[0] == 'f');
    if pairs.len() > 0 {
        let prev = pairs.drop_last();
        let last = pairs.last();
        lemma_query_of_pairs(prev, clock);
        assert forall|i: int| 0 <= i < prev.len() implies prev[i] == pairs[i] by {}
        if query_of_pairs(prev, clock) is Err {
            let i = choose|i: int| 0 <= i < prev.len() && #[trigger] bad_parameter(prev[i], clock);
            assert(bad_parameter(pairs[i], clock));
        } else {
            if bad_parameter(last, clock) {
                assert(bad_parameter(pairs[pairs.len() - 1], clock));
            } else {
                assert forall|i: int| 0 <= i < pairs.len() implies !#[trigger] bad_parameter(pairs[i], clock) by {
                    if i < prev.len() {
                        assert(!bad_parameter(prev[i], clock));
                    }
                }
            }
        }
    }
}

/// Once a parameter cannot be read, no later one changes the outcome.
pub proof fn lemma_query_error_stays(pairs: Seq<(Seq<char>, Seq<char>)>, clock: Result<u32, (u64, u32)>, k: int)
    requires
        0 <= k <= pairs.len(),
        query_of_pairs(pairs.take(k), clock) is Err,
    ensures
        query_of_pairs(pairs, clock) == query_of_pairs(pairs.take(k), clock),
    decreases pairs.len() - k,
{
    if k < pairs.len() {
        assert(pairs.take(k + 1).drop_last() =~= pairs.take(k));
        lemma_query_error_stays(pairs, clock, k + 1);
    } else {
        assert(pairs.take(k) =~= pairs);
    }
}

/// A query result read as values.
pub open spec fn query_outcome(r: Result<RenderQuery, ParseError>) -> Result<QueryValue, ParseError> {
    match r {
        Ok(q) => Ok(query_value(q)),
        Err(e) => Err(e),
    }
}

impl RenderQuery {
    /// The query that the name/value pairs give, with `clock` the reading of
    /// the clock used for relative times.
    pub fn from_pairs(pairs: &[(String, String)], clock: Result<u32, (u64, u32)>) -> (r: Result<RenderQuery, ParseError>)
        ensures
            query_outcome(r) == query_of_pairs(pair_views(pairs@), clock),
    {
        let mut q = RenderQuery { target: Vec::new(), format: RenderFormat::Json, from: 0, until: 0 };
        let ghost all = pair_views(pairs@);
        proof {
            assert(query_value(q).0 =~= Seq::<Seq<char>>::empty());
            assert(all.take(0) =~= Seq::<(Seq<char>, Seq<char>)>::empty());
        }
        let mut i: usize = 0;
        while i < pairs.len()
            invariant
                i <= pairs.len(),
                all == pair_views(pairs@),
                query_of_pairs(all.take(i as int), clock) == Ok::<QueryValue, ParseError>(query_value(q)),
            decreases pairs.len() - i,
        {
            let key = pairs[i].0.as_str();
            let value = &pairs[i].1;
            proof {
                assert(all.take(i + 1).drop_last() =~= all.take(i as int));
                assert(all.take(i + 1).last() == all[i as int]);
                assert(all[i as int] == (key@, value@));
            }
            let ghost before = query_value(q);
            if str_eq(key, "target") {
                q.target.push(value.clone());
                assert(query_value(q).0 =~= before.0.push(value@));
            } else if str_eq(key, "format") {
                match RenderFormat::from_text(value.as_str()) {
                    Ok(f) => {
                        q.format = f;
                    },
                    Err(e) => {
                        proof {
                            lemma_query_error_stays(all, clock, i + 1);
                        }
                        return Err(e);
                    },
                }
            } else if str_eq(key, "from") {
                match time_parse_with(value.as_str(), clock) {
                    Ok(t) => {
                        q.from = t;
                    },
                    Err(e) => {
                        proof {
                            lemma_query_error_stays(all, clock, i + 1);
                        }
                        return Err(e);
                    },
                }
            } else if str_eq(key, "until") {
                match time_parse_with(value.as_str(), clock) {
                    Ok(t) => {
                        q.until = t;
                    },
                    Err(e) => {
                        proof {
                            lemma_query_error_stays(all, clock, i + 1);
                        }
                        return Err(e);
                    },
                }
            }
            i = i + 1;
        }
        proof {
            assert(all.take(i as int) =~= all);
        }
        Ok(q)
    }

    /// The query written in `s` as URL-encoded parameters. Text that does not
    /// decode gives a `Query` error with the decoder's message; the clock is
    /// read for relative times.
    pub fn from_text(s: &str) -> (r: Result<RenderQuery, ParseError>)
        ensures
            urlencoded_pairs(s@) is Err ==> (r matches Err(ParseError::Query(q)) && q@ == urlencoded_pairs(s@)->Err_0),
            urlencoded_pairs(s@) is Ok ==> exists|clock: Result<u32, (u64, u32)>|
                query_outcome(r) == query_of_pairs(urlencoded_pairs(s@)->Ok_0, clock),
    {
        match urlencoded_parse(s) {
            Err(m) => Err(ParseError::Query(m)),
            Ok(pairs) => {
                let clock = clock_reading();
                let r = RenderQuery::from_pairs(pairs.as_slice(), clock);
                assert(query_outcome(r) == query_of_pairs(urlencoded_pairs(s@)->Ok_0, clock));
                r
            },
        }
    }
}

impl std::str::FromStr for RenderQuery {
    type Err = ParseError;

    fn from_str(s: &str) -> (r: Result<RenderQuery, ParseError>)
        ensures
            urlencoded_pairs(s@) is Err ==> (r matches Err(ParseError::Query(q)) && q@ == urlencoded_pairs(s@)->Err_0),
            urlencoded_pairs(s@) is Ok ==> exists|clock: Result<u32, (u64, u32)>|
                query_outcome(r) == query_of_pairs(urlencoded_pairs(s@)->Ok_0, clock),
    {
        RenderQuery::from_text(s)
    }
}

impl std::str::FromStr for RenderFormat {
    type Err = ParseError;

    fn from_str(s: &str) -> (r: Result<RenderFormat, ParseError>)
        ensures
            r == (match format_named(s@) {
                Some(f) => Ok::<RenderFormat, ParseError>(f),
                None => Err(ParseError::RenderFormat),
            }),
    {
        RenderFormat::from_text(s)
    }
}

/// The name of a metric to render.
#[derive(Debug, Clone, PartialEq, Eq)]
pub struct RenderMetric(pub String);

/// The whisper file of a metric to render.
pub struct RenderPath(pub std::path::PathBuf);

/// A point of a rendered series: its value, where it has one, and its time.
#[derive(Debug, Clone, PartialEq)]
pub struct RenderPoint<V>(pub Option<V>, pub u32);

/// A rendered series: the metric's name and its points.
#[derive(Debug, Clone, PartialEq)]
pub struct RenderResponseEntry<V> {
    pub target: String,
    pub datapoints: Vec<RenderPoint<V>>,
}

/// The series of a render response; a metric that gave no series has none.
#[derive(Debug, Clone, PartialEq)]
pub struct RenderResponse<V> {
    pub entries: Vec<Option<RenderResponseEntry<V>>>,
}

/// The CSV line of one point of `target`: the name, the UTC date and time,
/// and the value's text (empty where there is no value).
pub open spec fn csv_line(target: Seq<char>, p: RenderPoint<String>) -> Seq<char> {
    target + ","@ + utc_datetime(p.1) + ","@ + match p.0 {
        Some(v) => v@,
        None => Seq::empty(),
    }
}

/// The CSV text of a series: one line per point.
pub open spec fn entry_csv(e: RenderResponseEntry<String>) -> Seq<char> {
    join(e.datapoints@.map_values(|p: RenderPoint<String>| csv_line(e.target@, p)), "\n"@)
}

/// The CSV text of a response: its series one after another, and a final
/// line break.
pub open spec fn response_csv(es: Seq<RenderResponseEntry<String>>) -> Seq<char> {
    join(es.map_values(|e: RenderResponseEntry<String>| entry_csv(e)), "\n"@) + "\n"@
}

/// The CSV text of a series whose values are already written out.
pub fn entry_into_csv(e: &RenderResponseEntry<String>) -> (r: String)
    ensures
        r@ == entry_csv(*e),
{
    let ghost lines = e.datapoints@.map_values(|p: RenderPoint<String>| csv_line(e.target@, p));
    let mut out = String::new();
    let mut j: usize = 0;
    proof {
        assert(lines.take(0) =~= Seq::<Seq<char>>::empty());
    }
    while j < e.datapoints.len()
        invariant
            j <= e.datapoints.len(),
            lines == e.datapoints@.map_values(|p: RenderPoint<String>| csv_line(e.target@, p)),
            out@ == join(lines.take(j as int), "\n"@),
        decreases e.datapoints.len() - j,
    {
        let ghost before = out@;
        let p = &e.datapoints[j];
        if j > 0 {
            push_str(&mut out, "\n");
        }
        push_str(&mut out, e.target.as_str());
        push_str(&mut out, ",");
        let t = utc_datetime_text(p.1);
        push_str(&mut out, t.as_str());
        push_str(&mut out, ",");
        match &p.0 {
            Some(v) => push_str(&mut out, v.as_str()),
            None => {},
        }
        proof {
            assert(lines[j as int] == csv_line(e.target@, *p));
            assert(lines.take(j + 1) =~= lines.take(j as int).push(lines[j as int]));
            lemma_join_push(lines.take(j as int), "\n"@, lines[j as int]);
            if j > 0 {
                assert(out@ =~= before + "\n"@ + lines[j as int]);
            } else {
                assert(out@ =~= lines[j as int]);
            }
        }
        j = j + 1;
    }
    proof {
        assert(lines.take(j as int) =~= lines);
    }
    out
}

/// The CSV text of a response whose values are already written out.
pub fn response_into_csv(es: &[RenderResponseEntry<String>]) -> (r: String)
    ensures
        r@ == response_csv(es@),
{
    let ghost texts = es@.map_values(|e: RenderResponseEntry<String>| entry_csv(e));
    let mut out = String::new();
    let mut i: usize = 0;
    proof {
        assert(texts.take(0) =~= Seq::<Seq<char>>::empty());
    }
    while i < es.len()
        invariant
            i <= es.len(),
            texts == es@.map_values(|e: RenderResponseEntry<String>| entry_csv(e)),
            out@ == join(texts.take(i as int), "\n"@),
        decreases es.len() - i,
    {
        let ghost before = out@;
        if i > 0 {
            push_str(&mut out, "\n");
        }
        let t = entry_into_csv(&es[i]);
        push_str(&mut out, t.as_str());
        proof {
            assert(texts[i as int] == entry_csv(es@[i as int]));
            assert(texts.take(i + 1) =~= texts.take(i as int).push(texts[i as int]));
            lemma_join_push(texts.take(i as int), "\n"@, texts[i as int]);
            if i > 0 {
                assert(out@ =~= before + "\n"@ + texts[i as int]);
            } else {
                assert(out@ =~= texts[i as int]);
            }
        }
        i = i + 1;
    }
    proof {
        assert(texts.take(i as int) =~= texts);
    }
    push_str(&mut out, "\n");
    out
}

/// How a render response is written out for a format.
#[derive(Debug, Clone, PartialEq, Eq)]
pub enum ResponseFormat {
    Json,
    Csv,
    /// The format cannot be rendered; the text explains it.
    Unsupported(String),
}

/// The text of a refused format.
pub open spec fn unsupported_text(f: RenderFormat) -> Seq<char> {
    "Format '"@ + format_name(f) + "' not supported"@
}

/// JSON and CSV are written out; every other format is refused with a
/// message that names it.
pub fn choose_response(format: RenderFormat) -> (r: ResponseFormat)
    ensures
        format == RenderFormat::Json ==> r == ResponseFormat::Json,
        format == RenderFormat::Csv ==> r == ResponseFormat::Csv,
        format != RenderFormat::Json && format != RenderFormat::Csv ==> (r matches ResponseFormat::Unsupported(m) && m@ == unsupported_text(format)),
{
    match format {
        RenderFormat::Json => ResponseFormat::Json,
        RenderFormat::Csv => ResponseFormat::Csv,
        _ => {
            let mut m = String::new();
            push_str(&mut m, "Format '");
            let n = format.to_string();
            push_str(&mut m, n.as_str());
            push_str(&mut m, "' not supported");
            ResponseFormat::Unsupported(m)
        },
    }
}

} // verus!
