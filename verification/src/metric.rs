//! Metric lines (`name timestamp value`) and the files they are stored in.
use vstd::prelude::*;
use crate::number::{float_check, is_float_text, parse_u32, u32_of, FloatErrorKind, IntErrorKind};
use crate::text::{chars_of, lemma_split_len, lemma_split_pieces, piece_at, piece_placed, push_str, split, split_str};
use crate::trusted::{regex_compiles, regex_is_match, regex_matches};

verus! {

/// A point of a series: a timestamp and a value. The value is kept as the
/// text that was read, which `f64::from_str` accepts.
#[derive(Debug, Clone, PartialEq)]
pub struct Point {
    pub interval: u32,
    pub value: String,
}

/// One point of a named metric.
#[derive(Debug, Clone, PartialEq)]
pub struct MetricPoint {
    pub name: String,
    pub point: Point,
}

/// Several points of one named metric.
#[derive(Debug, Clone)]
pub struct MetricPoints {
    pub name: String,
    pub points: Vec<Point>,
}

/// Why a metric line or name was refused.
#[derive(Debug, Clone, PartialEq)]
pub enum MetricError {
    Validate(String),
    NameValidate(String),
    LineParse(String),
    Timestamp(IntErrorKind),
    Value(FloatErrorKind),
}

/// The characters a metric line may hold.
pub open spec fn line_pattern() -> Seq<char> {
    "^[\\d\\w\\._ -]+$"@
}

/// The characters a metric name may hold.
pub open spec fn name_pattern() -> Seq<char> {
    "^[\\d\\w\\._-]+$"@
}

/// The line passes the line pattern.
pub open spec fn line_valid(s: Seq<char>) -> bool {
    regex_compiles(line_pattern()) && regex_matches(line_pattern(), s)
}

/// The name passes the name pattern.
pub open spec fn name_valid(s: Seq<char>) -> bool {
    regex_compiles(name_pattern()) && regex_matches(name_pattern(), s)
}

/// The line is `name timestamp value`, each part separated by one space,
/// with a `u32` timestamp and a floating-point value.
pub open spec fn line_ok(s: Seq<char>) -> bool {
    let parts = split(s, ' ');
    &&& line_valid(s)
    &&& parts.len() == 3
    &&& u32_of(parts[1]) is Ok
    &&& parts[2].len() > 0 && is_float_text(parts[2])
}

/// `e` is the error that the line `s` is refused with: the first of its
/// characters, its number of parts, its timestamp and its value that is
/// wrong.
pub open spec fn line_error(s: Seq<char>, e: MetricError) -> bool {
    let parts = split(s, ' ');
    if !line_valid(s) {
        e matches MetricError::Validate(t) && t@ == s
    } else if parts.len() != 3 {
        e matches MetricError::LineParse(t) && t@ == s
    } else if u32_of(parts[1]) is Err {
        e == MetricError::Timestamp(u32_of(parts[1])->Err_0)
    } else {
        e == MetricError::Value(if parts[2].len() == 0 { FloatErrorKind::Empty } else { FloatErrorKind::Invalid })
    }
}

impl MetricPoint {
    /// Checks the characters of a metric line.
    pub fn validate(s: &str) -> (r: Result<(), MetricError>)
        ensures
            r is Ok <==> line_valid(s@),
            r matches Err(e) ==> e matches MetricError::Validate(t) && t@ == s@,
    {
        match regex_is_match("^[\\d\\w\\._ -]+$", s) {
            Some(true) => Ok(()),
            _ => Err(MetricError::Validate(s.to_owned())),
        }
    }

    /// Reads a metric line `name timestamp value`.
    pub fn from_text(s: &str) -> (r: Result<MetricPoint, MetricError>)
        ensures
            r is Ok <==> line_ok(s@),
            r matches Ok(m) ==> {
                let parts = split(s@, ' ');
                &&& m.name@ == parts[0]
                &&& u32_of(parts[1]) == Ok::<int, IntErrorKind>(m.point.interval as int)
                &&& m.point.value@ == parts[2]
            },
            r matches Err(e) ==> line_error(s@, e),
    {
        MetricPoint::validate(s)?;
        let segments = split_str(s, ' ');
        if segments.len() != 3 {
            return Err(MetricError::LineParse(s.to_owned()));
        }
        let t = chars_of(segments[1].as_str());
        let interval = match parse_u32(t.as_slice(), 0, t.len()) {
            Ok(v) => v,
            Err(k) => {
                proof {
                    assert(t@.subrange(0, t@.len() as int) =~= t@);
                }
                return Err(MetricError::Timestamp(k));
            },
        };
        proof {
            assert(t@.subrange(0, t@.len() as int) =~= t@);
        }
        match float_check(segments[2].as_str()) {
            Ok(()) => {},
            Err(k) => return Err(MetricError::Value(k)),
        }
        Ok(MetricPoint { name: segments[0].clone(), point: Point { interval, value: segments[2].clone() } })
    }
}

impl std::str::FromStr for MetricPoint {
    type Err = MetricError;

    fn from_str(s: &str) -> (r: Result<MetricPoint, MetricError>)
        ensures
            r is Ok <==> line_ok(s@),
            r matches Ok(m) ==> {
                let parts = split(s@, ' ');
                &&& m.name@ == parts[0]
                &&& u32_of(parts[1]) == Ok::<int, IntErrorKind>(m.point.interval as int)
                &&& m.point.value@ == parts[2]
            },
            r matches Err(e) ==> line_error(s@, e),
    {
        MetricPoint::from_text(s)
    }
}

impl MetricPoints {
    /// One metric point per point, each with the common name.
    pub fn into_points(self) -> (r: Vec<MetricPoint>)
        ensures
            r@.len() == self.points@.len(),
            forall|i: int| 0 <= i < r@.len() ==> (#[trigger] r@[i]).name@ == self.name@ && r@[i].point == self.points@[i],
    {
        let mut out: Vec<MetricPoint> = Vec::new();
        let mut i: usize = 0;
        while i < self.points.len()
            invariant
                i <= self.points@.len(),
                out@.len() == i,
                forall|j: int| 0 <= j < i ==> (#[trigger] out@[j]).name@ == self.name@ && out@[j].point == self.points@[j],
            decreases self.points@.len() - i,
        {
            let p = Point { interval: self.points[i].interval, value: self.points[i].value.clone() };
            out.push(MetricPoint { name: self.name.clone(), point: p });
            i = i + 1;
        }
        out
    }
}

/// The text of the path of a metric's file: `.` and then `/part` for each
/// non-empty dot-separated part of the name, with `.wsp` after the last one;
/// `./` when there is no such part.
pub open spec fn path_body(parts: Seq<Seq<char>>) -> Seq<char>
    decreases parts.len(),
{
    if parts.len() == 0 {
        Seq::empty()
    } else if parts.last().len() == 0 {
        path_body(parts.drop_last())
    } else {
        path_body(parts.drop_last()) + seq!['/'] + parts.last()
    }
}

/// The file path text of the metric name `s`.
pub open spec fn metric_path_text(s: Seq<char>) -> Seq<char> {
    let body = path_body(split(s, '.'));
    if body.len() > 0 { seq!['.'] + body + seq!['.', 'w', 's', 'p'] } else { seq!['.', '/'] }
}

/// A body built from pieces without dots holds no dot, and begins with a
/// slash when it is not empty.
proof fn lemma_path_body_chars(parts: Seq<Seq<char>>)
    requires
        forall|i: int, j: int| 0 <= i < parts.len() && 0 <= j < parts[i].len() ==> #[trigger] parts[i][j] != '.',
    ensures
        forall|j: int| 0 <= j < path_body(parts).len() ==> #[trigger] path_body(parts)[j] != '.',
        path_body(parts).len() > 0 ==> path_body(parts)[0] == '/',
    decreases parts.len(),
{
    if parts.len() > 0 {
        let rest = parts.drop_last();
        assert forall|i: int, j: int| 0 <= i < rest.len() && 0 <= j < rest[i].len() implies #[trigger] rest[i][j] != '.' by {
            assert(rest[i] == parts[i]);
        }
        lemma_path_body_chars(rest);
        if parts.last().len() > 0 {
            let b = path_body(rest);
            let whole = b + seq!['/'] + parts.last();
            assert(path_body(parts) == whole);
            assert forall|j: int| 0 <= j < whole.len() implies #[trigger] whole[j] != '.' by {
                if j > b.len() {
                    assert(whole[j] == parts[parts.len() - 1][j - b.len() - 1]);
                }
            }
        }
    }
}

/// The file of a metric stays inside the data directory, whatever the name:
/// its path text starts with the component `.`, and none of its other
/// `/`-separated components is `.` or `..`, so it neither starts at the root
/// nor climbs out of the directory it is joined to.
pub proof fn lemma_metric_path_stays_inside(s: Seq<char>)
    ensures
        split(metric_path_text(s), '/')[0] == seq!['.'],
        forall|k: int| 1 <= k < split(metric_path_text(s), '/').len() ==> {
            let c = #[trigger] split(metric_path_text(s), '/')[k];
            c != seq!['.'] && c != seq!['.', '.']
        },
{
    let t = metric_path_text(s);
    let parts = split(s, '.');
    lemma_split_pieces(s, '.');
    assert forall|i: int, j: int| 0 <= i < parts.len() && 0 <= j < parts[i].len() implies #[trigger] parts[i][j] != '.' by {
        assert(piece_placed(s, '.', i));
    }
    lemma_path_body_chars(parts);
    let body = path_body(parts);
    // Every dot after the first character is followed by a character that
    // is not a slash.
    assert(t[0] == '.' && t.len() >= 2 && t[1] == '/');
    assert forall|j: int| 1 <= j < t.len() && #[trigger] t[j] == '.' implies j + 1 < t.len() && t[j + 1] != '/' by {
        if body.len() > 0 {
            assert(t == seq!['.'] + body + seq!['.', 'w', 's', 'p']);
            if j <= body.len() {
                assert(t[j] == body[j - 1]);
            }
        }
    }
    let pieces = split(t, '/');
    lemma_split_pieces(t, '/');
    lemma_split_len(t, '/');
    assert(piece_placed(t, '/', 0));
    let b0 = choose|b: int| #[trigger] piece_at(t, '/', pieces, 0, b);
    let p0 = pieces[0];
    assert(t.subrange(0, p0.len() as int) == p0);
    if p0.len() == 0 {
        assert(false);
    }
    if p0.len() >= 2 {
        assert(p0[1] == t[1]);
        assert(false);
    }
    assert(p0 =~= seq!['.']);
    assert forall|k: int| 1 <= k < pieces.len() implies {
        let c = #[trigger] pieces[k];
        c != seq!['.'] && c != seq!['.', '.']
    } by {
        assert(piece_placed(t, '/', k));
        let b = choose|b: int| #[trigger] piece_at(t, '/', pieces, k, b);
        let c = pieces[k];
        if c == seq!['.'] || c == seq!['.', '.'] {
            let e = b + c.len() - 1;
            assert(t.subrange(b, b + c.len()) == c);
            assert(t[e] == c[c.len() - 1]);
            assert(t[e] == '.');
        }
    }
}

/// The file that holds a metric, as a path text relative to the data
/// directory (`./a/b/c.wsp` for `a.b.c`).
#[derive(Debug, Clone, PartialEq)]
pub struct MetricPath(pub String);

impl MetricPath {
    /// Checks the characters of a metric name.
    pub fn validate(s: &str) -> (r: Result<(), MetricError>)
        ensures
            r is Ok <==> name_valid(s@),
            r matches Err(e) ==> e matches MetricError::NameValidate(t) && t@ == s@,
    {
        match regex_is_match("^[\\d\\w\\._-]+$", s) {
            Some(true) => Ok(()),
            _ => Err(MetricError::NameValidate(s.to_owned())),
        }
    }

    /// The file path of the metric named `s`.
    pub fn from_text(s: &str) -> (r: Result<MetricPath, MetricError>)
        ensures
            r is Ok <==> name_valid(s@),
            r matches Ok(p) ==> p.0@ == metric_path_text(s@),
            r matches Err(e) ==> e matches MetricError::NameValidate(t) && t@ == s@,
    {
        MetricPath::validate(s)?;
        let parts = split_str(s, '.');
        let mut body = String::new();
        let mut i: usize = 0;
        while i < parts.len()
            invariant
                i <= parts@.len(),
                body@ == path_body(parts.deep_view().take(i as int)),
            decreases parts@.len() - i,
        {
            proof {
                assert(parts.deep_view().take(i + 1).drop_last() =~= parts.deep_view().take(i as int));
            }
            let piece = chars_of(parts[i].as_str());
            if piece.len() > 0 {
                body.push('/');
                push_str(&mut body, parts[i].as_str());
            }
            i = i + 1;
        }
        proof {
            assert(parts.deep_view().take(i as int) =~= parts.deep_view());
        }
        let b = chars_of(body.as_str());
        let mut out = String::new();
        out.push('.');
        if b.len() > 0 {
            push_str(&mut out, body.as_str());
            push_str(&mut out, ".wsp");
            proof {
                assert(".wsp"@ =~= seq!['.', 'w', 's', 'p']) by {
                    reveal_strlit(".wsp");
                }
                assert(out@ =~= seq!['.'] + body@ + seq!['.', 'w', 's', 'p']);
            }
        } else {
            out.push('/');
            proof {
                assert(out@ =~= seq!['.', '/']);
            }
        }
        Ok(MetricPath(out))
    }
}

impl std::str::FromStr for MetricPath {
    type Err = MetricError;

    fn from_str(s: &str) -> (r: Result<MetricPath, MetricError>)
        ensures
            r is Ok <==> name_valid(s@),
            r matches Ok(p) ==> p.0@ == metric_path_text(s@),
            r matches Err(e) ==> e matches MetricError::NameValidate(t) && t@ == s@,
    {
        MetricPath::from_text(s)
    }
}

/// What a metric line asks to store: its point, and the file of its
/// metric. A line that cannot be read is refused as `MetricPoint` refuses
/// it; a line whose name has characters a file name may not hold, with
/// `NameValidate`.
pub fn line_target(message: &str) -> (r: Result<(MetricPoint, MetricPath), MetricError>)
    ensures
        r is Ok <==> line_ok(message@) && name_valid(split(message@, ' ')[0]),
        r matches Ok((m, p)) ==> {
            let parts = split(message@, ' ');
            &&& m.name@ == parts[0]
            &&& u32_of(parts[1]) == Ok::<int, IntErrorKind>(m.point.interval as int)
            &&& m.point.value@ == parts[2]
            &&& p.0@ == metric_path_text(parts[0])
        },
        r matches Err(e) ==> if !line_ok(message@) {
            line_error(message@, e)
        } else {
            e matches MetricError::NameValidate(t) && t@ == split(message@, ' ')[0]
        },
{
    let metric = MetricPoint::from_text(message)?;
    let path = MetricPath::from_text(metric.name.as_str())?;
    Ok((metric, path))
}

/// The message of a metric error.
pub open spec fn metric_error_text(e: MetricError) -> Seq<char> {
    match e {
        MetricError::Validate(t) => "Metric line("@ + t@ + ") cannot be validated"@,
        MetricError::NameValidate(t) => "Metric name("@ + t@ + ") cannot be validated"@,
        MetricError::LineParse(t) => "Cannot parse metric from line: "@ + t@,
        MetricError::Timestamp(k) => crate::error::int_error_text(k),
        MetricError::Value(FloatErrorKind::Empty) => "cannot parse float from empty string"@,
        MetricError::Value(FloatErrorKind::Invalid) => "invalid float literal"@,
    }
}

impl MetricError {
    /// The text that describes the error.
    pub fn message(&self) -> (r: String)
        ensures
            r@ == metric_error_text(*self),
    {
        let mut m = String::new();
        match self {
            MetricError::Validate(t) => {
                push_str(&mut m, "Metric line(");
                push_str(&mut m, t.as_str());
                push_str(&mut m, ") cannot be validated");
            },
            MetricError::NameValidate(t) => {
                push_str(&mut m, "Metric name(");
                push_str(&mut m, t.as_str());
                push_str(&mut m, ") cannot be validated");
            },
            MetricError::LineParse(t) => {
                push_str(&mut m, "Cannot parse metric from line: ");
                push_str(&mut m, t.as_str());
            },
            MetricError::Timestamp(k) => {
                return crate::error::int_error_message(*k);
            },
            MetricError::Value(FloatErrorKind::Empty) => push_str(&mut m, "cannot parse float from empty string"),
            MetricError::Value(FloatErrorKind::Invalid) => push_str(&mut m, "invalid float literal"),
        }
        m
    }
}

} // verus!
