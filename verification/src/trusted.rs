//! The calls this library makes into other crates, with what is assumed of
//! them. Nothing here is proved: each contract restates the called crate's
//! documented behaviour, or names a result that depends on the arguments alone.
use vstd::prelude::*;

verus! {

/// `regex` type of a compiled regular expression; opaque to proofs.
#[verifier::external_type_specification]
#[verifier::external_body]
pub struct ExRegex(regex::Regex);

/// Whether `regex::Regex::new` accepts `pattern` (a function of the pattern
/// text alone, with the crate's default size limits).
pub uninterp spec fn regex_compiles(pattern: Seq<char>) -> bool;

/// Whether the regular expression `pattern` matches somewhere in `text`, as
/// `regex::Regex::is_match` decides it.
pub uninterp spec fn regex_matches(pattern: Seq<char>, text: Seq<char>) -> bool;

/// Calls `regex::Regex::new` on `pattern`; `Err` carries the error's message.
/// Claims only that it succeeds exactly when `regex_compiles` holds.
#[verifier::external_body]
pub(crate) fn regex_new(pattern: &str) -> (r: Result<regex::Regex, String>)
    ensures
        r is Ok <==> regex_compiles(pattern@),
{
    regex::Regex::new(pattern).map_err(|e| e.to_string())
}

/// Compiles `pattern` with `regex::Regex::new` and, when it compiles, asks
/// `regex::Regex::is_match` whether it matches `text`. Claims that the result
/// is `None` exactly when the pattern does not compile, and otherwise the
/// named match result.
#[verifier::external_body]
pub(crate) fn regex_is_match(pattern: &str, text: &str) -> (r: Option<bool>)
    ensures
        r == (if regex_compiles(pattern@) { Some(regex_matches(pattern@, text@)) } else { None }),
{
    match regex::Regex::new(pattern) {
        Ok(re) => Some(re.is_match(text)),
        Err(_) => None,
    }
}

} // verus!

verus! {

/// `std::time::SystemTime`, a reading of the system clock; opaque to proofs.
#[verifier::external_type_specification]
#[verifier::external_body]
pub struct ExSystemTime(std::time::SystemTime);

/// Calls `std::time::SystemTime::now`. Nothing is claimed of the reading,
/// which depends on the time of the call.
#[verifier::external_body]
pub(crate) fn system_now() -> (r: std::time::SystemTime) {
    std::time::SystemTime::now()
}

/// Calls `SystemTime::duration_since(UNIX_EPOCH)` on `t`: the time since
/// the epoch in whole seconds (`as_secs`), or, for a time before the epoch,
/// the `SystemTimeError`'s duration as seconds and nanoseconds. Of the
/// numbers, which depend on the reading, only what `subsec_nanos` documents
/// is claimed: the nanoseconds are a fraction of a second.
#[verifier::external_body]
pub(crate) fn since_epoch(t: std::time::SystemTime) -> (r: Result<u64, (u64, u32)>)
    ensures
        r matches Err((_, nanos)) ==> nanos < 1_000_000_000,
{
    match t.duration_since(std::time::UNIX_EPOCH) {
        Ok(d) => Ok(d.as_secs()),
        Err(e) => Err((e.duration().as_secs(), e.duration().subsec_nanos())),
    }
}

/// The `Debug` text of a `std::time::Duration` of `secs` seconds and `nanos`
/// nanoseconds, such as `1.5s` or `10ns`.
pub uninterp spec fn duration_debug(secs: u64, nanos: u32) -> Seq<char>;

/// Formats `std::time::Duration::new(secs, nanos)` with `{:?}`; claims the
/// result is the named text, which depends on the two numbers alone.
#[verifier::external_body]
pub(crate) fn duration_debug_text(secs: u64, nanos: u32) -> (r: String)
    requires
        nanos < 1_000_000_000,
    ensures
        r@ == duration_debug(secs, nanos),
{
    format!("{:?}", std::time::Duration::new(secs, nanos))
}

} // verus!

verus! {

/// What `serde_urlencoded::from_str::<Vec<(String, String)>>` gives for `s`:
/// the decoded name/value pairs in their order, or the error's message. It
/// depends on the text alone.
pub uninterp spec fn urlencoded_pairs(s: Seq<char>) -> Result<Seq<(Seq<char>, Seq<char>)>, Seq<char>>;

/// The text of each side of each pair.
pub open spec fn pair_views(p: Seq<(String, String)>) -> Seq<(Seq<char>, Seq<char>)> {
    p.map_values(|x: (String, String)| (x.0@, x.1@))
}

/// Calls `serde_urlencoded::from_str` to read `s` as a list of name/value
/// pairs (percent-decoding both sides); `Err` carries the error's message.
/// Claims only that the result is the named one for `s`.
#[verifier::external_body]
pub(crate) fn urlencoded_parse(s: &str) -> (r: Result<Vec<(String, String)>, String>)
    ensures
        match r {
            Ok(v) => urlencoded_pairs(s@) == Ok::<Seq<(Seq<char>, Seq<char>)>, Seq<char>>(pair_views(v@)),
            Err(m) => urlencoded_pairs(s@) == Err::<Seq<(Seq<char>, Seq<char>)>, Seq<char>>(m@),
        },
{
    serde_urlencoded::from_str::<Vec<(String, String)>>(s).map_err(|e| e.to_string())
}

} // verus!

verus! {

/// The text of the Unix time `ts` as `chrono` formats a UTC date and time
/// with `%Y-%m-%d %H:%M:%S`; it depends on `ts` alone.
pub uninterp spec fn utc_datetime(ts: u32) -> Seq<char>;

/// Formats the Unix time `ts` with `chrono::NaiveDateTime::from_timestamp`
/// and `format("%Y-%m-%d %H:%M:%S")` (every `u32` is in chrono's range, so
/// the call does not panic). Claims only that the text is the named one.
#[verifier::external_body]
#[allow(deprecated)]
pub(crate) fn utc_datetime_text(ts: u32) -> (r: String)
    ensures
        r@ == utc_datetime(ts),
{
    chrono::NaiveDateTime::from_timestamp(i64::from(ts), 0).format("%Y-%m-%d %H:%M:%S").to_string()
}

} // verus!

verus! {

/// Where `glob::Pattern::new` refuses `pattern`: the error's position and
/// message, or `None` where it accepts it. It depends on the text alone.
pub uninterp spec fn glob_error(pattern: Seq<char>) -> Option<(usize, Seq<char>)>;

/// Whether the glob pattern `pattern` matches all of `text`, as
/// `glob::Pattern::matches` decides it with default options.
pub uninterp spec fn glob_match(pattern: Seq<char>, text: Seq<char>) -> bool;

/// Calls `glob::Pattern::new` on `pattern`; on failure returns the
/// `PatternError`'s `pos` and `msg`. Claims only that this is the named
/// outcome for `pattern`.
#[verifier::external_body]
pub(crate) fn glob_check(pattern: &str) -> (r: Result<(), (usize, String)>)
    ensures
        match r {
            Ok(()) => glob_error(pattern@) is None,
            Err((pos, msg)) => glob_error(pattern@) == Some((pos, msg@)),
        },
{
    match glob::Pattern::new(pattern) {
        Ok(_) => Ok(()),
        Err(e) => Err((e.pos, e.msg.to_string())),
    }
}

/// Compiles `pattern` with `glob::Pattern::new` (which succeeds, by the
/// requirement) and asks `glob::Pattern::matches` whether it matches `text`.
/// Claims only that the answer is the named one.
#[verifier::external_body]
pub(crate) fn glob_matches(pattern: &str, text: &str) -> (r: bool)
    requires
        glob_error(pattern@) is None,
    ensures
        r == glob_match(pattern@, text@),
{
    match glob::Pattern::new(pattern) {
        Ok(p) => p.matches(text),
        Err(_) => false,
    }
}

} // verus!

verus! {

/// The text of the first capture group of the leftmost match of the regular
/// expression `pattern` in `text`, as `regex::Regex::captures` finds it;
/// `None` where there is no match or the group takes no part in it.
pub uninterp spec fn regex_first_group(pattern: Seq<char>, text: Seq<char>) -> Option<Seq<char>>;

/// Compiles `pattern` with `regex::Regex::new` and returns the text of the
/// first capture group of `captures(text)`. Claims that a text comes back
/// only for a pattern that compiles, and that it is the named group.
#[verifier::external_body]
pub(crate) fn regex_capture(pattern: &str, text: &str) -> (r: Option<String>)
    ensures
        match r {
            Some(g) => regex_compiles(pattern@) && regex_first_group(pattern@, text@) == Some(g@),
            None => !regex_compiles(pattern@) || regex_first_group(pattern@, text@) is None,
        },
{
    match regex::Regex::new(pattern) {
        Ok(re) => match re.captures(text) {
            Some(c) => match c.get(1) {
                Some(m) => Some(m.as_str().to_string()),
                None => None,
            },
            None => None,
        },
        Err(_) => None,
    }
}

} // verus!
