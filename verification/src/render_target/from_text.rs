//! Reading whole render targets from text.
use vstd::prelude::*;
use crate::render_target::ast::{expr_sorted, Expression, PathExpression, path_wf};
use crate::render_target::grammar;
use crate::render_target::parser;
use crate::text::{chars_of, decimal, decimal_string, push_str, utf8_len, utf8_prefix_len};

verus! {

/// The message for input that is left over after a complete parse ending at
/// character `q` of `s`: it gives the byte offset of the leftover.
pub open spec fn leftover_message(s: Seq<char>, q: int) -> Seq<char> {
    let bytes = utf8_len(s.take(q));
    let shown = if bytes <= u64::MAX { bytes } else { u64::MAX as int };
    "Unexpected input at position "@ + decimal(shown as nat) + "."@
}

/// The message for input that does not start with what was asked for.
pub open spec fn no_parse_message() -> Seq<char> {
    "ERROR the input does not start with a well-formed target"@
}

fn leftover(s: &[char], q: usize) -> (m: String)
    requires
        q <= s.len(),
    ensures
        m@ == leftover_message(s@, q as int),
{
    let bytes = utf8_prefix_len(s, q);
    let mut m = String::new();
    push_str(&mut m, "Unexpected input at position ");
    let n = decimal_string(bytes);
    push_str(&mut m, n.as_str());
    push_str(&mut m, ".");
    m
}

fn no_parse() -> (m: String)
    ensures
        m@ == no_parse_message(),
{
    let mut m = String::new();
    push_str(&mut m, "ERROR the input does not start with a well-formed target");
    m
}

impl PathExpression {
    /// Reads a path expression that spans all of `s`.
    pub fn from_text(s: &str) -> (r: Result<PathExpression, String>)
        ensures
            r is Ok <==> grammar::parse_path(s@) is Some,
            r matches Ok(e) ==> e@ == grammar::parse_path(s@)->Some_0 && path_wf(e),
            r matches Err(m) ==> match grammar::path(s@, 0) {
                Some((q, _)) => m@ == leftover_message(s@, q),
                None => m@ == no_parse_message(),
            },
    {
        let v = chars_of(s);
        match parser::path(v.as_slice(), 0) {
            Some((q, e)) => if q == v.len() {
                Ok(e)
            } else {
                Err(leftover(v.as_slice(), q))
            },
            None => Err(no_parse()),
        }
    }
}

impl Expression {
    /// Reads an expression that spans all of `s`.
    pub fn from_text(s: &str) -> (r: Result<Expression, String>)
        ensures
            r is Ok <==> grammar::parse_expr(s@) is Some,
            r matches Ok(e) ==> e@ == grammar::parse_expr(s@)->Some_0 && expr_sorted(e@),
            r matches Err(m) ==> match grammar::expression(s@, 0) {
                Some((q, _)) => m@ == leftover_message(s@, q),
                None => m@ == no_parse_message(),
            },
    {
        let v = chars_of(s);
        match parser::expression(v.as_slice(), 0) {
            Some((q, e)) => if q == v.len() {
                Ok(e)
            } else {
                Err(leftover(v.as_slice(), q))
            },
            None => Err(no_parse()),
        }
    }
}

impl std::str::FromStr for PathExpression {
    type Err = String;

    fn from_str(s: &str) -> (r: Result<PathExpression, String>)
        ensures
            r is Ok <==> grammar::parse_path(s@) is Some,
            r matches Ok(e) ==> e@ == grammar::parse_path(s@)->Some_0 && path_wf(e),
            r matches Err(m) ==> match grammar::path(s@, 0) {
                Some((q, _)) => m@ == leftover_message(s@, q),
                None => m@ == no_parse_message(),
            },
    {
        PathExpression::from_text(s)
    }
}

impl std::str::FromStr for Expression {
    type Err = String;

    fn from_str(s: &str) -> (r: Result<Expression, String>)
        ensures
            r is Ok <==> grammar::parse_expr(s@) is Some,
            r matches Ok(e) ==> e@ == grammar::parse_expr(s@)->Some_0 && expr_sorted(e@),
            r matches Err(m) ==> match grammar::expression(s@, 0) {
                Some((q, _)) => m@ == leftover_message(s@, q),
                None => m@ == no_parse_message(),
            },
    {
        Expression::from_text(s)
    }
}

} // verus!
