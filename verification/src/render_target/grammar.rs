//! The grammar of render targets, as functions from an input and a position
//! to the position after the recognised text and the value it denotes.
//! Alternatives are tried in order and the first that succeeds is taken.
use vstd::prelude::*;
use crate::render_target::ast::{ascending_chars, ArgM, CallM, Elem, ExprM, Lit, SourceM, TemplateM};
use crate::text::{decimal, is_digit};

verus! {

/// Characters that may appear unescaped in a path element.
pub open spec fn is_path_char(c: char) -> bool {
    ||| is_digit(c)
    ||| ('A' <= c && c <= 'Z')
    ||| ('a' <= c && c <= 'z')
    ||| c == '!' || c == '#' || c == '%' || c == '&' || c == '+' || c == '-'
    ||| c == '/' || c == ':' || c == ';' || c == '<' || c == '=' || c == '>'
    ||| c == '?' || c == '@' || c == '^' || c == '_' || c == '`' || c == '~'
}

/// Characters that may follow a backslash in a path element.
pub open spec fn is_escapable(c: char) -> bool {
    ||| c == '(' || c == ')' || c == '{' || c == '}' || c == '[' || c == ']'
    ||| c == ',' || c == '.' || c == '\'' || c == '"' || c == '\\' || c == '|'
    ||| c == '=' || c == '$'
}

/// Characters that may start an identifier.
pub open spec fn is_ident_start(c: char) -> bool {
    ('A' <= c && c <= 'Z') || ('a' <= c && c <= 'z') || c == '_'
}

/// Characters that may continue an identifier.
pub open spec fn is_ident_char(c: char) -> bool {
    is_ident_start(c) || is_digit(c)
}

/// `s[p]` exists and is `c`.
pub open spec fn at(s: Seq<char>, p: int, c: char) -> bool {
    0 <= p < s.len() && s[p] == c
}

/// ASCII lower case of `c`; other characters are unchanged.
pub open spec fn ascii_lower(c: char) -> char {
    if 'A' <= c && c <= 'Z' {
        ((c as int) + 32) as char
    } else {
        c
    }
}

/// `s` holds, at `p`, the lower-case ASCII word `t` in any letter case.
pub open spec fn tag_no_case(s: Seq<char>, p: int, t: Seq<char>) -> bool {
    &&& 0 <= p
    &&& p + t.len() <= s.len()
    &&& forall|i: int| 0 <= i < t.len() ==> #[trigger] ascii_lower(s[p + i]) == t[i]
}

/// `s` holds, at `p`, exactly the text `t`.
pub open spec fn tag(s: Seq<char>, p: int, t: Seq<char>) -> bool {
    0 <= p && p + t.len() <= s.len() && s.subrange(p, p + t.len()) == t
}

/// The word `template`.
pub open spec fn template_word() -> Seq<char> {
    seq!['t', 'e', 'm', 'p', 'l', 'a', 't', 'e']
}

// ---------- path expressions ----------

/// Reads path characters and backslash escapes from `p`, appending to `acc`
/// what they stand for. Fails on a backslash at the end of the input or before
/// a character that cannot be escaped.
pub open spec fn escaped_scan(s: Seq<char>, p: int, acc: Seq<char>) -> Option<(int, Seq<char>)>
    decreases s.len() - p,
{
    if p < 0 || p >= s.len() {
        Some((p, acc))
    } else if is_path_char(s[p]) {
        escaped_scan(s, p + 1, acc.push(s[p]))
    } else if s[p] == '\\' {
        if p + 1 >= s.len() {
            None
        } else if is_escapable(s[p + 1]) {
            escaped_scan(s, p + 2, acc.push(s[p + 1]))
        } else {
            None
        }
    } else {
        Some((p, acc))
    }
}

/// A non-empty run of (possibly escaped) path characters.
pub open spec fn partial(s: Seq<char>, p: int) -> Option<(int, Seq<char>)> {
    match escaped_scan(s, p, Seq::empty()) {
        Some((q, o)) => if o.len() > 0 { Some((q, o)) } else { None },
        None => None,
    }
}

/// Further `,partial` items of an enumeration.
pub open spec fn enum_rest(s: Seq<char>, p: int, acc: Seq<Seq<char>>) -> (int, Seq<Seq<char>>)
    decreases s.len() - p,
{
    if at(s, p, ',') {
        match partial(s, p + 1) {
            Some((q, o)) => if p < q <= s.len() { enum_rest(s, q, acc.push(o)) } else { (p, acc) },
            None => (p, acc),
        }
    } else {
        (p, acc)
    }
}

/// `{a,b,c}`
pub open spec fn enum_elem(s: Seq<char>, p: int) -> Option<(int, Seq<Seq<char>>)> {
    if at(s, p, '{') {
        match partial(s, p + 1) {
            Some((q, o)) => {
                let (r, items) = enum_rest(s, q, seq![o]);
                if at(s, r, '}') { Some((r + 1, items)) } else { None }
            },
            None => None,
        }
    } else {
        None
    }
}

/// The code of `c` truncated to a byte.
pub open spec fn byte_of(c: char) -> int {
    (c as int) % 256
}

/// The characters whose codes lie between the bytes of `lo` and `hi`.
pub open spec fn char_range(lo: char, hi: char) -> Set<char> {
    Set::new(|c: char| byte_of(lo) <= (c as int) <= byte_of(hi))
}

/// One item of a character group: a range `x-y` or a single character
/// other than `]`.
pub open spec fn group_atom(s: Seq<char>, p: int) -> Option<(int, Set<char>)> {
    if 0 <= p && p + 2 < s.len() && s[p] != ']' && s[p + 1] == '-' && s[p + 2] != ']' {
        Some((p + 3, char_range(s[p], s[p + 2])))
    } else if 0 <= p < s.len() && s[p] != ']' {
        Some((p + 1, set![s[p]]))
    } else {
        None
    }
}

/// Further items of a character group, gathered into `acc`.
pub open spec fn group_atoms(s: Seq<char>, p: int, acc: Set<char>) -> (int, Set<char>)
    decreases s.len() - p,
{
    match group_atom(s, p) {
        Some((q, cs)) => if p < q <= s.len() { group_atoms(s, q, acc.union(cs)) } else { (p, acc) },
        None => (p, acc),
    }
}

/// `[...]`: a group of characters; a leading `-` stands for itself.
pub open spec fn group_elem(s: Seq<char>, p: int) -> Option<(int, Set<char>)> {
    if at(s, p, '[') {
        let p1 = p + 1;
        let start_dash = at(s, p1, '-');
        let p2 = if start_dash { p1 + 1 } else { p1 };
        match group_atom(s, p2) {
            Some((q, cs)) => {
                let (r, all) = group_atoms(s, q, cs);
                let end_dash = at(s, r, '-');
                let r2 = if end_dash { r + 1 } else { r };
                if at(s, r2, ']') {
                    Some((r2 + 1, if start_dash || end_dash { all.insert('-') } else { all }))
                } else {
                    None
                }
            },
            None => None,
        }
    } else {
        None
    }
}

/// One element of a path word.
pub open spec fn elem(s: Seq<char>, p: int) -> Option<(int, Elem)> {
    match enum_elem(s, p) {
        Some((q, arms)) => Some((q, Elem::Enum(arms))),
        None => match group_elem(s, p) {
            Some((q, cs)) => Some((q, Elem::OneOf(ascending_chars(cs)))),
            None => if at(s, p, '*') {
                Some((p + 1, Elem::Asterisk))
            } else {
                match (if at(s, p, '$') { partial(s, p + 1) } else { None }) {
                    Some((q, v)) => Some((q, Elem::Variable(v))),
                    None => match partial(s, p) {
                        Some((q, v)) => Some((q, Elem::Partial(v))),
                        None => None,
                    },
                }
            },
        },
    }
}

/// Further elements of a word.
pub open spec fn word_rest(s: Seq<char>, p: int, acc: Seq<Elem>) -> (int, Seq<Elem>)
    decreases s.len() - p,
{
    match elem(s, p) {
        Some((q, e)) => if p < q <= s.len() { word_rest(s, q, acc.push(e)) } else { (p, acc) },
        None => (p, acc),
    }
}

/// One or more path elements.
pub open spec fn word(s: Seq<char>, p: int) -> Option<(int, Seq<Elem>)> {
    match elem(s, p) {
        Some((q, e)) => Some(word_rest(s, q, seq![e])),
        None => None,
    }
}

/// Further `.word` parts of a path.
pub open spec fn path_rest(s: Seq<char>, p: int, acc: Seq<Seq<Elem>>) -> (int, Seq<Seq<Elem>>)
    decreases s.len() - p,
{
    if at(s, p, '.') {
        match word(s, p + 1) {
            Some((q, w)) => if p < q <= s.len() { path_rest(s, q, acc.push(w)) } else { (p, acc) },
            None => (p, acc),
        }
    } else {
        (p, acc)
    }
}

/// Words separated by dots. A dot that is not followed by a word is left
/// unread.
pub open spec fn path(s: Seq<char>, p: int) -> Option<(int, Seq<Seq<Elem>>)> {
    match word(s, p) {
        Some((q, w)) => Some(path_rest(s, q, seq![w])),
        None => None,
    }
}

// ---------- literals ----------

/// The end of the run of decimal digits that starts at `p`.
pub open spec fn digits_end(s: Seq<char>, p: int) -> int
    decreases s.len() - p,
{
    if 0 <= p < s.len() && is_digit(s[p]) { digits_end(s, p + 1) } else { p }
}

/// The end of the number `-?d+(.d+)?([eE]-?d+)?` at `p`, if there is one.
pub open spec fn number_end(s: Seq<char>, p: int) -> Option<int> {
    let q0 = if at(s, p, '-') { p + 1 } else { p };
    let q1 = digits_end(s, q0);
    if q1 == q0 {
        None
    } else {
        let q2 = if at(s, q1, '.') && digits_end(s, q1 + 1) > q1 + 1 { digits_end(s, q1 + 1) } else { q1 };
        let q3 = if at(s, q2, 'e') || at(s, q2, 'E') {
            let e0 = if at(s, q2 + 1, '-') { q2 + 2 } else { q2 + 1 };
            if digits_end(s, e0) > e0 { digits_end(s, e0) } else { q2 }
        } else {
            q2
        };
        Some(q3)
    }
}

/// The value of a run of decimal digits.
pub open spec fn digits_value(d: Seq<char>) -> int
    decreases d.len(),
{
    if d.len() == 0 {
        0
    } else {
        digits_value(d.drop_last()) * 10 + ((d.last() as int) - ('0' as int))
    }
}

/// The value of an integer lexeme `-?d+` when it fits in an `i64`.
pub open spec fn int_of_lexeme(lex: Seq<char>) -> Option<int> {
    if lex.len() > 0 && lex[0] == '-' {
        let m = digits_value(lex.drop_first());
        if m <= 0x8000_0000_0000_0000 { Some(-m) } else { None }
    } else {
        let m = digits_value(lex);
        if m < 0x8000_0000_0000_0000 { Some(m) } else { None }
    }
}

/// A number: floating-point when it has a fraction or an exponent, an
/// integer otherwise (which must fit in an `i64`).
pub open spec fn literal_number(s: Seq<char>, p: int) -> Option<(int, Lit)> {
    match number_end(s, p) {
        Some(q) => {
            let lex = s.subrange(p, q);
            if lex.contains('.') || lex.contains('e') || lex.contains('E') {
                Some((q, Lit::Float(lex)))
            } else {
                match int_of_lexeme(lex) {
                    Some(v) => Some((q, Lit::Integer(v))),
                    None => None,
                }
            }
        },
        None => None,
    }
}

/// The decimal writing of `n` is made of digits, and their value is `n`.
proof fn lemma_decimal_value(n: nat)
    ensures
        decimal(n).len() > 0,
        forall|k: int| 0 <= k < decimal(n).len() ==> is_digit(#[trigger] decimal(n)[k]),
        digits_value(decimal(n)) == n,
    decreases n,
{
    let d = decimal(n);
    if n < 10 {
        let c = (('0' as nat) + n) as char;
        assert((c as int) == 48 + n);
        assert(d == seq![c]);
        assert(d.drop_last() =~= Seq::<char>::empty());
        assert(digits_value(d.drop_last()) == 0);
        assert(d.last() == c);
        assert(digits_value(d) == digits_value(d.drop_last()) * 10 + ((c as int) - 48));
    } else {
        lemma_decimal_value(n / 10);
        let c = (('0' as nat) + n % 10) as char;
        assert((c as int) == 48 + n % 10);
        let d1 = decimal(n / 10);
        assert(d == d1.push(c));
        assert(d.drop_last() =~= d1);
        assert forall|k: int| 0 <= k < d.len() implies is_digit(#[trigger] d[k]) by {
            if k < d1.len() {
                assert(d[k] == d1[k]);
            }
        }
        assert((n / 10) * 10 + n % 10 == n);
        assert(d.last() == c);
        assert(digits_value(d) == digits_value(d1) * 10 + ((c as int) - 48));
        assert(digits_value(d1) == n / 10);
    }
}

/// A run of digits from `p` to the end of `s` ends at the end.
proof fn lemma_digits_to_end(s: Seq<char>, p: int)
    requires
        0 <= p <= s.len(),
        forall|k: int| p <= k < s.len() ==> is_digit(#[trigger] s[k]),
    ensures
        digits_end(s, p) == s.len(),
    decreases s.len() - p,
{
    if p < s.len() {
        lemma_digits_to_end(s, p + 1);
    }
}

/// An integer literal is the number it writes: `n` written in decimal reads
/// as the integer `n`, and `-` followed by it as `-n`, whenever the value
/// fits in an `i64` (as `i64::from_str` reads the whole lexeme).
pub proof fn lemma_integer_literal(n: nat, negative: bool)
    requires
        if negative { n <= 0x8000_0000_0000_0000 } else { n < 0x8000_0000_0000_0000 },
    ensures
        ({
            let text = if negative { seq!['-'] + decimal(n) } else { decimal(n) };
            literal_number(text, 0) == Some((text.len() as int, Lit::Integer(if negative { -(n as int) } else { n as int })))
        }),
{
    lemma_decimal_value(n);
    let d = decimal(n);
    let text = if negative { seq!['-'] + d } else { d };
    let q0: int = if negative { 1 } else { 0 };
    assert(at(text, 0, '-') == negative) by {
        if !negative {
            assert(is_digit(d[0]));
        }
    }
    assert forall|k: int| q0 <= k < text.len() implies is_digit(#[trigger] text[k]) by {
        assert(text[k] == d[k - q0]);
    }
    lemma_digits_to_end(text, q0);
    assert(number_end(text, 0) == Some(text.len() as int));
    let lex = text.subrange(0, text.len() as int);
    assert(lex =~= text);
    assert forall|c: char| c == '.' || c == 'e' || c == 'E' implies !lex.contains(c) by {
        if lex.contains(c) {
            let k = choose|k: int| 0 <= k < lex.len() && lex[k] == c;
            if k >= q0 {
                assert(is_digit(text[k]));
            }
        }
    }
    if negative {
        assert(lex.drop_first() =~= d);
    }
}

/// The first position at or after `p` that holds `c`, or the end.
pub open spec fn find_char(s: Seq<char>, p: int, c: char) -> int
    decreases s.len() - p,
{
    if 0 <= p < s.len() && s[p] != c { find_char(s, p + 1, c) } else { p }
}

/// A string in double or single quotes, without escapes.
pub open spec fn literal_string(s: Seq<char>, p: int) -> Option<(int, Lit)> {
    if at(s, p, '"') || at(s, p, '\'') {
        let quote = s[p];
        let q = find_char(s, p + 1, quote);
        if at(s, q, quote) { Some((q + 1, Lit::Str(s.subrange(p + 1, q)))) } else { None }
    } else {
        None
    }
}

/// `true` or `false` in any letter case.
pub open spec fn literal_boolean(s: Seq<char>, p: int) -> Option<(int, Lit)> {
    if tag_no_case(s, p, seq!['t', 'r', 'u', 'e']) {
        Some((p + 4, Lit::Boolean(true)))
    } else if tag_no_case(s, p, seq!['f', 'a', 'l', 's', 'e']) {
        Some((p + 5, Lit::Boolean(false)))
    } else {
        None
    }
}

/// `none` in any letter case.
pub open spec fn literal_none(s: Seq<char>, p: int) -> Option<(int, Lit)> {
    if tag_no_case(s, p, seq!['n', 'o', 'n', 'e']) { Some((p + 4, Lit::Nothing)) } else { None }
}

/// A literal: boolean, number, string or none, tried in that order.
pub open spec fn literal_value(s: Seq<char>, p: int) -> Option<(int, Lit)> {
    match literal_boolean(s, p) {
        Some(r) => Some(r),
        None => match literal_number(s, p) {
            Some(r) => Some(r),
            None => match literal_string(s, p) {
                Some(r) => Some(r),
                None => literal_none(s, p),
            },
        },
    }
}

/// The end of the run of identifier characters that starts at `p`.
pub open spec fn ident_end(s: Seq<char>, p: int) -> int
    decreases s.len() - p,
{
    if 0 <= p < s.len() && is_ident_char(s[p]) { ident_end(s, p + 1) } else { p }
}

/// An identifier `[A-Za-z_][A-Za-z0-9_]*`.
pub open spec fn ident(s: Seq<char>, p: int) -> Option<(int, Seq<char>)> {
    if 0 <= p < s.len() && is_ident_start(s[p]) {
        let q = ident_end(s, p + 1);
        Some((q, s.subrange(p, q)))
    } else {
        None
    }
}

/// An optional `name=` prefix: the position after it and the name.
pub open spec fn arg_name(s: Seq<char>, p: int) -> (int, Option<Seq<char>>) {
    match ident(s, p) {
        Some((q, n)) => if at(s, q, '=') { (q + 1, Some(n)) } else { (p, None) },
        None => (p, None),
    }
}

// ---------- arguments ----------

/// The number of leading arguments that have no name.
pub open spec fn positional_count<N, T>(all: Seq<(Option<N>, T)>) -> nat
    decreases all.len(),
{
    if all.len() > 0 && all[0].0 is None { 1 + positional_count(all.drop_first()) } else { 0 }
}

/// Splits arguments into the positional ones and the named ones; fails when
/// a positional argument follows a named one.
pub open spec fn split_args<N, T>(all: Seq<(Option<N>, T)>) -> Option<(Seq<T>, Seq<(N, T)>)> {
    let k = positional_count(all) as int;
    if forall|j: int| k <= j < all.len() ==> (#[trigger] all[j]).0 is Some {
        Some((
            all.take(k).map_values(|x: (Option<N>, T)| x.1),
            all.skip(k).map_values(|x: (Option<N>, T)| (x.0->0, x.1)),
        ))
    } else {
        None
    }
}

/// Splitting keeps every argument: the positional ones come first, in
/// order, and then the named ones, in order.
pub proof fn lemma_split_args_keeps_all<N, T>(all: Seq<(Option<N>, T)>)
    ensures
        split_args(all) matches Some((a, n)) ==> {
            &&& a.len() + n.len() == all.len()
            &&& forall|i: int| 0 <= i < a.len() ==> all[i].0 is None && #[trigger] a[i] == all[i].1
            &&& forall|j: int| 0 <= j < n.len() ==> all[a.len() + j].0 == Some(#[trigger] n[j].0) && n[j].1 == all[a.len() + j].1
        },
{
    lemma_positional_prefix(all);
}

/// The first `positional_count` arguments are positional.
proof fn lemma_positional_prefix<N, T>(all: Seq<(Option<N>, T)>)
    ensures
        positional_count(all) <= all.len(),
        forall|i: int| 0 <= i < positional_count(all) ==> (#[trigger] all[i]).0 is None,
    decreases all.len(),
{
    if all.len() > 0 && all[0].0 is None {
        lemma_positional_prefix(all.drop_first());
        assert forall|i: int| 0 <= i < positional_count(all) implies (#[trigger] all[i]).0 is None by {
            if i > 0 {
                assert(all[i] == all.drop_first()[i - 1]);
            }
        }
    }
}

/// `name=literal` or `literal`.
pub open spec fn template_arg(s: Seq<char>, p: int) -> Option<(int, (Option<Seq<char>>, Lit))> {
    let (p1, name) = arg_name(s, p);
    match literal_value(s, p1) {
        Some((q, l)) => Some((q, (name, l))),
        None => None,
    }
}

/// Further `,template_arg` items.
pub open spec fn template_args_rest(s: Seq<char>, p: int, acc: Seq<(Option<Seq<char>>, Lit)>) -> (int, Seq<(Option<Seq<char>>, Lit)>)
    decreases s.len() - p,
{
    if at(s, p, ',') {
        match template_arg(s, p + 1) {
            Some((q, a)) => if p < q <= s.len() { template_args_rest(s, q, acc.push(a)) } else { (p, acc) },
            None => (p, acc),
        }
    } else {
        (p, acc)
    }
}

/// Wraps `base` into each piped call in turn, as its first argument.
pub open spec fn wrap_pipes(base: ExprM, calls: Seq<CallM>) -> ExprM
    decreases calls.len(),
{
    if calls.len() == 0 {
        base
    } else {
        let c = calls[0];
        wrap_pipes(
            ExprM::Call(CallM { function: c.function, args: seq![ArgM::Expression(base)] + c.args, named_args: c.named_args }),
            calls.drop_first(),
        )
    }
}

/// The first part of an expression: a template, a call or a path.
pub open spec fn expression_base(s: Seq<char>, p: int) -> Option<(int, ExprM)>
    decreases s.len() - p, 5int,
{
    match template(s, p) {
        Some((q, t)) => Some((q, ExprM::Template(t))),
        None => match call(s, p) {
            Some((q, c)) => Some((q, ExprM::Call(c))),
            None => match path(s, p) {
                Some((q, w)) => Some((q, ExprM::Path(w))),
                None => None,
            },
        },
    }
}

/// An expression: a template, a call or a path, followed by `|call` pipes.
pub open spec fn expression(s: Seq<char>, p: int) -> Option<(int, ExprM)>
    decreases s.len() - p, 6int,
{
    if p < 0 || p > s.len() {
        None
    } else {
        match expression_base(s, p) {
            Some((q, b)) => if p < q <= s.len() {
                let (r, calls) = pipes(s, q, Seq::empty());
                Some((r, wrap_pipes(b, calls)))
            } else {
                None
            },
            None => None,
        }
    }
}

/// `|call` pipes, gathered into `acc`.
pub open spec fn pipes(s: Seq<char>, p: int, acc: Seq<CallM>) -> (int, Seq<CallM>)
    decreases s.len() - p, 4int,
{
    if at(s, p, '|') {
        match call(s, p + 1) {
            Some((q, c)) => if p < q <= s.len() { pipes(s, q, acc.push(c)) } else { (p, acc) },
            None => (p, acc),
        }
    } else {
        (p, acc)
    }
}

/// `template(source[,args])`.
pub open spec fn template(s: Seq<char>, p: int) -> Option<(int, TemplateM)>
    decreases s.len() - p, 3int,
{
    if 0 <= p && tag(s, p, template_word()) && at(s, p + 8, '(') {
        match source(s, p + 9) {
            Some((q, src)) => if p + 9 <= q <= s.len() {
                let (r, all) = if at(s, q, ',') {
                    match template_arg(s, q + 1) {
                        Some((q2, a)) => template_args_rest(s, q2, seq![a]),
                        None => (q, Seq::empty()),
                    }
                } else {
                    (q, Seq::empty())
                };
                if at(s, r, ')') {
                    match split_args(all) {
                        Some((a, n)) => Some((r + 1, TemplateM { source: src, args: a, named_args: n })),
                        None => None,
                    }
                } else {
                    None
                }
            } else {
                None
            },
            None => None,
        }
    } else {
        None
    }
}

/// A call or a path.
pub open spec fn source(s: Seq<char>, p: int) -> Option<(int, SourceM)>
    decreases s.len() - p, 2int,
{
    match call(s, p) {
        Some((q, c)) => Some((q, SourceM::Call(c))),
        None => match path(s, p) {
            Some((q, w)) => Some((q, SourceM::Path(w))),
            None => None,
        },
    }
}

/// `name(args)`.
pub open spec fn call(s: Seq<char>, p: int) -> Option<(int, CallM)>
    decreases s.len() - p, 1int,
{
    match ident(s, p) {
        Some((q, name)) => if p < q < s.len() && s[q] == '(' {
            let (r, items) = call_items(s, q + 1);
            if at(s, r, ')') {
                match split_args(items) {
                    Some((a, n)) => Some((r + 1, CallM { function: name, args: a, named_args: n })),
                    None => None,
                }
            } else {
                None
            }
        } else {
            None
        },
        None => None,
    }
}

/// Zero or more call arguments separated by commas.
pub open spec fn call_items(s: Seq<char>, p: int) -> (int, Seq<(Option<Seq<char>>, ArgM)>)
    decreases s.len() - p, 10int,
{
    if p < 0 || p > s.len() {
        (p, Seq::empty())
    } else {
        match call_arg(s, p) {
            Some((q, it)) => if p <= q <= s.len() { call_items_rest(s, q, seq![it]) } else { (p, Seq::empty()) },
            None => (p, Seq::empty()),
        }
    }
}

/// Further `,call_arg` items.
pub open spec fn call_items_rest(s: Seq<char>, p: int, acc: Seq<(Option<Seq<char>>, ArgM)>) -> (int, Seq<(Option<Seq<char>>, ArgM)>)
    decreases s.len() - p, 9int,
{
    if at(s, p, ',') {
        match call_arg(s, p + 1) {
            Some((q, it)) => if p < q <= s.len() { call_items_rest(s, q, acc.push(it)) } else { (p, acc) },
            None => (p, acc),
        }
    } else {
        (p, acc)
    }
}

/// `name=arg` or `arg`.
pub open spec fn call_arg(s: Seq<char>, p: int) -> Option<(int, (Option<Seq<char>>, ArgM))>
    decreases s.len() - p, 8int,
{
    let (p1, name) = arg_name(s, p);
    if 0 <= p <= p1 <= s.len() {
        match arg(s, p1) {
            Some((q, a)) => Some((q, (name, a))),
            None => None,
        }
    } else {
        None
    }
}

/// A literal, or else an expression.
pub open spec fn arg(s: Seq<char>, p: int) -> Option<(int, ArgM)>
    decreases s.len() - p, 7int,
{
    match literal_value(s, p) {
        Some((q, l)) => Some((q, ArgM::Literal(l))),
        None => match expression(s, p) {
            Some((q, e)) => Some((q, ArgM::Expression(e))),
            None => None,
        },
    }
}

// ---------- whole inputs ----------

/// The path expression that the whole of `s` spells, if any.
pub open spec fn parse_path(s: Seq<char>) -> Option<Seq<Seq<Elem>>> {
    match path(s, 0) {
        Some((q, w)) => if q == s.len() { Some(w) } else { None },
        None => None,
    }
}

/// The expression that the whole of `s` spells, if any.
pub open spec fn parse_expr(s: Seq<char>) -> Option<ExprM> {
    match expression(s, 0) {
        Some((q, e)) => if q == s.len() { Some(e) } else { None },
        None => None,
    }
}

} // verus!
