//! Executable parsers for render targets; each one computes exactly what the
//! function of the same name in `grammar` describes.
use vstd::prelude::*;
use crate::render_target::ast::{
    args_m, named_args_m, lits_m, named_lits_m, lemma_args_m_len, lemma_named_args_m_len,
    Arg, ArgM, Call, CallM, Expression, Lit, LiteralValue, PathElement,
    PathExpression, PathWord, Source, Template, elem_wf, path_wf, word_wf, strictly_sorted,
    lemma_ascending_chars, arg_sorted, call_sorted, expr_sorted, source_sorted, lemma_path_sorted,
};
use crate::render_target::grammar;
use crate::text::is_digit;

verus! {

fn is_digit_char(c: char) -> (b: bool)
    ensures
        b == is_digit(c),
{
    '0' <= c && c <= '9'
}

fn is_path_char(c: char) -> (b: bool)
    ensures
        b == grammar::is_path_char(c),
{
    ('0' <= c && c <= '9') || ('A' <= c && c <= 'Z') || ('a' <= c && c <= 'z') || c == '!'
        || c == '#' || c == '%' || c == '&' || c == '+' || c == '-' || c == '/' || c == ':'
        || c == ';' || c == '<' || c == '=' || c == '>' || c == '?' || c == '@' || c == '^'
        || c == '_' || c == '`' || c == '~'
}

fn is_escapable(c: char) -> (b: bool)
    ensures
        b == grammar::is_escapable(c),
{
    c == '(' || c == ')' || c == '{' || c == '}' || c == '[' || c == ']' || c == ',' || c == '.'
        || c == '\'' || c == '"' || c == '\\' || c == '|' || c == '=' || c == '$'
}

fn is_ident_start(c: char) -> (b: bool)
    ensures
        b == grammar::is_ident_start(c),
{
    ('A' <= c && c <= 'Z') || ('a' <= c && c <= 'z') || c == '_'
}

fn is_ident_char(c: char) -> (b: bool)
    ensures
        b == grammar::is_ident_char(c),
{
    is_ident_start(c) || is_digit_char(c)
}

fn at(s: &[char], p: usize, c: char) -> (b: bool)
    ensures
        b == grammar::at(s@, p as int, c),
{
    p < s.len() && s[p] == c
}

/// A non-empty run of (possibly escaped) path characters.
pub fn partial(s: &[char], p: usize) -> (r: Option<(usize, String)>)
    requires
        p <= s.len(),
    ensures
        match r {
            Some((q, v)) => grammar::partial(s@, p as int) == Some((q as int, v@)) && p < q <= s.len(),
            None => grammar::partial(s@, p as int) is None,
        },
{
    let mut i = p;
    let mut out = String::new();
    loop
        invariant
            p <= i <= s.len(),
            out@.len() <= i - p,
            (out@.len() == 0) == (i == p),
            grammar::escaped_scan(s@, p as int, Seq::empty()) == grammar::escaped_scan(s@, i as int, out@),
        ensures
            grammar::escaped_scan(s@, i as int, out@) == Some((i as int, out@)),
        decreases s.len() - i,
    {
        if i >= s.len() {
            break;
        }
        let c = s[i];
        if is_path_char(c) {
            out.push(c);
            i = i + 1;
        } else if c == '\\' {
            if i + 1 >= s.len() {
                return None;
            }
            let d = s[i + 1];
            if is_escapable(d) {
                out.push(d);
                i = i + 2;
            } else {
                return None;
            }
        } else {
            break;
        }
    }
    if i == p {
        None
    } else {
        Some((i, out))
    }
}


/// `{a,b,c}`
pub fn enum_elem(s: &[char], p: usize) -> (r: Option<(usize, Vec<String>)>)
    requires
        p <= s.len(),
    ensures
        match r {
            Some((q, v)) => grammar::enum_elem(s@, p as int) == Some((q as int, v.deep_view())) && p < q <= s.len(),
            None => grammar::enum_elem(s@, p as int) is None,
        },
{
    if !at(s, p, '{') {
        return None;
    }
    let (q, first) = match partial(s, p + 1) {
        Some(x) => x,
        None => return None,
    };
    let mut items: Vec<String> = Vec::new();
    items.push(first);
    let mut i = q;
    proof {
        assert(items.deep_view() =~= seq![first@]);
    }
    loop
        invariant
            p < i <= s.len(),
            grammar::enum_rest(s@, q as int, seq![first@]) == grammar::enum_rest(s@, i as int, items.deep_view()),
        ensures
            grammar::enum_rest(s@, i as int, items.deep_view()) == (i as int, items.deep_view()),
        decreases s.len() - i,
    {
        if !at(s, i, ',') {
            break;
        }
        match partial(s, i + 1) {
            Some((q2, o)) => {
                let ghost before = items.deep_view();
                items.push(o);
                proof {
                    assert(items.deep_view() =~= before.push(o@));
                }
                i = q2;
            },
            None => break,
        }
    }
    if at(s, i, '}') {
        Some((i + 1, items))
    } else {
        None
    }
}

/// Adds `c` to a strictly sorted list of characters, keeping it sorted.
pub(crate) fn insert_char(v: &mut Vec<char>, c: char)
    requires
        strictly_sorted(old(v)@),
    ensures
        strictly_sorted(final(v)@),
        final(v)@.to_set() == old(v)@.to_set().insert(c),
{
    let mut i: usize = 0;
    while i < v.len() && v[i] < c
        invariant
            i <= v.len(),
            forall|j: int| 0 <= j < i ==> (v@[j] as int) < (c as int),
        decreases v.len() - i,
    {
        i = i + 1;
    }
    if i < v.len() && v[i] == c {
        assert(v@.to_set() =~= v@.to_set().insert(c));
        return;
    }
    let ghost before = v@;
    v.insert(i, c);
    assert(v@ =~= before.take(i as int).push(c) + before.skip(i as int));
    assert forall|x: char| #[trigger] v@.contains(x) <==> (before.contains(x) || x == c) by {
        if v@.contains(x) {
            let k = choose|k: int| 0 <= k < v@.len() && v@[k] == x;
            if k < i {
                assert(before[k] == x);
            } else if k > i {
                assert(before[k - 1] == x);
            }
        }
        if before.contains(x) {
            let k = choose|k: int| 0 <= k < before.len() && before[k] == x;
            if k < i {
                assert(v@[k] == x);
            } else {
                assert(v@[k + 1] == x);
            }
        }
        if x == c {
            assert(v@[i as int] == c);
        }
    }
    assert(v@.to_set() =~= before.to_set().insert(c));
    assert forall|a: int, b: int| 0 <= a < b < v@.len() implies (v@[a] as int) < (v@[b] as int) by {
        if b < i {
        } else if b == i {
        } else if a < i {
            assert((c as int) <= (before[b - 1] as int)) by {
                if i < before.len() {
                    assert((c as int) <= (before[i as int] as int));
                }
            }
        } else if a == i {
            assert((c as int) <= (before[i as int] as int));
        } else {
        }
    }
}

fn byte_code(c: char) -> (b: u32)
    ensures
        b as int == grammar::byte_of(c),
{
    (c as u32) % 256
}

/// Adds the characters whose codes lie in `lo..=hi` (both below 256).
fn insert_range(v: &mut Vec<char>, lo: u32, hi: u32)
    requires
        strictly_sorted(old(v)@),
        lo < 256,
        hi < 256,
    ensures
        strictly_sorted(final(v)@),
        final(v)@.to_set() == old(v)@.to_set().union(Set::new(|c: char| lo <= (c as int) <= hi)),
{
    let ghost start = v@.to_set();
    if lo > hi {
        assert(start.union(Set::new(|c: char| lo <= (c as int) <= hi)) =~= start);
        return;
    }
    let mut k: u32 = lo;
    while k <= hi
        invariant
            lo <= k <= hi + 1,
            hi < 256,
            strictly_sorted(v@),
            v@.to_set() == start.union(Set::new(|c: char| lo <= (c as int) < k)),
        decreases hi + 1 - k,
    {
        let ch: char = (k as u8) as char;
        assert(ch as int == k);
        let ghost before = v@.to_set();
        insert_char(v, ch);
        k = k + 1;
        assert(v@.to_set() =~= start.union(Set::new(|c: char| lo <= (c as int) < k)));
    }
    assert(v@.to_set() =~= start.union(Set::new(|c: char| lo <= (c as int) <= hi)));
}

/// One item of a character group.
fn group_atom(s: &[char], p: usize, v: &mut Vec<char>) -> (r: Option<usize>)
    requires
        p <= s.len(),
        strictly_sorted(old(v)@),
    ensures
        strictly_sorted(final(v)@),
        match r {
            Some(q) => match grammar::group_atom(s@, p as int) {
                Some((q2, cs)) => q2 == q && final(v)@.to_set() == old(v)@.to_set().union(cs) && p < q <= s.len(),
                None => false,
            },
            None => grammar::group_atom(s@, p as int) is None && final(v)@ == old(v)@,
        },
{
    if p < s.len() && s.len() - p > 2 && s[p] != ']' && s[p + 1] == '-' && s[p + 2] != ']' {
        let lo = byte_code(s[p]);
        let hi = byte_code(s[p + 2]);
        insert_range(v, lo, hi);
        proof {
            assert(Set::new(|c: char| lo <= (c as int) <= hi) =~= grammar::char_range(s@[p as int], s@[p + 2]));
        }
        Some(p + 3)
    } else if p < s.len() && s[p] != ']' {
        let ghost before = v@.to_set();
        insert_char(v, s[p]);
        proof {
            assert(before.insert(s@[p as int]) =~= before.union(set![s@[p as int]]));
        }
        Some(p + 1)
    } else {
        None
    }
}

/// `[...]`
pub fn group_elem(s: &[char], p: usize) -> (r: Option<(usize, Vec<char>)>)
    requires
        p <= s.len(),
    ensures
        match r {
            Some((q, v)) => grammar::group_elem(s@, p as int) == Some((q as int, v@.to_set()))
                && strictly_sorted(v@) && p < q <= s.len(),
            None => grammar::group_elem(s@, p as int) is None,
        },
{
    if !at(s, p, '[') {
        return None;
    }
    let p1 = p + 1;
    let start_dash = at(s, p1, '-');
    let p2 = if start_dash { p1 + 1 } else { p1 };
    let mut v: Vec<char> = Vec::new();
    let q = match group_atom(s, p2, &mut v) {
        Some(q) => q,
        None => return None,
    };
    let ghost cs = v@.to_set();
    proof {
        let spec_cs = grammar::group_atom(s@, p2 as int).unwrap().1;
        assert(Seq::<char>::empty().to_set() =~= Set::<char>::empty());
        assert(Set::<char>::empty().union(spec_cs) =~= spec_cs);
    }
    let mut i = q;
    loop
        invariant
            p2 < i <= s.len(),
            p2 < q,
            strictly_sorted(v@),
            grammar::group_atoms(s@, q as int, cs) == grammar::group_atoms(s@, i as int, v@.to_set()),
        ensures
            grammar::group_atoms(s@, i as int, v@.to_set()) == (i as int, v@.to_set()),
        decreases s.len() - i,
    {
        let ghost before = v@.to_set();
        match group_atom(s, i, &mut v) {
            Some(q2) => {
                i = q2;
            },
            None => break,
        }
    }
    let end_dash = at(s, i, '-');
    let r2 = if end_dash { i + 1 } else { i };
    if !at(s, r2, ']') {
        return None;
    }
    if start_dash || end_dash {
        let ghost before = v@.to_set();
        insert_char(&mut v, '-');
    }
    Some((r2 + 1, v))
}


/// One element of a path word.
pub fn elem(s: &[char], p: usize) -> (r: Option<(usize, PathElement)>)
    requires
        p <= s.len(),
    ensures
        match r {
            Some((q, e)) => grammar::elem(s@, p as int) == Some((q as int, e@)) && elem_wf(e) && p < q <= s.len(),
            None => grammar::elem(s@, p as int) is None,
        },
{
    if let Some((q, arms)) = enum_elem(s, p) {
        return Some((q, PathElement::Enum(arms)));
    }
    if let Some((q, cs)) = group_elem(s, p) {
        proof {
            lemma_ascending_chars(cs@);
        }
        return Some((q, PathElement::OneOf(cs)));
    }
    if at(s, p, '*') {
        return Some((p + 1, PathElement::Asterisk));
    }
    if at(s, p, '$') {
        if let Some((q, v)) = partial(s, p + 1) {
            return Some((q, PathElement::Variable(v)));
        }
    }
    match partial(s, p) {
        Some((q, v)) => Some((q, PathElement::Partial(v))),
        None => None,
    }
}

/// One or more path elements.
pub fn word(s: &[char], p: usize) -> (r: Option<(usize, PathWord)>)
    requires
        p <= s.len(),
    ensures
        match r {
            Some((q, w)) => grammar::word(s@, p as int) == Some((q as int, w@)) && word_wf(w) && p < q <= s.len(),
            None => grammar::word(s@, p as int) is None,
        },
{
    let (q, first) = match elem(s, p) {
        Some(x) => x,
        None => return None,
    };
    let ghost fm = first@;
    let mut elems: Vec<PathElement> = Vec::new();
    elems.push(first);
    let mut i = q;
    proof {
        assert(elems@.map_values(|e: PathElement| e@) =~= seq![fm]);
    }
    loop
        invariant
            p < i <= s.len(),
            forall|k: int| 0 <= k < elems@.len() ==> #[trigger] elem_wf(elems@[k]),
            grammar::word_rest(s@, q as int, seq![fm]) == grammar::word_rest(s@, i as int, elems@.map_values(|e: PathElement| e@)),
        ensures
            grammar::word_rest(s@, i as int, elems@.map_values(|e: PathElement| e@)) == (i as int, elems@.map_values(|e: PathElement| e@)),
        decreases s.len() - i,
    {
        match elem(s, i) {
            Some((q2, e)) => {
                let ghost before = elems@;
                elems.push(e);
                proof {
                    assert(elems@.map_values(|e: PathElement| e@) =~= before.map_values(|e: PathElement| e@).push(e@));
                }
                i = q2;
            },
            None => break,
        }
    }
    let w = PathWord(elems);
    proof {
        assert(w@ =~= w.0@.map_values(|e: PathElement| e@));
    }
    Some((i, w))
}

/// Words separated by dots.
pub fn path(s: &[char], p: usize) -> (r: Option<(usize, PathExpression)>)
    requires
        p <= s.len(),
    ensures
        match r {
            Some((q, w)) => grammar::path(s@, p as int) == Some((q as int, w@)) && path_wf(w) && p < q <= s.len(),
            None => grammar::path(s@, p as int) is None,
        },
{
    let (q, first) = match word(s, p) {
        Some(x) => x,
        None => return None,
    };
    let ghost fm = first@;
    let mut words: Vec<PathWord> = Vec::new();
    words.push(first);
    let mut i = q;
    proof {
        assert(words@.map_values(|w: PathWord| w@) =~= seq![fm]);
    }
    loop
        invariant
            p < i <= s.len(),
            forall|k: int| 0 <= k < words@.len() ==> #[trigger] word_wf(words@[k]),
            grammar::path_rest(s@, q as int, seq![fm]) == grammar::path_rest(s@, i as int, words@.map_values(|w: PathWord| w@)),
        ensures
            grammar::path_rest(s@, i as int, words@.map_values(|w: PathWord| w@)) == (i as int, words@.map_values(|w: PathWord| w@)),
        decreases s.len() - i,
    {
        if !at(s, i, '.') {
            break;
        }
        match word(s, i + 1) {
            Some((q2, w)) => {
                let ghost before = words@;
                words.push(w);
                proof {
                    assert(words@.map_values(|w: PathWord| w@) =~= before.map_values(|w: PathWord| w@).push(w@));
                }
                i = q2;
            },
            None => break,
        }
    }
    let e = PathExpression(words);
    proof {
        assert(e@ =~= e.0@.map_values(|w: PathWord| w@));
    }
    Some((i, e))
}


/// The end of the run of decimal digits that starts at `p`.
fn digits_end(s: &[char], p: usize) -> (e: usize)
    requires
        p <= s.len(),
    ensures
        e as int == grammar::digits_end(s@, p as int),
        p <= e <= s.len(),
{
    let mut i = p;
    while i < s.len() && is_digit_char(s[i])
        invariant
            p <= i <= s.len(),
            grammar::digits_end(s@, p as int) == grammar::digits_end(s@, i as int),
        decreases s.len() - i,
    {
        i = i + 1;
    }
    i
}

proof fn lemma_digits_end(s: Seq<char>, p: int)
    requires
        0 <= p <= s.len(),
    ensures
        p <= grammar::digits_end(s, p) <= s.len(),
        forall|k: int| p <= k < grammar::digits_end(s, p) ==> is_digit(#[trigger] s[k]),
    decreases s.len() - p,
{
    if p < s.len() && is_digit(s[p]) {
        lemma_digits_end(s, p + 1);
    }
}

proof fn lemma_digits_value_step(d: Seq<char>, k: int)
    requires
        0 <= k < d.len(),
    ensures
        grammar::digits_value(d.take(k + 1)) == grammar::digits_value(d.take(k)) * 10 + ((d[k] as int) - ('0' as int)),
{
    assert(d.take(k + 1).drop_last() =~= d.take(k));
}

proof fn lemma_digits_value_mono(d: Seq<char>, k: int)
    requires
        0 <= k <= d.len(),
        forall|i: int| 0 <= i < d.len() ==> is_digit(#[trigger] d[i]),
    ensures
        0 <= grammar::digits_value(d.take(k)) <= grammar::digits_value(d),
    decreases d.len(),
{
    if k == d.len() {
        assert(d.take(k) =~= d);
        if d.len() > 0 {
            lemma_digits_value_mono(d.drop_last(), k - 1);
            assert(d.drop_last().take(k - 1) =~= d.drop_last());
        }
    } else {
        lemma_digits_value_mono(d.drop_last(), k);
        assert(d.drop_last().take(k) =~= d.take(k));
        lemma_digits_value_mono(d.drop_last(), d.len() - 1);
        assert(d.drop_last().take(d.len() - 1) =~= d.drop_last());
    }
}

/// The value of the digits `s[from..to]` when it fits in an `i64` (as a
/// negative number when `negative`).
fn int_value(s: &[char], from: usize, to: usize, negative: bool) -> (r: Option<i64>)
    requires
        from <= to <= s.len(),
        forall|k: int| from <= k < to ==> is_digit(#[trigger] s@[k]),
    ensures
        ({
            let m = grammar::digits_value(s@.subrange(from as int, to as int));
            let fits = if negative { m <= 0x8000_0000_0000_0000 } else { m < 0x8000_0000_0000_0000 };
            match r {
                Some(v) => fits && v as int == (if negative { -m } else { m }),
                None => !fits,
            }
        }),
{
    let ghost d = s@.subrange(from as int, to as int);
    let mut acc: u64 = 0;
    let mut i = from;
    while i < to
        invariant
            from <= i <= to <= s.len(),
            d == s@.subrange(from as int, to as int),
            forall|k: int| from <= k < to ==> is_digit(#[trigger] s@[k]),
            acc as int == grammar::digits_value(d.take(i - from)),
            acc <= 0x8000_0000_0000_0000,
        decreases to - i,
    {
        proof {
            lemma_digits_value_step(d, i - from);
        }
        let dv: u64 = ((s[i] as u32) - 48) as u64;
        if acc > 922_337_203_685_477_580 || (acc == 922_337_203_685_477_580 && dv > 8) {
            proof {
                assert forall|k: int| 0 <= k < d.len() implies is_digit(#[trigger] d[k]) by {
                    assert(d[k] == s@[from + k]);
                }
                lemma_digits_value_mono(d, i - from + 1);
            }
            return None;
        }
        acc = acc * 10 + dv;
        i = i + 1;
    }
    assert(d.take(to - from) =~= d);
    if negative {
        if acc == 0x8000_0000_0000_0000 {
            Some(i64::MIN)
        } else {
            Some(-(acc as i64))
        }
    } else {
        if acc == 0x8000_0000_0000_0000 {
            None
        } else {
            Some(acc as i64)
        }
    }
}

/// Whether `s[from..to]` holds one of `.`, `e`, `E`.
fn has_float_mark(s: &[char], from: usize, to: usize) -> (b: bool)
    requires
        from <= to <= s.len(),
    ensures
        b == ({
            let lex = s@.subrange(from as int, to as int);
            lex.contains('.') || lex.contains('e') || lex.contains('E')
        }),
{
    let ghost lex = s@.subrange(from as int, to as int);
    let mut i = from;
    while i < to
        invariant
            from <= i <= to <= s.len(),
            lex == s@.subrange(from as int, to as int),
            forall|k: int| from <= k < i ==> s@[k] != '.' && s@[k] != 'e' && s@[k] != 'E',
        decreases to - i,
    {
        if s[i] == '.' || s[i] == 'e' || s[i] == 'E' {
            assert(lex[i - from] == s@[i as int]);
            return true;
        }
        i = i + 1;
    }
    assert forall|c: char| (c == '.' || c == 'e' || c == 'E') implies !lex.contains(c) by {
        if lex.contains(c) {
            let k = choose|k: int| 0 <= k < lex.len() && lex[k] == c;
            assert(s@[from + k] == c);
        }
    }
    false
}

/// A number.
pub fn literal_number(s: &[char], p: usize) -> (r: Option<(usize, LiteralValue)>)
    requires
        p <= s.len(),
    ensures
        match r {
            Some((q, v)) => grammar::literal_number(s@, p as int) == Some((q as int, v@)) && p < q <= s.len(),
            None => grammar::literal_number(s@, p as int) is None,
        },
{
    let negative = at(s, p, '-');
    let q0 = if negative { p + 1 } else { p };
    let q1 = digits_end(s, q0);
    if q1 == q0 {
        return None;
    }
    let q2 = if at(s, q1, '.') && digits_end(s, q1 + 1) > q1 + 1 { digits_end(s, q1 + 1) } else { q1 };
    let q3 = if at(s, q2, 'e') || at(s, q2, 'E') {
        let e0 = if at(s, q2 + 1, '-') { q2 + 2 } else { q2 + 1 };
        if digits_end(s, e0) > e0 { digits_end(s, e0) } else { q2 }
    } else {
        q2
    };
    proof {
        assert(grammar::number_end(s@, p as int) == Some(q3 as int));
    }
    if has_float_mark(s, p, q3) {
        Some((q3, LiteralValue::Float(crate::text::string_of_range(s, p, q3))))
    } else {
        proof {
            lemma_digits_end(s@, q0 as int);
            let lex = s@.subrange(p as int, q3 as int);
            if q2 > q1 {
                assert(lex[q1 - p] == '.');
            }
            if q3 > q2 {
                assert(lex[q2 - p] == 'e' || lex[q2 - p] == 'E');
            }
            assert(q3 == q1);
            if negative {
                assert(lex.drop_first() =~= s@.subrange(q0 as int, q1 as int));
            } else {
                assert(lex =~= s@.subrange(q0 as int, q1 as int));
            }
        }
        match int_value(s, q0, q1, negative) {
            Some(v) => Some((q3, LiteralValue::Integer(v))),
            None => None,
        }
    }
}

/// A string in double or single quotes.
pub fn literal_string(s: &[char], p: usize) -> (r: Option<(usize, LiteralValue)>)
    requires
        p <= s.len(),
    ensures
        match r {
            Some((q, v)) => grammar::literal_string(s@, p as int) == Some((q as int, v@)) && p < q <= s.len(),
            None => grammar::literal_string(s@, p as int) is None,
        },
{
    if !(at(s, p, '"') || at(s, p, '\'')) {
        return None;
    }
    let quote = s[p];
    let mut i = p + 1;
    while i < s.len() && s[i] != quote
        invariant
            p < i <= s.len(),
            grammar::find_char(s@, p + 1, quote) == grammar::find_char(s@, i as int, quote),
        decreases s.len() - i,
    {
        i = i + 1;
    }
    if at(s, i, quote) {
        Some((i + 1, LiteralValue::Str(crate::text::string_of_range(s, p + 1, i))))
    } else {
        None
    }
}

fn ascii_lower(c: char) -> (d: char)
    ensures
        d == grammar::ascii_lower(c),
{
    if 'A' <= c && c <= 'Z' {
        (((c as u32) + 32) as u8) as char
    } else {
        c
    }
}

/// `s` holds, at `p`, the lower-case ASCII word `t` in any letter case.
fn tag_no_case(s: &[char], p: usize, t: &[char]) -> (b: bool)
    requires
        p <= s.len(),
    ensures
        b == grammar::tag_no_case(s@, p as int, t@),
{
    if t.len() > s.len() - p {
        return false;
    }
    let mut i: usize = 0;
    while i < t.len()
        invariant
            i <= t.len(),
            p + t.len() <= s.len(),
            forall|k: int| 0 <= k < i ==> #[trigger] grammar::ascii_lower(s@[p + k]) == t@[k],
        decreases t.len() - i,
    {
        if ascii_lower(s[p + i]) != t[i] {
            return false;
        }
        i = i + 1;
    }
    true
}

/// `true` or `false` in any letter case.
pub fn literal_boolean(s: &[char], p: usize) -> (r: Option<(usize, LiteralValue)>)
    requires
        p <= s.len(),
    ensures
        match r {
            Some((q, v)) => grammar::literal_boolean(s@, p as int) == Some((q as int, v@)) && p < q <= s.len(),
            None => grammar::literal_boolean(s@, p as int) is None,
        },
{
    let t = ['t', 'r', 'u', 'e'];
    let f = ['f', 'a', 'l', 's', 'e'];
    proof {
        assert(t@ =~= seq!['t', 'r', 'u', 'e']);
        assert(f@ =~= seq!['f', 'a', 'l', 's', 'e']);
    }
    if tag_no_case(s, p, &t) {
        Some((p + 4, LiteralValue::Boolean(true)))
    } else if tag_no_case(s, p, &f) {
        Some((p + 5, LiteralValue::Boolean(false)))
    } else {
        None
    }
}

/// `none` in any letter case.
pub fn literal_none(s: &[char], p: usize) -> (r: Option<(usize, LiteralValue)>)
    requires
        p <= s.len(),
    ensures
        match r {
            Some((q, v)) => grammar::literal_none(s@, p as int) == Some((q as int, v@)) && p < q <= s.len(),
            None => grammar::literal_none(s@, p as int) is None,
        },
{
    let n = ['n', 'o', 'n', 'e'];
    proof {
        assert(n@ =~= seq!['n', 'o', 'n', 'e']);
    }
    if tag_no_case(s, p, &n) {
        Some((p + 4, LiteralValue::Null))
    } else {
        None
    }
}

/// A literal.
pub fn literal_value(s: &[char], p: usize) -> (r: Option<(usize, LiteralValue)>)
    requires
        p <= s.len(),
    ensures
        match r {
            Some((q, v)) => grammar::literal_value(s@, p as int) == Some((q as int, v@)) && p < q <= s.len(),
            None => grammar::literal_value(s@, p as int) is None,
        },
{
    if let Some(r) = literal_boolean(s, p) {
        return Some(r);
    }
    if let Some(r) = literal_number(s, p) {
        return Some(r);
    }
    if let Some(r) = literal_string(s, p) {
        return Some(r);
    }
    literal_none(s, p)
}

/// An identifier.
pub fn ident(s: &[char], p: usize) -> (r: Option<(usize, String)>)
    requires
        p <= s.len(),
    ensures
        match r {
            Some((q, v)) => grammar::ident(s@, p as int) == Some((q as int, v@)) && p < q <= s.len(),
            None => grammar::ident(s@, p as int) is None,
        },
{
    if !(p < s.len() && is_ident_start(s[p])) {
        return None;
    }
    let mut i = p + 1;
    while i < s.len() && is_ident_char(s[i])
        invariant
            p < i <= s.len(),
            grammar::ident_end(s@, p + 1) == grammar::ident_end(s@, i as int),
        decreases s.len() - i,
    {
        i = i + 1;
    }
    Some((i, crate::text::string_of_range(s, p, i)))
}

/// An optional `name=` prefix.
fn arg_name(s: &[char], p: usize) -> (r: (usize, Option<String>))
    requires
        p <= s.len(),
    ensures
        ({
            let (p1, n) = grammar::arg_name(s@, p as int);
            &&& p1 == r.0 as int
            &&& p <= r.0 <= s.len()
            &&& match r.1 {
                Some(v) => n == Some(v@),
                None => n is None,
            }
        }),
{
    match ident(s, p) {
        Some((q, n)) => if at(s, q, '=') { (q + 1, Some(n)) } else { (p, None) },
        None => (p, None),
    }
}


/// Splits arguments into the positional ones and the named ones; `None` when
/// a positional argument follows a named one.
pub fn split_args<T>(all: Vec<(Option<String>, T)>) -> (r: Option<(Vec<T>, Vec<(String, T)>)>)
    ensures
        match r {
            Some((a, n)) => grammar::split_args(all@) == Some((a@, n@)),
            None => grammar::split_args(all@) is None,
        },
{
    let ghost orig = all@;
    let ghost k = grammar::positional_count(orig) as int;
    proof {
        assert(orig.len() == all.len());
        lemma_positional_count(orig);
    }
    let mut args: Vec<T> = Vec::new();
    let mut named: Vec<(String, T)> = Vec::new();
    let mut named_met = false;
    let mut rest = all;
    let mut i: usize = 0;
    while rest.len() > 0
        invariant
            i + rest@.len() == orig.len(),
            orig.len() <= usize::MAX,
            k == grammar::positional_count(orig) as int,
            orig == all@,
            rest@ == orig.skip(i as int),
            0 <= k <= orig.len(),
            forall|j: int| 0 <= j < k ==> (#[trigger] orig[j]).0 is None,
            k < orig.len() ==> orig[k].0 is Some,
            named_met == (i > k),
            i <= k ==> args@ == orig.take(i as int).map_values(|x: (Option<String>, T)| x.1),
            i <= k ==> named@.len() == 0,
            i > k ==> args@ == orig.take(k).map_values(|x: (Option<String>, T)| x.1),
            i > k ==> named@ == orig.subrange(k, i as int).map_values(|x: (Option<String>, T)| (x.0->0, x.1)),
            forall|j: int| k <= j < i ==> (#[trigger] orig[j]).0 is Some,
        decreases rest@.len(),
    {
        let ghost before_args = args@;
        let ghost before_named = named@;
        let (name, arg) = rest.remove(0);
        proof {
            assert(orig[i as int] == (name, arg));
        }
        if !named_met {
            match name {
                Some(nm) => {
                    named_met = true;
                    named.push((nm, arg));
                    proof {
                        assert(i == k);
                        assert(named@ =~= orig.subrange(k, i + 1).map_values(|x: (Option<String>, T)| (x.0->0, x.1)));
                    }
                },
                None => {
                    args.push(arg);
                    proof {
                        assert(args@ =~= orig.take(i + 1).map_values(|x: (Option<String>, T)| x.1));
                    }
                },
            }
        } else {
            match name {
                Some(nm) => {
                    named.push((nm, arg));
                    proof {
                        assert(named@ =~= orig.subrange(k, i + 1).map_values(|x: (Option<String>, T)| (x.0->0, x.1)));
                    }
                },
                None => {
                    proof {
                        assert(!(orig[i as int].0 is Some));
                        assert(!(forall|j: int| k <= j < orig.len() ==> (#[trigger] orig[j]).0 is Some));
                        assert(!(forall|j: int| (grammar::positional_count(orig) as int) <= j < orig.len() ==> (#[trigger] orig[j]).0 is Some));
                        assert(grammar::split_args(orig) is None);
                    }
                    return None;
                },
            }
        }
        i = i + 1;
        proof {
            assert(rest@ =~= orig.skip(i as int));
        }
    }
    proof {
        if i <= k {
            assert(args@ =~= orig.take(k).map_values(|x: (Option<String>, T)| x.1));
            assert(orig.skip(k).map_values(|x: (Option<String>, T)| (x.0->0, x.1)) =~= named@);
        } else {
            assert(orig.subrange(k, i as int) =~= orig.skip(k));
        }
    }
    Some((args, named))
}

proof fn lemma_positional_count<N, T>(all: Seq<(Option<N>, T)>)
    ensures
        0 <= grammar::positional_count(all) <= all.len(),
        forall|j: int| 0 <= j < grammar::positional_count(all) ==> (#[trigger] all[j]).0 is None,
        grammar::positional_count(all) < all.len() ==> all[grammar::positional_count(all) as int].0 is Some,
    decreases all.len(),
{
    if all.len() > 0 && all[0].0 is None {
        lemma_positional_count(all.drop_first());
        assert forall|j: int| 0 <= j < grammar::positional_count(all) implies (#[trigger] all[j]).0 is None by {
            if j > 0 {
                assert(all[j] == all.drop_first()[j - 1]);
            }
        }
    }
}

/// Model of a call argument with its optional name.
pub open spec fn item_m(x: (Option<String>, Arg)) -> (Option<Seq<char>>, ArgM) {
    (match x.0 { Some(n) => Some(n@), None => None }, arg_m_of(x.1))
}

pub open spec fn arg_m_of(a: Arg) -> ArgM {
    a@
}

/// Model of a template argument with its optional name.
pub open spec fn lit_item_m(x: (Option<String>, LiteralValue)) -> (Option<Seq<char>>, Lit) {
    (match x.0 { Some(n) => Some(n@), None => None }, x.1@)
}

proof fn lemma_positional_count_items(all: Seq<(Option<String>, Arg)>)
    ensures
        grammar::positional_count(all.map_values(|x: (Option<String>, Arg)| item_m(x))) == grammar::positional_count(all),
    decreases all.len(),
{
    if all.len() > 0 {
        assert(all.map_values(|x: (Option<String>, Arg)| item_m(x)).drop_first() =~= all.drop_first().map_values(|x: (Option<String>, Arg)| item_m(x)));
        lemma_positional_count_items(all.drop_first());
    }
}

proof fn lemma_positional_count_lits(all: Seq<(Option<String>, LiteralValue)>)
    ensures
        grammar::positional_count(all.map_values(|x: (Option<String>, LiteralValue)| lit_item_m(x))) == grammar::positional_count(all),
    decreases all.len(),
{
    if all.len() > 0 {
        assert(all.map_values(|x: (Option<String>, LiteralValue)| lit_item_m(x)).drop_first() =~= all.drop_first().map_values(|x: (Option<String>, LiteralValue)| lit_item_m(x)));
        lemma_positional_count_lits(all.drop_first());
    }
}

/// Splitting the models of call arguments gives the models of the split.
proof fn lemma_split_items(all: Seq<(Option<String>, Arg)>)
    ensures
        ({
            let m = all.map_values(|x: (Option<String>, Arg)| item_m(x));
            match grammar::split_args(all) {
                Some((a, n)) => grammar::split_args(m) == Some((args_m(a), named_args_m(n))),
                None => grammar::split_args(m) is None,
            }
        }),
{
    let m = all.map_values(|x: (Option<String>, Arg)| item_m(x));
    lemma_positional_count_items(all);
    let k = grammar::positional_count(all) as int;
    lemma_positional_count(all);
    if grammar::split_args(all) is Some {
        let (a, n) = grammar::split_args(all).unwrap();
        assert forall|j: int| k <= j < m.len() implies (#[trigger] m[j]).0 is Some by {
            assert(all[j].0 is Some);
        }
        lemma_args_m_len(a);
        lemma_named_args_m_len(n);
        assert(m.take(k).map_values(|x: (Option<Seq<char>>, ArgM)| x.1) =~= args_m(a));
        assert(m.skip(k).map_values(|x: (Option<Seq<char>>, ArgM)| (x.0->0, x.1)) =~= named_args_m(n));
    } else {
        let j = choose|j: int| k <= j < all.len() && !((#[trigger] all[j]).0 is Some);
        assert(m[j].0 is None);
    }
}

/// Splitting the models of template arguments gives the models of the split.
proof fn lemma_split_lits(all: Seq<(Option<String>, LiteralValue)>)
    ensures
        ({
            let m = all.map_values(|x: (Option<String>, LiteralValue)| lit_item_m(x));
            match grammar::split_args(all) {
                Some((a, n)) => grammar::split_args(m) == Some((lits_m(a), named_lits_m(n))),
                None => grammar::split_args(m) is None,
            }
        }),
{
    let m = all.map_values(|x: (Option<String>, LiteralValue)| lit_item_m(x));
    lemma_positional_count_lits(all);
    let k = grammar::positional_count(all) as int;
    lemma_positional_count(all);
    if grammar::split_args(all) is Some {
        let (a, n) = grammar::split_args(all).unwrap();
        assert forall|j: int| k <= j < m.len() implies (#[trigger] m[j]).0 is Some by {
            assert(all[j].0 is Some);
        }
        assert(m.take(k).map_values(|x: (Option<Seq<char>>, Lit)| x.1) =~= lits_m(a));
        assert(m.skip(k).map_values(|x: (Option<Seq<char>>, Lit)| (x.0->0, x.1)) =~= named_lits_m(n));
    } else {
        let j = choose|j: int| k <= j < all.len() && !((#[trigger] all[j]).0 is Some);
        assert(m[j].0 is None);
    }
}


pub open spec fn items_m(v: Seq<(Option<String>, Arg)>) -> Seq<(Option<Seq<char>>, ArgM)> {
    v.map_values(|x: (Option<String>, Arg)| item_m(x))
}

pub open spec fn lit_items_m(v: Seq<(Option<String>, LiteralValue)>) -> Seq<(Option<Seq<char>>, Lit)> {
    v.map_values(|x: (Option<String>, LiteralValue)| lit_item_m(x))
}

pub open spec fn calls_m(v: Seq<Call>) -> Seq<CallM> {
    v.map_values(|c: Call| c@)
}

/// `s` holds the word `template` at `p`.
fn tag_template(s: &[char], p: usize) -> (b: bool)
    requires
        p <= s.len(),
    ensures
        b == grammar::tag(s@, p as int, grammar::template_word()),
{
    let t = ['t', 'e', 'm', 'p', 'l', 'a', 't', 'e'];
    proof {
        assert(t@ =~= grammar::template_word());
    }
    if s.len() - p < 8 {
        return false;
    }
    let mut i: usize = 0;
    while i < 8
        invariant
            i <= 8,
            p + 8 <= s.len(),
            t@ == grammar::template_word(),
            forall|k: int| 0 <= k < i ==> s@[p + k] == t@[k],
        decreases 8 - i,
    {
        if s[p + i] != t[i] {
            assert(s@.subrange(p as int, p + 8)[i as int] != grammar::template_word()[i as int]);
            return false;
        }
        i = i + 1;
    }
    assert(s@.subrange(p as int, p + 8) =~= grammar::template_word());
    true
}

/// `name=literal` or `literal`.
fn template_arg(s: &[char], p: usize) -> (r: Option<(usize, (Option<String>, LiteralValue))>)
    requires
        p <= s.len(),
    ensures
        match r {
            Some((q, x)) => grammar::template_arg(s@, p as int) == Some((q as int, lit_item_m(x))) && p < q <= s.len(),
            None => grammar::template_arg(s@, p as int) is None,
        },
{
    let (p1, name) = arg_name(s, p);
    match literal_value(s, p1) {
        Some((q, l)) => Some((q, (name, l))),
        None => None,
    }
}

/// `template(source[,args])`.
pub fn template(s: &[char], p: usize) -> (r: Option<(usize, Template)>)
    requires
        p <= s.len(),
    ensures
        match r {
            Some((q, t)) => grammar::template(s@, p as int) == Some((q as int, t@)) && source_sorted(t@.source) && p < q <= s.len(),
            None => grammar::template(s@, p as int) is None,
        },
    decreases s.len() - p, 3int,
{
    if !(tag_template(s, p) && at(s, p + 8, '(')) {
        return None;
    }
    let (q, src) = match source(s, p + 9) {
        Some(x) => x,
        None => return None,
    };
    let mut items: Vec<(Option<String>, LiteralValue)> = Vec::new();
    let mut i = q;
    if at(s, q, ',') {
        if let Some((q2, a)) = template_arg(s, q + 1) {
            let ghost am = lit_item_m(a);
            items.push(a);
            i = q2;
            proof {
                assert(lit_items_m(items@) =~= seq![am]);
            }
            loop
                invariant
                    q < i <= s.len(),
                    grammar::template_args_rest(s@, q2 as int, seq![am]) == grammar::template_args_rest(s@, i as int, lit_items_m(items@)),
                ensures
                    grammar::template_args_rest(s@, i as int, lit_items_m(items@)) == (i as int, lit_items_m(items@)),
                decreases s.len() - i,
            {
                if !at(s, i, ',') {
                    break;
                }
                match template_arg(s, i + 1) {
                    Some((q3, b)) => {
                        let ghost before = items@;
                        items.push(b);
                        proof {
                            assert(lit_items_m(items@) =~= lit_items_m(before).push(lit_item_m(b)));
                        }
                        i = q3;
                    },
                    None => break,
                }
            }
        } else {
            proof {
                assert(lit_items_m(items@) =~= Seq::<(Option<Seq<char>>, Lit)>::empty());
            }
        }
    } else {
        proof {
            assert(lit_items_m(items@) =~= Seq::<(Option<Seq<char>>, Lit)>::empty());
        }
    }
    if !at(s, i, ')') {
        return None;
    }
    proof {
        lemma_split_lits(items@);
    }
    match split_args(items) {
        Some((a, n)) => Some((i + 1, Template { source: src, args: a, named_args: n })),
        None => None,
    }
}

/// A call or a path.
pub fn source(s: &[char], p: usize) -> (r: Option<(usize, Source)>)
    requires
        p <= s.len(),
    ensures
        match r {
            Some((q, v)) => grammar::source(s@, p as int) == Some((q as int, v@)) && source_sorted(v@) && p < q <= s.len(),
            None => grammar::source(s@, p as int) is None,
        },
    decreases s.len() - p, 2int,
{
    if let Some((q, c)) = call(s, p) {
        return Some((q, Source::Call(c)));
    }
    match path(s, p) {
        Some((q, w)) => {
            proof {
                lemma_path_sorted(w);
            }
            Some((q, Source::Path(w)))
        },
        None => None,
    }
}

/// `name(args)`.
pub fn call(s: &[char], p: usize) -> (r: Option<(usize, Call)>)
    requires
        p <= s.len(),
    ensures
        match r {
            Some((q, c)) => grammar::call(s@, p as int) == Some((q as int, c@)) && call_sorted(c@) && p < q <= s.len(),
            None => grammar::call(s@, p as int) is None,
        },
    decreases s.len() - p, 1int,
{
    let (q, name) = match ident(s, p) {
        Some(x) => x,
        None => return None,
    };
    if !at(s, q, '(') {
        return None;
    }
    let (r, items) = call_items(s, q + 1);
    if !at(s, r, ')') {
        return None;
    }
    let ghost all = items@;
    proof {
        lemma_split_items(items@);
        grammar::lemma_split_args_keeps_all(items_m(items@));
    }
    match split_args(items) {
        Some((a, n)) => {
            let c = Call { function: name, args: a, named_args: n };
            proof {
                let m = items_m(all);
                lemma_args_m_len(a@);
                lemma_named_args_m_len(n@);
                assert forall|k: int| 0 <= k < c@.args.len() implies arg_sorted(#[trigger] c@.args[k]) by {
                    assert(c@.args[k] == m[k].1);
                    assert(m[k] == item_m(all[k]));
                }
                assert forall|k: int| 0 <= k < c@.named_args.len() implies arg_sorted(#[trigger] c@.named_args[k].1) by {
                    let nk = c@.named_args[k].0;
                    assert(m[c@.args.len() + k].0 == Some(nk));
                    assert(c@.named_args[k].1 == m[c@.args.len() + k].1);
                    assert(m[c@.args.len() + k] == item_m(all[c@.args.len() + k]));
                }
            }
            Some((r + 1, c))
        },
        None => None,
    }
}

/// Zero or more call arguments separated by commas.
fn call_items(s: &[char], p: usize) -> (r: (usize, Vec<(Option<String>, Arg)>))
    requires
        p <= s.len(),
    ensures
        grammar::call_items(s@, p as int) == (r.0 as int, items_m(r.1@)),
        forall|k: int| 0 <= k < r.1@.len() ==> arg_sorted(#[trigger] r.1@[k].1@),
        p <= r.0 <= s.len(),
    decreases s.len() - p, 10int,
{
    let mut items: Vec<(Option<String>, Arg)> = Vec::new();
    let (q, first) = match call_arg(s, p) {
        Some(x) => x,
        None => {
            proof {
                assert(items_m(items@) =~= Seq::<(Option<Seq<char>>, ArgM)>::empty());
            }
            return (p, items);
        },
    };
    let ghost fm = item_m(first);
    items.push(first);
    proof {
        assert(items_m(items@) =~= seq![fm]);
    }
    let mut i = q;
    loop
        invariant
            p <= q <= i <= s.len(),
            grammar::call_items(s@, p as int) == grammar::call_items_rest(s@, i as int, items_m(items@)),
            forall|k: int| 0 <= k < items@.len() ==> arg_sorted(#[trigger] items@[k].1@),
        ensures
            grammar::call_items_rest(s@, i as int, items_m(items@)) == (i as int, items_m(items@)),
        decreases s.len() - i,
    {
        if !at(s, i, ',') {
            break;
        }
        match call_arg(s, i + 1) {
            Some((q2, x)) => {
                let ghost before = items@;
                items.push(x);
                proof {
                    assert(items_m(items@) =~= items_m(before).push(item_m(x)));
                }
                i = q2;
            },
            None => break,
        }
    }
    (i, items)
}

/// `name=arg` or `arg`.
fn call_arg(s: &[char], p: usize) -> (r: Option<(usize, (Option<String>, Arg))>)
    requires
        p <= s.len(),
    ensures
        match r {
            Some((q, x)) => grammar::call_arg(s@, p as int) == Some((q as int, item_m(x))) && arg_sorted(x.1@) && p < q <= s.len(),
            None => grammar::call_arg(s@, p as int) is None,
        },
    decreases s.len() - p, 8int,
{
    let (p1, name) = arg_name(s, p);
    match arg(s, p1) {
        Some((q, a)) => Some((q, (name, a))),
        None => None,
    }
}

/// A literal, or else an expression.
pub fn arg(s: &[char], p: usize) -> (r: Option<(usize, Arg)>)
    requires
        p <= s.len(),
    ensures
        match r {
            Some((q, a)) => grammar::arg(s@, p as int) == Some((q as int, a@)) && arg_sorted(a@) && p < q <= s.len(),
            None => grammar::arg(s@, p as int) is None,
        },
    decreases s.len() - p, 7int,
{
    if let Some((q, l)) = literal_value(s, p) {
        return Some((q, Arg::Literal(l)));
    }
    match expression(s, p) {
        Some((q, e)) => Some((q, Arg::Expression(e))),
        None => None,
    }
}

/// The first part of an expression: a template, a call or a path.
fn expression_base(s: &[char], p: usize) -> (r: Option<(usize, Expression)>)
    requires
        p <= s.len(),
    ensures
        match r {
            Some((q, e)) => grammar::expression_base(s@, p as int) == Some((q as int, e@)) && expr_sorted(e@) && p < q <= s.len(),
            None => grammar::expression_base(s@, p as int) is None,
        },
    decreases s.len() - p, 5int,
{
    if let Some((q, t)) = template(s, p) {
        Some((q, Expression::Template(t)))
    } else if let Some((q, c)) = call(s, p) {
        Some((q, Expression::Call(c)))
    } else if let Some((q, w)) = path(s, p) {
        proof {
            lemma_path_sorted(w);
        }
        Some((q, Expression::Path(w)))
    } else {
        None
    }
}

/// `|call` pipes from `q`.
fn pipe_calls(s: &[char], q: usize) -> (r: (usize, Vec<Call>))
    requires
        q <= s.len(),
    ensures
        grammar::pipes(s@, q as int, Seq::empty()) == (r.0 as int, calls_m(r.1@)),
        forall|k: int| 0 <= k < r.1@.len() ==> call_sorted(#[trigger] r.1@[k]@),
        q <= r.0 <= s.len(),
    decreases s.len() - q, 4int,
{
    let mut calls: Vec<Call> = Vec::new();
    let mut i = q;
    proof {
        assert(calls_m(calls@) =~= Seq::<CallM>::empty());
    }
    loop
        invariant
            q <= i <= s.len(),
            grammar::pipes(s@, q as int, Seq::empty()) == grammar::pipes(s@, i as int, calls_m(calls@)),
            forall|k: int| 0 <= k < calls@.len() ==> call_sorted(#[trigger] calls@[k]@),
        ensures
            grammar::pipes(s@, i as int, calls_m(calls@)) == (i as int, calls_m(calls@)),
        decreases s.len() - i,
    {
        if !at(s, i, '|') {
            break;
        }
        match call(s, i + 1) {
            Some((q2, c)) => {
                let ghost before = calls@;
                calls.push(c);
                proof {
                    assert(calls_m(calls@) =~= calls_m(before).push(c@));
                }
                i = q2;
            },
            None => break,
        }
    }
    (i, calls)
}

/// Wraps `base` into each call in turn, as its first argument.
pub fn wrap_calls(base: Expression, calls: Vec<Call>) -> (e: Expression)
    ensures
        e@ == grammar::wrap_pipes(base@, calls_m(calls@)),
        expr_sorted(base@) && (forall|k: int| 0 <= k < calls@.len() ==> call_sorted(#[trigger] calls@[k]@))
            ==> expr_sorted(e@),
{
    let ghost sorted = expr_sorted(base@) && (forall|k: int| 0 <= k < calls@.len() ==> call_sorted(#[trigger] calls@[k]@));
    let ghost bm = base@;
    let ghost cm = calls_m(calls@);
    let mut calls = calls;
    let mut cur = base;
    proof {
        assert(cm.skip(0) =~= cm);
    }
    let ghost mut k: int = 0;
    while calls.len() > 0
        invariant
            0 <= k <= cm.len(),
            calls_m(calls@) == cm.skip(k),
            grammar::wrap_pipes(bm, cm) == grammar::wrap_pipes(cur@, cm.skip(k)),
            sorted ==> expr_sorted(cur@),
            sorted ==> forall|j: int| 0 <= j < calls@.len() ==> call_sorted(#[trigger] calls@[j]@),
        decreases calls@.len(),
    {
        let ghost before = calls@;
        let mut c = calls.remove(0);
        let ghost old_args = c.args@;
        let ghost cur_m = cur@;
        c.args.insert(0, Arg::Expression(cur));
        proof {
            lemma_args_m_len(old_args);
            lemma_args_m_len(c.args@);
            assert(args_m(c.args@) =~= seq![ArgM::Expression(cur_m)] + args_m(old_args));
            assert(cm.skip(k)[0] == before[0]@);
            assert(cm.skip(k).drop_first() =~= cm.skip(k + 1));
            assert(calls_m(calls@) =~= calls_m(before).drop_first());
            if sorted {
                assert(call_sorted(before[0]@));
                assert forall|j: int| 0 <= j < calls@.len() implies call_sorted(#[trigger] calls@[j]@) by {
                    assert(calls@[j] == before[j + 1]);
                }
                assert forall|j: int| 0 <= j < args_m(c.args@).len() implies arg_sorted(#[trigger] args_m(c.args@)[j]) by {
                    if j > 0 {
                        assert(args_m(c.args@)[j] == args_m(old_args)[j - 1]);
                        assert(args_m(old_args)[j - 1] == before[0]@.args[j - 1]);
                    }
                }
                assert(c@.named_args == before[0]@.named_args);
                assert(call_sorted(c@));
            }
        }
        cur = Expression::Call(c);
        proof {
            k = k + 1;
        }
    }
    proof {
        assert(cm.skip(k).len() == 0);
        assert(cm.skip(k) =~= Seq::<CallM>::empty());
    }
    cur
}

/// An expression followed by `|call` pipes.
pub fn expression(s: &[char], p: usize) -> (r: Option<(usize, Expression)>)
    requires
        p <= s.len(),
    ensures
        match r {
            Some((q, e)) => grammar::expression(s@, p as int) == Some((q as int, e@)) && expr_sorted(e@) && p < q <= s.len(),
            None => grammar::expression(s@, p as int) is None,
        },
    decreases s.len() - p, 6int,
{
    let (q, base) = match expression_base(s, p) {
        Some(x) => x,
        None => return None,
    };
    let (i, calls) = pipe_calls(s, q);
    Some((i, wrap_calls(base, calls)))
}

} // verus!
