//! Reading unsigned decimal integers as `u32::from_str` does.
use vstd::prelude::*;
use crate::text::{digit_value, is_digit};

verus! {

/// Why text is not an integer of the wanted type (as `std::num::IntErrorKind`).
#[derive(Debug, Clone, Copy, PartialEq, Eq)]
pub enum IntErrorKind {
    Empty,
    InvalidDigit,
    PosOverflow,
    NegOverflow,
}

/// Reads the digits `d` after the value `acc` already read, failing on the
/// first character that is not a digit, or as soon as the value exceeds `max`.
pub open spec fn digits_then(d: Seq<char>, acc: int, max: int) -> Result<int, IntErrorKind>
    decreases d.len(),
{
    if d.len() == 0 {
        Ok(acc)
    } else if !is_digit(d[0]) {
        Err(IntErrorKind::InvalidDigit)
    } else if acc * 10 + digit_value(d[0]) > max {
        Err(IntErrorKind::PosOverflow)
    } else {
        digits_then(d.drop_first(), acc * 10 + digit_value(d[0]), max)
    }
}

/// What `u32::from_str` gives for `s`: an optional `+`, then decimal digits
/// whose value is at most `u32::MAX`.
pub open spec fn u32_of(s: Seq<char>) -> Result<int, IntErrorKind> {
    if s.len() == 0 {
        Err(IntErrorKind::Empty)
    } else if s.len() == 1 && (s[0] == '+' || s[0] == '-') {
        Err(IntErrorKind::InvalidDigit)
    } else if s[0] == '+' {
        digits_then(s.drop_first(), 0, u32::MAX as int)
    } else {
        digits_then(s, 0, u32::MAX as int)
    }
}

proof fn lemma_digits_then_bounds(d: Seq<char>, acc: int, max: int)
    requires
        0 <= acc <= max,
    ensures
        digits_then(d, acc, max) matches Ok(v) ==> 0 <= v <= max,
    decreases d.len(),
{
    if d.len() > 0 && is_digit(d[0]) && acc * 10 + digit_value(d[0]) <= max {
        lemma_digits_then_bounds(d.drop_first(), acc * 10 + digit_value(d[0]), max);
    }
}

/// `u32::from_str` on `s[from..to]`.
pub fn parse_u32(s: &[char], from: usize, to: usize) -> (r: Result<u32, IntErrorKind>)
    requires
        from <= to <= s.len(),
    ensures
        match r {
            Ok(v) => u32_of(s@.subrange(from as int, to as int)) == Ok::<int, IntErrorKind>(v as int),
            Err(k) => u32_of(s@.subrange(from as int, to as int)) == Err::<int, IntErrorKind>(k),
        },
{
    let ghost t = s@.subrange(from as int, to as int);
    if from == to {
        return Err(IntErrorKind::Empty);
    }
    if to - from == 1 && (s[from] == '+' || s[from] == '-') {
        return Err(IntErrorKind::InvalidDigit);
    }
    let start = if s[from] == '+' { from + 1 } else { from };
    let ghost d = s@.subrange(start as int, to as int);
    proof {
        if s[from as int] == '+' {
            assert(t.drop_first() =~= d);
        } else {
            assert(t =~= d);
        }
        assert(u32_of(t) == digits_then(d, 0, u32::MAX as int));
    }
    let mut acc: u32 = 0;
    let mut i = start;
    while i < to
        invariant
            start <= i <= to <= s.len(),
            d == s@.subrange(start as int, to as int),
            u32_of(s@.subrange(from as int, to as int)) == digits_then(d, 0, u32::MAX as int),
            digits_then(d, 0, u32::MAX as int) == digits_then(s@.subrange(i as int, to as int), acc as int, u32::MAX as int),
        decreases to - i,
    {
        let c = s[i];
        proof {
            assert(s@.subrange(i as int, to as int)[0] == c);
            assert(s@.subrange(i as int, to as int).drop_first() =~= s@.subrange(i + 1, to as int));
        }
        if !('0' <= c && c <= '9') {
            return Err(IntErrorKind::InvalidDigit);
        }
        let dv: u32 = (c as u32) - 48;
        assert(dv as int == digit_value(c));
        if acc > 429_496_729 || (acc == 429_496_729 && dv > 5) {
            return Err(IntErrorKind::PosOverflow);
        }
        acc = acc * 10 + dv;
        i = i + 1;
    }
    proof {
        assert(s@.subrange(i as int, to as int).len() == 0);
    }
    Ok(acc)
}

/// What `u64::from_str` gives for `s`: an optional `+`, then decimal digits
/// whose value is at most `u64::MAX`.
pub open spec fn u64_of(s: Seq<char>) -> Result<int, IntErrorKind> {
    if s.len() == 0 {
        Err(IntErrorKind::Empty)
    } else if s.len() == 1 && (s[0] == '+' || s[0] == '-') {
        Err(IntErrorKind::InvalidDigit)
    } else if s[0] == '+' {
        digits_then(s.drop_first(), 0, u64::MAX as int)
    } else {
        digits_then(s, 0, u64::MAX as int)
    }
}

/// What `i32::from_str` gives for `s`: an optional sign, then decimal digits
/// whose signed value lies in the range of `i32`.
pub open spec fn i32_of(s: Seq<char>) -> Result<int, IntErrorKind> {
    if s.len() == 0 {
        Err(IntErrorKind::Empty)
    } else if s.len() == 1 && (s[0] == '+' || s[0] == '-') {
        Err(IntErrorKind::InvalidDigit)
    } else if s[0] == '-' {
        match digits_then(s.drop_first(), 0, 0x8000_0000) {
            Ok(v) => Ok(-v),
            Err(IntErrorKind::PosOverflow) => Err(IntErrorKind::NegOverflow),
            Err(k) => Err(k),
        }
    } else if s[0] == '+' {
        digits_then(s.drop_first(), 0, i32::MAX as int)
    } else {
        digits_then(s, 0, i32::MAX as int)
    }
}

/// Reads the digits of `s[from..to]` as a value of at most `max`.
fn parse_digits(s: &[char], from: usize, to: usize, max: u64) -> (r: Result<u64, IntErrorKind>)
    requires
        from <= to <= s.len(),
    ensures
        match r {
            Ok(v) => v <= max && digits_then(s@.subrange(from as int, to as int), 0, max as int) == Ok::<int, IntErrorKind>(v as int),
            Err(k) => digits_then(s@.subrange(from as int, to as int), 0, max as int) == Err::<int, IntErrorKind>(k),
        },
{
    let mut acc: u64 = 0;
    let mut i = from;
    while i < to
        invariant
            from <= i <= to <= s.len(),
            acc <= max,
            digits_then(s@.subrange(from as int, to as int), 0, max as int)
                == digits_then(s@.subrange(i as int, to as int), acc as int, max as int),
        decreases to - i,
    {
        let c = s[i];
        proof {
            assert(s@.subrange(i as int, to as int)[0] == c);
            assert(s@.subrange(i as int, to as int).drop_first() =~= s@.subrange(i + 1, to as int));
        }
        if !('0' <= c && c <= '9') {
            return Err(IntErrorKind::InvalidDigit);
        }
        let dv: u64 = ((c as u32) - 48) as u64;
        assert(dv as int == digit_value(c));
        let next: u128 = (acc as u128) * 10 + (dv as u128);
        if next > max as u128 {
            return Err(IntErrorKind::PosOverflow);
        }
        acc = next as u64;
        i = i + 1;
    }
    proof {
        assert(s@.subrange(i as int, to as int).len() == 0);
    }
    Ok(acc)
}

/// `u64::from_str` on `s`.
pub fn parse_u64(s: &str) -> (r: Result<u64, IntErrorKind>)
    ensures
        match r {
            Ok(v) => u64_of(s@) == Ok::<int, IntErrorKind>(v as int),
            Err(k) => u64_of(s@) == Err::<int, IntErrorKind>(k),
        },
{
    let v = crate::text::chars_of(s);
    let n = v.len();
    if n == 0 {
        return Err(IntErrorKind::Empty);
    }
    if n == 1 && (v[0] == '+' || v[0] == '-') {
        return Err(IntErrorKind::InvalidDigit);
    }
    if v[0] == '+' {
        proof {
            assert(v@.subrange(1, n as int) =~= s@.drop_first());
        }
        parse_digits(v.as_slice(), 1, n, u64::MAX)
    } else {
        proof {
            assert(v@.subrange(0, n as int) =~= s@);
        }
        parse_digits(v.as_slice(), 0, n, u64::MAX)
    }
}

/// `i32::from_str` on `s`.
pub fn parse_i32(s: &str) -> (r: Result<i32, IntErrorKind>)
    ensures
        match r {
            Ok(v) => i32_of(s@) == Ok::<int, IntErrorKind>(v as int),
            Err(k) => i32_of(s@) == Err::<int, IntErrorKind>(k),
        },
{
    let v = crate::text::chars_of(s);
    let n = v.len();
    if n == 0 {
        return Err(IntErrorKind::Empty);
    }
    if n == 1 && (v[0] == '+' || v[0] == '-') {
        return Err(IntErrorKind::InvalidDigit);
    }
    if v[0] == '-' {
        proof {
            assert(v@.subrange(1, n as int) =~= s@.drop_first());
        }
        match parse_digits(v.as_slice(), 1, n, 0x8000_0000) {
            Ok(m) => Ok((0 - (m as i64)) as i32),
            Err(IntErrorKind::PosOverflow) => Err(IntErrorKind::NegOverflow),
            Err(k) => Err(k),
        }
    } else if v[0] == '+' {
        proof {
            assert(v@.subrange(1, n as int) =~= s@.drop_first());
        }
        match parse_digits(v.as_slice(), 1, n, 0x7fff_ffff) {
            Ok(m) => Ok(m as i32),
            Err(k) => Err(k),
        }
    } else {
        proof {
            assert(v@.subrange(0, n as int) =~= s@);
        }
        match parse_digits(v.as_slice(), 0, n, 0x7fff_ffff) {
            Ok(m) => Ok(m as i32),
            Err(k) => Err(k),
        }
    }
}

/// Reading two runs of digits one after the other is reading the first and
/// going on from its value.
pub proof fn lemma_digits_then_append(d1: Seq<char>, d2: Seq<char>, acc: int, max: int)
    ensures
        digits_then(d1 + d2, acc, max) == match digits_then(d1, acc, max) {
            Ok(v) => digits_then(d2, v, max),
            Err(e) => Err(e),
        },
    decreases d1.len(),
{
    if d1.len() == 0 {
        assert(d1 + d2 =~= d2);
    } else {
        assert((d1 + d2)[0] == d1[0]);
        assert((d1 + d2).drop_first() =~= d1.drop_first() + d2);
        if is_digit(d1[0]) && acc * 10 + digit_value(d1[0]) <= max {
            lemma_digits_then_append(d1.drop_first(), d2, acc * 10 + digit_value(d1[0]), max);
        }
    }
}

/// The decimal text of `n` is made of digits and reads back as `n`.
pub proof fn lemma_decimal_digits(n: nat, max: int)
    requires
        n <= max,
    ensures
        digits_then(crate::text::decimal(n), 0, max) == Ok::<int, IntErrorKind>(n as int),
        crate::text::decimal(n).len() > 0,
        is_digit(crate::text::decimal(n)[0]),
    decreases n,
{
    let d = crate::text::decimal(n);
    if n < 10 {
        let c = (('0' as nat) + n) as char;
        assert((c as int) == 48 + n);
        assert(is_digit(c));
        assert(digit_value(c) == n);
        assert(d == seq![c]);
        assert(d.drop_first() =~= Seq::<char>::empty());
        assert(digits_then(d.drop_first(), n as int, max) == Ok::<int, IntErrorKind>(n as int));
    } else {
        let c = (('0' as nat) + n % 10) as char;
        assert((c as int) == 48 + n % 10);
        assert(digit_value(c) == n % 10);
        lemma_decimal_digits(n / 10, max);
        let d1 = crate::text::decimal(n / 10);
        assert(d == d1.push(c));
        assert(d =~= d1 + seq![c]);
        lemma_digits_then_append(d1, seq![c], 0, max);
        assert(seq![c].drop_first() =~= Seq::<char>::empty());
        assert((n / 10) * 10 + n % 10 == n);
        assert(digits_then(seq![c].drop_first(), n as int, max) == Ok::<int, IntErrorKind>(n as int));
        assert(digits_then(seq![c], (n / 10) as int, max) == Ok::<int, IntErrorKind>(n as int));
        assert(d[0] == d1[0]);
    }
}

/// The decimal text of a number reads back as the number, with
/// `u32::from_str` and with `u64::from_str` where it fits.
pub proof fn lemma_decimal_round_trip(n: nat)
    ensures
        n <= u32::MAX ==> u32_of(crate::text::decimal(n)) == Ok::<int, IntErrorKind>(n as int),
        n <= u64::MAX ==> u64_of(crate::text::decimal(n)) == Ok::<int, IntErrorKind>(n as int),
{
    if n <= u32::MAX {
        lemma_decimal_digits(n, u32::MAX as int);
    }
    if n <= u64::MAX {
        lemma_decimal_digits(n, u64::MAX as int);
    }
}

} // verus!

verus! {

/// Why text is not a floating-point number (as `std::num::ParseFloatError`).
#[derive(Debug, Clone, Copy, PartialEq, Eq)]
pub enum FloatErrorKind {
    Empty,
    Invalid,
}

/// `b` is `w` (a lower-case ASCII word) in any letter case.
pub open spec fn word_ci(b: Seq<char>, w: Seq<char>) -> bool {
    b.len() == w.len() && forall|i: int| 0 <= i < b.len() ==> #[trigger] crate::render_target::grammar::ascii_lower(b[i]) == w[i]
}

/// The end of the run of decimal digits that starts at `p`.
pub open spec fn digit_run_end(s: Seq<char>, p: int) -> int
    decreases s.len() - p,
{
    if 0 <= p < s.len() && is_digit(s[p]) { digit_run_end(s, p + 1) } else { p }
}

/// `b` from `i` on is an exponent `[eE][+-]?d+` and nothing more.
pub open spec fn is_exponent(b: Seq<char>, i: int) -> bool {
    0 <= i < b.len() && (b[i] == 'e' || b[i] == 'E') && {
        let j = if i + 1 < b.len() && (b[i + 1] == '+' || b[i + 1] == '-') { i + 2 } else { i + 1 };
        digit_run_end(b, j) > j && digit_run_end(b, j) == b.len()
    }
}

/// `b` is `d+`, `d+.d*` or `d*.d+`, with an optional exponent.
pub open spec fn is_decimal_number(b: Seq<char>) -> bool {
    let i1 = digit_run_end(b, 0);
    let has_dot = i1 < b.len() && b[i1] == '.';
    let i2 = if has_dot { digit_run_end(b, i1 + 1) } else { i1 };
    (i1 > 0 || (has_dot && i2 > i1 + 1)) && (i2 == b.len() || is_exponent(b, i2))
}

/// `s` is accepted by `f64::from_str`: an optional sign, then `inf`,
/// `infinity` or `nan` in any letter case, or a decimal number.
pub open spec fn is_float_text(s: Seq<char>) -> bool {
    let b = if s.len() > 0 && (s[0] == '+' || s[0] == '-') { s.drop_first() } else { s };
    ||| word_ci(b, seq!['i', 'n', 'f'])
    ||| word_ci(b, seq!['i', 'n', 'f', 'i', 'n', 'i', 't', 'y'])
    ||| word_ci(b, seq!['n', 'a', 'n'])
    ||| is_decimal_number(b)
}

fn lower(c: char) -> (d: char)
    ensures
        d == crate::render_target::grammar::ascii_lower(c),
{
    if 'A' <= c && c <= 'Z' {
        (((c as u32) + 32) as u8) as char
    } else {
        c
    }
}

pub fn word_ci_at(v: &[char], from: usize, w: &[char]) -> (b: bool)
    requires
        from <= v.len(),
    ensures
        b == word_ci(v@.skip(from as int), w@),
{
    if v.len() - from != w.len() {
        return false;
    }
    let mut i: usize = 0;
    while i < w.len()
        invariant
            i <= w.len(),
            from + w.len() == v.len(),
            forall|k: int| 0 <= k < i ==> #[trigger] crate::render_target::grammar::ascii_lower(v@.skip(from as int)[k]) == w@[k],
        decreases w.len() - i,
    {
        if lower(v[from + i]) != w[i] {
            assert(v@.skip(from as int)[i as int] == v@[from + i]);
            return false;
        }
        i = i + 1;
    }
    true
}

fn digit_run(v: &[char], p: usize) -> (e: usize)
    requires
        p <= v.len(),
    ensures
        e as int == digit_run_end(v@, p as int),
        p <= e <= v.len(),
{
    let mut i = p;
    while i < v.len() && '0' <= v[i] && v[i] <= '9'
        invariant
            p <= i <= v.len(),
            digit_run_end(v@, p as int) == digit_run_end(v@, i as int),
        decreases v.len() - i,
    {
        i = i + 1;
    }
    i
}

proof fn lemma_digit_run_shift(s: Seq<char>, from: int, p: int)
    requires
        0 <= from <= s.len(),
        0 <= p <= s.len() - from,
    ensures
        digit_run_end(s.skip(from), p) == digit_run_end(s, from + p) - from,
    decreases s.len() - from - p,
{
    if p < s.len() - from && is_digit(s[from + p]) {
        lemma_digit_run_shift(s, from, p + 1);
    }
}

/// A run of `n` digits from `p` that is followed by a non-digit, or by the
/// end, ends at `p + n`.
proof fn lemma_run_over(b: Seq<char>, p: int, n: int)
    requires
        0 <= p,
        0 <= n,
        p + n <= b.len(),
        forall|k: int| p <= k < p + n ==> is_digit(#[trigger] b[k]),
        p + n == b.len() || !is_digit(b[p + n]),
    ensures
        digit_run_end(b, p) == p + n,
    decreases n,
{
    if n > 0 {
        lemma_run_over(b, p + 1, n - 1);
    }
}

/// Every decimal writing of a number is accepted as a floating-point value,
/// as `f64::from_str` accepts it: an optional sign, digits with an optional
/// fraction (`12`, `12.5`, `12.`, `.5`), and an optional exponent
/// (`e`/`E`, an optional sign, digits).
pub proof fn lemma_decimal_float_texts(
    sign: Seq<char>,
    d1: Seq<char>,
    dot: bool,
    d2: Seq<char>,
    exp: bool,
    ec: char,
    esign: Seq<char>,
    d3: Seq<char>,
)
    requires
        sign == Seq::<char>::empty() || sign == seq!['+'] || sign == seq!['-'],
        forall|k: int| 0 <= k < d1.len() ==> is_digit(#[trigger] d1[k]),
        forall|k: int| 0 <= k < d2.len() ==> is_digit(#[trigger] d2[k]),
        forall|k: int| 0 <= k < d3.len() ==> is_digit(#[trigger] d3[k]),
        if dot { d1.len() + d2.len() > 0 } else { d1.len() > 0 },
        exp ==> d3.len() > 0 && (ec == 'e' || ec == 'E'),
        exp ==> (esign == Seq::<char>::empty() || esign == seq!['+'] || esign == seq!['-']),
    ensures
        is_float_text(
            sign + (if dot { d1 + seq!['.'] + d2 } else { d1 }) + (if exp { seq![ec] + esign + d3 } else { Seq::empty() }),
        ),
{
    let mant = if dot { d1 + seq!['.'] + d2 } else { d1 };
    let tail = if exp { seq![ec] + esign + d3 } else { Seq::<char>::empty() };
    let b = mant + tail;
    let s = sign + b;
    let n1 = d1.len() as int;
    // The digits before the dot.
    assert forall|k: int| 0 <= k < n1 implies is_digit(#[trigger] b[k]) by {
        assert(b[k] == d1[k]);
    }
    if n1 < b.len() {
        if dot {
            assert(b[n1] == '.');
        } else {
            assert(b[n1] == ec);
        }
    }
    lemma_run_over(b, 0, n1);
    let i2 = if dot { n1 + 1 + d2.len() } else { n1 };
    if dot {
        assert(b[n1] == '.');
        assert forall|k: int| n1 + 1 <= k < i2 implies is_digit(#[trigger] b[k]) by {
            assert(b[k] == d2[k - n1 - 1]);
        }
        if i2 < b.len() {
            assert(b[i2] == ec);
        }
        lemma_run_over(b, n1 + 1, d2.len() as int);
    } else {
        assert(!(n1 < b.len() && b[n1] == '.'));
    }
    if exp {
        assert(b[i2] == ec);
        let j = i2 + 1 + esign.len();
        if esign.len() == 0 {
            assert(b[i2 + 1] == d3[0]);
        } else {
            assert(b[i2 + 1] == esign[0]);
        }
        assert forall|k: int| j <= k < b.len() implies is_digit(#[trigger] b[k]) by {
            assert(b[k] == d3[k - j]);
        }
        lemma_run_over(b, j, d3.len() as int);
        assert(is_exponent(b, i2));
    } else {
        assert(b.len() == i2);
    }
    assert(is_decimal_number(b));
    if sign.len() == 0 {
        assert(s =~= b);
        if n1 > 0 {
            assert(b[0] == d1[0]);
        } else {
            assert(b[0] == '.');
        }
    } else {
        assert(s.drop_first() =~= b);
    }
    assert(is_float_text(s));
    assert(sign + mant + tail =~= s);
}

/// Whether `f64::from_str` accepts the text.
#[verifier::spinoff_prover]
#[verifier::rlimit(30)]
pub fn float_check(s: &str) -> (r: Result<(), FloatErrorKind>)
    ensures
        match r {
            Ok(()) => s@.len() > 0 && is_float_text(s@),
            Err(k) => if s@.len() == 0 { k == FloatErrorKind::Empty } else { k == FloatErrorKind::Invalid && !is_float_text(s@) },
        },
{
    let v = crate::text::chars_of(s);
    if v.len() == 0 {
        return Err(FloatErrorKind::Empty);
    }
    let from: usize = if v[0] == '+' || v[0] == '-' { 1 } else { 0 };
    let ghost b = v@.skip(from as int);
    proof {
        if from == 1 {
            assert(v@.drop_first() =~= b);
        } else {
            assert(v@ =~= b);
        }
    }
    let inf = ['i', 'n', 'f'];
    let infinity = ['i', 'n', 'f', 'i', 'n', 'i', 't', 'y'];
    let nan = ['n', 'a', 'n'];
    proof {
        assert(inf@ =~= seq!['i', 'n', 'f']);
        assert(infinity@ =~= seq!['i', 'n', 'f', 'i', 'n', 'i', 't', 'y']);
        assert(nan@ =~= seq!['n', 'a', 'n']);
    }
    if word_ci_at(&v, from, &inf) || word_ci_at(&v, from, &infinity) || word_ci_at(&v, from, &nan) {
        return Ok(());
    }
    let n = v.len();
    let i1 = digit_run(&v, from);
    let has_dot = i1 < n && v[i1] == '.';
    let i2 = if has_dot { digit_run(&v, i1 + 1) } else { i1 };
    proof {
        lemma_digit_run_shift(v@, from as int, 0);
        if has_dot {
            lemma_digit_run_shift(v@, from as int, i1 - from + 1);
        }
    }
    let lead = i1 > from || (has_dot && i2 > i1 + 1);
    let tail = if i2 == n {
        true
    } else if v[i2] == 'e' || v[i2] == 'E' {
        let j = if i2 + 1 < n && (v[i2 + 1] == '+' || v[i2 + 1] == '-') { i2 + 2 } else { i2 + 1 };
        let e = digit_run(&v, j);
        proof {
            lemma_digit_run_shift(v@, from as int, j - from);
        }
        e > j && e == n
    } else {
        false
    };
    proof {
        assert(b.len() == n - from);
        if i2 < n {
            assert(b[i2 - from] == v@[i2 as int]);
            if i2 + 1 < n {
                assert(b[i2 - from + 1] == v@[i2 + 1]);
            }
        }
        if i1 < n {
            assert(b[i1 - from] == v@[i1 as int]);
        }
    }
    if lead && tail {
        Ok(())
    } else {
        Err(FloatErrorKind::Invalid)
    }
}

} // verus!
