use vstd::prelude::*;

verus! {

/// `String::push` appends one character (std documentation: "Appends the
/// given char to the end of this String").
pub assume_specification[ std::string::String::push ](s: &mut std::string::String, ch: char)
    ensures
        final(s)@ == old(s)@.push(ch),
;

/// The characters of `s`, in order.
pub fn chars_of(s: &str) -> (v: Vec<char>)
    ensures
        v@ == s@,
{
    let mut v: Vec<char> = Vec::new();
    for c in it: s.chars()
        invariant
            v@ == it.seq().take(it.index() as int),
    {
        v.push(c);
    }
    v
}

/// A string made of the characters of `v`.
pub fn string_of(v: &[char]) -> (s: String)
    ensures
        s@ == v@,
{
    let mut s = String::new();
    let mut i: usize = 0;
    while i < v.len()
        invariant
            i <= v.len(),
            s@ == v@.take(i as int),
        decreases v.len() - i,
    {
        s.push(v[i]);
        i = i + 1;
        assert(s@ =~= v@.take(i as int));
    }
    assert(v@.take(v.len() as int) =~= v@);
    s
}

/// A string made of the characters `v[from..to]`.
pub fn string_of_range(v: &[char], from: usize, to: usize) -> (s: String)
    requires
        from <= to <= v.len(),
    ensures
        s@ == v@.subrange(from as int, to as int),
{
    let mut s = String::new();
    let mut i: usize = from;
    while i < to
        invariant
            from <= i <= to <= v.len(),
            s@ == v@.subrange(from as int, i as int),
        decreases to - i,
    {
        s.push(v[i]);
        i = i + 1;
        assert(s@ =~= v@.subrange(from as int, i as int));
    }
    s
}

/// Appends `t` to `s`.
pub fn push_str(s: &mut String, t: &str)
    ensures
        final(s)@ == old(s)@ + t@,
{
    let ghost start = s@;
    for c in it: t.chars()
        invariant
            s@ == start + it.seq().take(it.index() as int),
    {
        s.push(c);
        assert(s@ =~= start + it.seq().take(it.index() + 1));
    }
}

/// Whether two character sequences are equal.
pub fn chars_eq(a: &[char], b: &[char]) -> (r: bool)
    ensures
        r == (a@ == b@),
{
    if a.len() != b.len() {
        return false;
    }
    let mut i: usize = 0;
    while i < a.len()
        invariant
            a.len() == b.len(),
            i <= a.len(),
            forall|j: int| 0 <= j < i ==> a@[j] == b@[j],
        decreases a.len() - i,
    {
        if a[i] != b[i] {
            return false;
        }
        i = i + 1;
    }
    assert(a@ =~= b@);
    true
}

/// Whether two strings are equal.
pub fn str_eq(a: &str, b: &str) -> (r: bool)
    ensures
        r == (a@ == b@),
{
    let va = chars_of(a);
    let vb = chars_of(b);
    chars_eq(va.as_slice(), vb.as_slice())
}

/// The value of a decimal digit character.
pub open spec fn digit_value(c: char) -> int {
    (c as int) - ('0' as int)
}

/// `c` is one of the characters `0` to `9`.
pub open spec fn is_digit(c: char) -> bool {
    '0' <= c && c <= '9'
}

/// The decimal representation of `n`, without leading zeros ("0" for zero).
pub open spec fn decimal(n: nat) -> Seq<char>
    decreases n,
{
    if n < 10 {
        seq![(('0' as nat) + n) as char]
    } else {
        decimal(n / 10).push(((('0' as nat) + n % 10) as char))
    }
}

/// The decimal representation of `n`.
pub fn decimal_string(n: u64) -> (s: String)
    ensures
        s@ == decimal(n as nat),
    decreases n,
{
    if n < 10 {
        let mut s = String::new();
        s.push(((n as u8) + 48u8) as char);
        assert(s@ =~= decimal(n as nat));
        s
    } else {
        let mut s = decimal_string(n / 10);
        let d: u8 = (n % 10) as u8;
        s.push((d + 48u8) as char);
        assert(s@ =~= decimal(n as nat));
        s
    }
}

} // verus!

verus! {

/// `parts` joined with `sep` between neighbours.
pub open spec fn join(parts: Seq<Seq<char>>, sep: Seq<char>) -> Seq<char>
    decreases parts.len(),
{
    if parts.len() == 0 {
        Seq::empty()
    } else if parts.len() == 1 {
        parts[0]
    } else {
        join(parts.drop_last(), sep) + sep + parts.last()
    }
}

/// One step of `join`: adding a part at the end.
pub proof fn lemma_join_push(parts: Seq<Seq<char>>, sep: Seq<char>, x: Seq<char>)
    ensures
        join(parts.push(x), sep) == if parts.len() == 0 { x } else { join(parts, sep) + sep + x },
{
    assert(parts.push(x).drop_last() =~= parts);
}

/// The number of bytes of the UTF-8 encoding of `c`.
pub open spec fn utf8_width(c: char) -> int {
    if (c as u32) < 0x80 {
        1
    } else if (c as u32) < 0x800 {
        2
    } else if (c as u32) < 0x10000 {
        3
    } else {
        4
    }
}

/// The number of bytes of the UTF-8 encoding of `s`.
pub open spec fn utf8_len(s: Seq<char>) -> int
    decreases s.len(),
{
    if s.len() == 0 { 0 } else { utf8_len(s.drop_last()) + utf8_width(s.last()) }
}

/// The number of bytes of the UTF-8 encoding of `s[..n]`, or `u64::MAX`
/// when it is larger.
pub fn utf8_prefix_len(s: &[char], n: usize) -> (r: u64)
    requires
        n <= s.len(),
    ensures
        r as int == if utf8_len(s@.take(n as int)) <= u64::MAX { utf8_len(s@.take(n as int)) } else { u64::MAX as int },
{
    let mut total: u64 = 0;
    let mut i: usize = 0;
    while i < n
        invariant
            i <= n <= s.len(),
            total as int == if utf8_len(s@.take(i as int)) <= u64::MAX { utf8_len(s@.take(i as int)) } else { u64::MAX as int },
        decreases n - i,
    {
        let c = s[i];
        let code: u32 = c as u32;
        let w: u64 = if code < 0x80 { 1 } else if code < 0x800 { 2 } else if code < 0x10000 { 3 } else { 4 };
        proof {
            assert(s@.take(i + 1).drop_last() =~= s@.take(i as int));
            assert(utf8_len(s@.take(i as int)) >= 0) by {
                lemma_utf8_len_nonneg(s@.take(i as int));
            }
        }
        total = total.saturating_add(w);
        i = i + 1;
    }
    total
}

proof fn lemma_utf8_len_nonneg(s: Seq<char>)
    ensures
        utf8_len(s) >= 0,
    decreases s.len(),
{
    if s.len() > 0 {
        lemma_utf8_len_nonneg(s.drop_last());
    }
}

} // verus!

verus! {

/// The pieces of `s` between occurrences of `sep` (as `str::split` with a
/// character): one more piece than there are separators.
pub open spec fn split(s: Seq<char>, sep: char) -> Seq<Seq<char>>
    decreases s.len(),
{
    if s.len() == 0 {
        seq![Seq::empty()]
    } else {
        let prev = split(s.drop_last(), sep);
        if s.last() == sep {
            prev.push(Seq::empty())
        } else {
            prev.update(prev.len() - 1, prev.last().push(s.last()))
        }
    }
}

pub proof fn lemma_split_len(s: Seq<char>, sep: char)
    ensures
        split(s, sep).len() >= 1,
    decreases s.len(),
{
    if s.len() > 0 {
        lemma_split_len(s.drop_last(), sep);
    }
}

/// The last piece of a split holds no separator and ends the text.
pub proof fn lemma_split_last(s: Seq<char>, sep: char)
    ensures
        forall|i: int| 0 <= i < split(s, sep).last().len() ==> split(s, sep).last()[i] != sep,
        split(s, sep).last().len() <= s.len(),
        s.skip(s.len() - split(s, sep).last().len()) == split(s, sep).last(),
    decreases s.len(),
{
    lemma_split_len(s, sep);
    if s.len() == 0 {
        assert(s.skip(0) =~= Seq::<char>::empty());
    } else {
        let prev = split(s.drop_last(), sep);
        lemma_split_last(s.drop_last(), sep);
        lemma_split_len(s.drop_last(), sep);
        if s.last() == sep {
            assert(split(s, sep).last() =~= Seq::<char>::empty());
            assert(s.skip(s.len() as int) =~= Seq::<char>::empty());
        } else {
            let l = prev.last();
            assert(split(s, sep).last() == l.push(s.last()));
            assert(s.skip(s.len() - (l.len() + 1)) =~= s.drop_last().skip(s.drop_last().len() - l.len()).push(s.last()));
        }
    }
}

/// Piece `k` of `pieces` (the split of `s` at `sep`) is the text of `s`
/// from `b`: it holds no separator, the text before it is empty or ends with
/// a separator, and a separator follows it unless it is the last piece.
pub open spec fn piece_at(s: Seq<char>, sep: char, pieces: Seq<Seq<char>>, k: int, b: int) -> bool {
    let p = pieces[k];
    &&& 0 <= b && b + p.len() <= s.len()
    &&& s.subrange(b, b + p.len()) == p
    &&& forall|i: int| 0 <= i < p.len() ==> p[i] != sep
    &&& (k == 0 ==> b == 0)
    &&& (k > 0 ==> b >= 1 && s[b - 1] == sep)
    &&& (k < pieces.len() - 1 ==> b + p.len() < s.len() && s[b + p.len()] == sep)
    &&& (k == pieces.len() - 1 ==> b + p.len() == s.len())
}

/// Every piece of the split of `s` at `sep` stands somewhere in `s` as
/// `piece_at` says.
pub open spec fn pieces_placed(s: Seq<char>, sep: char) -> bool {
    forall|k: int| 0 <= k < split(s, sep).len() ==> #[trigger] piece_placed(s, sep, k)
}

/// Piece `k` of the split of `s` at `sep` stands somewhere in `s` as
/// `piece_at` says.
pub open spec fn piece_placed(s: Seq<char>, sep: char, k: int) -> bool {
    exists|b: int| #[trigger] piece_at(s, sep, split(s, sep), k, b)
}

/// One step of `lemma_split_pieces`: a piece of the split of `s` stands in
/// `s` when every piece of the split of `s` without its last character
/// stands there.
proof fn lemma_split_piece_step(s: Seq<char>, sep: char, k: int)
    requires
        s.len() > 0,
        pieces_placed(s.drop_last(), sep),
        0 <= k < split(s, sep).len(),
    ensures
        piece_placed(s, sep, k),
{
    let pieces = split(s, sep);
    let t = s.drop_last();
    let prev = split(t, sep);
    lemma_split_len(t, sep);
    if k < prev.len() {
        assert(piece_placed(t, sep, k));
        let b = choose|b: int| #[trigger] piece_at(t, sep, prev, k, b);
        let p = prev[k];
        assert(s.subrange(b, b + p.len()) =~= t.subrange(b, b + p.len()));
        if s.last() == sep {
            assert(pieces[k] == p);
            assert(piece_at(s, sep, pieces, k, b));
        } else if k < prev.len() - 1 {
            assert(pieces[k] == p);
            assert(piece_at(s, sep, pieces, k, b));
        } else {
            let q = p.push(s.last());
            assert(pieces[k] == q);
            assert(s.subrange(b, b + q.len()) =~= q);
            assert(piece_at(s, sep, pieces, k, b));
        }
    } else {
        assert(s.last() == sep);
        assert(pieces[k] == Seq::<char>::empty());
        assert(s.subrange(s.len() as int, s.len() as int) =~= Seq::<char>::empty());
        assert(piece_at(s, sep, pieces, k, s.len() as int));
    }
}

/// Every piece of a split stands in the text between separators.
pub proof fn lemma_split_pieces(s: Seq<char>, sep: char)
    ensures
        pieces_placed(s, sep),
    decreases s.len(),
{
    lemma_split_len(s, sep);
    let pieces = split(s, sep);
    if s.len() == 0 {
        assert(pieces[0] == Seq::<char>::empty());
        assert(s.subrange(0, 0) =~= Seq::<char>::empty());
        assert forall|k: int| 0 <= k < split(s, sep).len() implies #[trigger] piece_placed(s, sep, k) by {
            assert(k == 0);
            assert(piece_at(s, sep, pieces, 0, 0));
        }
    } else {
        lemma_split_pieces(s.drop_last(), sep);
        assert forall|k: int| 0 <= k < split(s, sep).len() implies #[trigger] piece_placed(s, sep, k) by {
            lemma_split_piece_step(s, sep, k);
        }
    }
}

/// Splits `s` at every `sep`.
pub fn split_str(s: &str, sep: char) -> (r: Vec<String>)
    ensures
        r.deep_view() == split(s@, sep),
{
    let v = chars_of(s);
    let mut pieces: Vec<String> = Vec::new();
    let mut cur = String::new();
    let mut i: usize = 0;
    proof {
        assert(v@.take(0) =~= Seq::<char>::empty());
        assert(pieces.deep_view().push(cur@) =~= seq![Seq::<char>::empty()]);
    }
    while i < v.len()
        invariant
            i <= v@.len(),
            split(v@.take(i as int), sep) == pieces.deep_view().push(cur@),
        decreases v@.len() - i,
    {
        let c = v[i];
        let ghost before_p = pieces.deep_view();
        let ghost before_c = cur@;
        proof {
            assert(v@.take(i + 1).drop_last() =~= v@.take(i as int));
        }
        if c == sep {
            let done = cur;
            pieces.push(done);
            cur = String::new();
            proof {
                assert(pieces.deep_view() =~= before_p.push(before_c));
                assert(pieces.deep_view().push(cur@) =~= before_p.push(before_c).push(Seq::empty()));
            }
        } else {
            cur.push(c);
            proof {
                assert(pieces.deep_view().push(cur@) =~= before_p.push(before_c).update(before_p.len() as int, before_c.push(c)));
            }
        }
        i = i + 1;
    }
    proof {
        assert(v@.take(i as int) =~= v@);
    }
    let ghost before_p = pieces.deep_view();
    pieces.push(cur);
    proof {
        assert(pieces.deep_view() =~= before_p.push(cur@));
    }
    pieces
}

} // verus!

verus! {

/// `a` comes no later than `b` in the order of `String`'s `Ord`: character by
/// character (the order of UTF-8 bytes is that of code points), a prefix first.
pub open spec fn text_le(a: Seq<char>, b: Seq<char>) -> bool
    decreases a.len(),
{
    if a.len() == 0 {
        true
    } else if b.len() == 0 {
        false
    } else if a[0] != b[0] {
        (a[0] as int) < (b[0] as int)
    } else {
        text_le(a.drop_first(), b.drop_first())
    }
}

/// Any two texts are ordered one way or the other.
pub proof fn lemma_text_le_total(a: Seq<char>, b: Seq<char>)
    ensures
        text_le(a, b) || text_le(b, a),
    decreases a.len(),
{
    if a.len() > 0 && b.len() > 0 {
        if a[0] == b[0] {
            lemma_text_le_total(a.drop_first(), b.drop_first());
        } else {
            assert((a[0] as int) != (b[0] as int));
        }
    }
}

/// The order is transitive.
pub proof fn lemma_text_le_transitive(a: Seq<char>, b: Seq<char>, c: Seq<char>)
    requires
        text_le(a, b),
        text_le(b, c),
    ensures
        text_le(a, c),
    decreases a.len(),
{
    if a.len() > 0 && b.len() > 0 && c.len() > 0 && a[0] == b[0] && b[0] == c[0] {
        lemma_text_le_transitive(a.drop_first(), b.drop_first(), c.drop_first());
    }
}

/// Texts ordered both ways are equal.
pub proof fn lemma_text_le_antisymmetric(a: Seq<char>, b: Seq<char>)
    requires
        text_le(a, b),
        text_le(b, a),
    ensures
        a == b,
    decreases a.len(),
{
    if a.len() > 0 && b.len() > 0 {
        lemma_text_le_antisymmetric(a.drop_first(), b.drop_first());
        assert(a =~= seq![a[0]] + a.drop_first());
        assert(b =~= seq![b[0]] + b.drop_first());
    }
}

/// Whether `a` comes no later than `b` (as `a <= b` on strings).
pub fn text_le_exec(a: &str, b: &str) -> (r: bool)
    ensures
        r == text_le(a@, b@),
{
    let va = chars_of(a);
    let vb = chars_of(b);
    let mut i: usize = 0;
    proof {
        assert(va@.skip(0) =~= va@);
        assert(vb@.skip(0) =~= vb@);
    }
    while i < va.len() && i < vb.len() && va[i] == vb[i]
        invariant
            i <= va.len(),
            i <= vb.len(),
            text_le(a@, b@) == text_le(va@.skip(i as int), vb@.skip(i as int)),
            va@ == a@,
            vb@ == b@,
        decreases va.len() - i,
    {
        proof {
            assert(va@.skip(i as int).drop_first() =~= va@.skip(i + 1));
            assert(vb@.skip(i as int).drop_first() =~= vb@.skip(i + 1));
        }
        i = i + 1;
    }
    if i == va.len() {
        true
    } else if i == vb.len() {
        false
    } else {
        proof {
            assert(va@.skip(i as int)[0] == va@[i as int]);
            assert(vb@.skip(i as int)[0] == vb@[i as int]);
        }
        va[i] < vb[i]
    }
}

} // verus!
