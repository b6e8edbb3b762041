//! The text form of path expressions, and the regular expression that a
//! path word stands for.
use vstd::prelude::*;
use crate::render_target::ast::{ascending_chars, lemma_ascending_chars, strictly_sorted, PathElement, PathExpression, PathWord};
use crate::render_target::parser::insert_char;
use crate::text::{chars_of, join, lemma_join_push, push_str, string_of};
use crate::trusted::{regex_compiles, regex_is_match, regex_matches, regex_new};

verus! {

/// The characters that have a meaning in a regular expression and are
/// written with a backslash to stand for themselves (as `regex-syntax`'s
/// `is_meta_character` lists them).
pub open spec fn is_regex_meta(c: char) -> bool {
    ||| c == '\\' || c == '.' || c == '+' || c == '*' || c == '?' || c == '(' || c == ')'
    ||| c == '|' || c == '[' || c == ']' || c == '{' || c == '}' || c == '^' || c == '$'
    ||| c == '#' || c == '&' || c == '-' || c == '~'
}

/// `t` with a backslash before each meta character, as `regex::escape`
/// writes it.
pub open spec fn regex_escaped(t: Seq<char>) -> Seq<char>
    decreases t.len(),
{
    if t.len() == 0 {
        Seq::empty()
    } else {
        let c = t.last();
        regex_escaped(t.drop_last()) + (if is_regex_meta(c) { seq!['\\', c] } else { seq![c] })
    }
}

fn is_meta(c: char) -> (r: bool)
    ensures
        r == is_regex_meta(c),
{
    c == '\\' || c == '.' || c == '+' || c == '*' || c == '?' || c == '(' || c == ')' || c == '|'
        || c == '[' || c == ']' || c == '{' || c == '}' || c == '^' || c == '$' || c == '#'
        || c == '&' || c == '-' || c == '~'
}

/// `text` as a literal of a regular expression: each meta character gets a
/// backslash before it.
pub fn regex_escape(text: &str) -> (r: String)
    ensures
        r@ == regex_escaped(text@),
{
    let v = chars_of(text);
    let mut out = String::new();
    let mut i: usize = 0;
    proof {
        assert(v@.take(0) =~= Seq::<char>::empty());
    }
    while i < v.len()
        invariant
            i <= v.len(),
            v@ == text@,
            out@ == regex_escaped(v@.take(i as int)),
        decreases v.len() - i,
    {
        let c = v[i];
        let ghost before = out@;
        if is_meta(c) {
            out.push('\\');
        }
        out.push(c);
        proof {
            assert(v@.take(i + 1).drop_last() =~= v@.take(i as int));
            assert(v@.take(i + 1).last() == c);
            if is_regex_meta(c) {
                assert(out@ =~= before + seq!['\\', c]);
            } else {
                assert(out@ =~= before + seq![c]);
            }
        }
        i = i + 1;
    }
    proof {
        assert(v@.take(i as int) =~= text@);
    }
    out
}

/// The characters of a class in increasing order, each once.
fn class_chars(cs: &Vec<char>) -> (r: Vec<char>)
    ensures
        r@ == ascending_chars(cs@.to_set()),
{
    let mut v: Vec<char> = Vec::new();
    let mut i: usize = 0;
    proof {
        assert(cs@.take(0).to_set() =~= v@.to_set());
    }
    while i < cs.len()
        invariant
            i <= cs.len(),
            strictly_sorted(v@),
            v@.to_set() == cs@.take(i as int).to_set(),
        decreases cs.len() - i,
    {
        let ghost before = v@.to_set();
        insert_char(&mut v, cs[i]);
        proof {
            let t = cs@.take(i as int);
            let c = cs@[i as int];
            let u = cs@.take(i + 1);
            assert(u =~= t.push(c));
            assert forall|x: char| #[trigger] u.to_set().contains(x) == before.insert(c).contains(x) by {
                assert(u.to_set().contains(x) == u.contains(x));
                assert(t.to_set().contains(x) == t.contains(x));
                if u.contains(x) {
                    let k = choose|k: int| 0 <= k < u.len() && u[k] == x;
                    if k < t.len() {
                        assert(t[k] == x);
                    }
                }
                if t.contains(x) {
                    let k = choose|k: int| 0 <= k < t.len() && t[k] == x;
                    assert(u[k] == x);
                }
                if x == c {
                    assert(u[t.len() as int] == x);
                }
            }
            assert(u.to_set() =~= before.insert(c));
        }
        i = i + 1;
    }
    proof {
        assert(cs@.take(i as int) =~= cs@);
        lemma_ascending_chars(v@);
    }
    v
}

/// The text of one element: `$name`, the partial text, `*`, `[chars]` or
/// `{a,b}`.
pub open spec fn elem_text(e: PathElement) -> Seq<char> {
    match e {
        PathElement::Variable(v) => seq!['$'] + v@,
        PathElement::Partial(v) => v@,
        PathElement::Asterisk => seq!['*'],
        PathElement::OneOf(cs) => seq!['['] + ascending_chars(cs@.to_set()) + seq![']'],
        PathElement::Enum(arms) => seq!['{'] + join(arms.deep_view(), seq![',']) + seq!['}'],
    }
}

/// The texts of elements, one after the other.
pub open spec fn elems_text(es: Seq<PathElement>) -> Seq<char>
    decreases es.len(),
{
    if es.len() == 0 { Seq::empty() } else { elems_text(es.drop_last()) + elem_text(es.last()) }
}

/// The text of a word.
pub open spec fn word_text(w: PathWord) -> Seq<char> {
    elems_text(w.0@)
}

/// The text of a path: its words joined by dots.
pub open spec fn path_text(p: PathExpression) -> Seq<char> {
    join(p.0@.map_values(|w: PathWord| word_text(w)), seq!['.'])
}

/// Joins `parts` with `sep`.
fn join_strings(parts: &Vec<String>, sep: &str) -> (r: String)
    ensures
        r@ == join(parts.deep_view(), sep@),
{
    let mut out = String::new();
    let mut i: usize = 0;
    while i < parts.len()
        invariant
            i <= parts.len(),
            out@ == join(parts.deep_view().take(i as int), sep@),
        decreases parts.len() - i,
    {
        proof {
            assert(parts.deep_view().take(i + 1) =~= parts.deep_view().take(i as int).push(parts[i as int]@));
            lemma_join_push(parts.deep_view().take(i as int), sep@, parts[i as int]@);
        }
        if i > 0 {
            push_str(&mut out, sep);
        } else {
            assert(parts.deep_view().take(i as int).len() == 0);
            assert(out@ =~= Seq::<char>::empty());
        }
        push_str(&mut out, parts[i].as_str());
        i = i + 1;
    }
    assert(parts.deep_view().take(i as int) =~= parts.deep_view());
    out
}

/// The text of an element.
fn elem_to_string(e: &PathElement) -> (r: String)
    ensures
        r@ == elem_text(*e),
{
    let mut out = String::new();
    match e {
        PathElement::Variable(v) => {
            out.push('$');
            push_str(&mut out, v.as_str());
        },
        PathElement::Partial(v) => {
            push_str(&mut out, v.as_str());
        },
        PathElement::Asterisk => {
            out.push('*');
        },
        PathElement::OneOf(cs) => {
            let sorted = class_chars(cs);
            out.push('[');
            let inner = string_of(sorted.as_slice());
            push_str(&mut out, inner.as_str());
            out.push(']');
            assert(out@ =~= seq!['['] + sorted@ + seq![']']);
        },
        PathElement::Enum(arms) => {
            out.push('{');
            let mut comma = String::new();
            comma.push(',');
            assert(comma@ =~= seq![',']);
            let inner = join_strings(arms, comma.as_str());
            push_str(&mut out, inner.as_str());
            out.push('}');
            assert(out@ =~= seq!['{'] + join(arms.deep_view(), seq![',']) + seq!['}']);
        },
    }
    proof {
        assert(out@ =~= elem_text(*e));
    }
    out
}

impl PathWord {
    /// The text of the word.
    pub fn to_string(&self) -> (r: String)
        ensures
            r@ == word_text(*self),
    {
        let mut out = String::new();
        let mut i: usize = 0;
        while i < self.0.len()
            invariant
                i <= self.0@.len(),
                out@ == elems_text(self.0@.take(i as int)),
            decreases self.0@.len() - i,
        {
            proof {
                assert(self.0@.take(i + 1).drop_last() =~= self.0@.take(i as int));
            }
            let t = elem_to_string(&self.0[i]);
            push_str(&mut out, t.as_str());
            i = i + 1;
        }
        assert(self.0@.take(i as int) =~= self.0@);
        out
    }

    /// The regular expression this word stands for: `^`, then each element in
    /// a group, then `$`. A variable cannot be turned into one. A character
    /// class gives its characters in increasing order, each once
    /// (`ascending_chars`, see `lemma_ascending_chars_of_set`), joined by `|`.
    pub fn to_regex_pattern(&self) -> (r: Result<String, String>)
        ensures
            match r {
                Ok(p) => word_pattern(*self) == Ok::<Seq<char>, Seq<char>>(p@),
                Err(m) => word_pattern(*self) == Err::<Seq<char>, Seq<char>>(m@),
            },
    {
        let mut buf = String::new();
        buf.push('^');
        let mut i: usize = 0;
        proof {
            assert(self.0@.take(0) =~= Seq::<PathElement>::empty());
            assert(buf@.drop_first() =~= Seq::<char>::empty());
            assert(elems_pattern(Seq::<PathElement>::empty()) == Ok::<Seq<char>, Seq<char>>(Seq::empty()));
        }
        while i < self.0.len()
            invariant
                i <= self.0@.len(),
                elems_pattern(self.0@.take(i as int)) == Ok::<Seq<char>, Seq<char>>(buf@.drop_first()),
                buf@.len() >= 1,
                buf@[0] == '^',
            decreases self.0@.len() - i,
        {
            proof {
                assert(self.0@.take(i + 1).drop_last() =~= self.0@.take(i as int));
            }
            let part = match element_pattern(&self.0[i]) {
                Ok(p) => p,
                Err(m) => {
                    proof {
                        lemma_elems_pattern_err(self.0@, i as int + 1);
                    }
                    return Err(m);
                },
            };
            let ghost before = buf@;
            buf.push('(');
            push_str(&mut buf, part.as_str());
            buf.push(')');
            proof {
                assert(buf@.drop_first() =~= before.drop_first() + seq!['('] + part@ + seq![')']);
            }
            i = i + 1;
        }
        proof {
            assert(self.0@.take(i as int) =~= self.0@);
        }
        let ghost before = buf@;
        buf.push('$');
        proof {
            assert(buf@ =~= seq!['^'] + before.drop_first() + seq!['$']);
        }
        Ok(buf)
    }

    /// Compiles the word's regular expression (`to_regex_pattern`).
    pub fn to_regex(&self) -> (r: Result<regex::Regex, String>)
        ensures
            r is Ok <==> (word_pattern(*self) is Ok && regex_compiles(word_pattern(*self)->Ok_0)),
    {
        let pattern = self.to_regex_pattern()?;
        regex_new(pattern.as_str())
    }

    /// Whether `text` matches the word's regular expression; `false` when the
    /// word has no regular expression or it does not compile.
    pub fn matches(&self, text: &str) -> (b: bool)
        ensures
            b == match word_pattern(*self) {
                Ok(p) => regex_compiles(p) && regex_matches(p, text@),
                Err(_) => false,
            },
    {
        match self.to_regex_pattern() {
            Ok(p) => match regex_is_match(p.as_str(), text) {
                Some(m) => m,
                None => false,
            },
            Err(_) => false,
        }
    }
}

/// The regular expression for one element; a variable gives the message of
/// the error.
pub open spec fn element_regex(e: PathElement) -> Result<Seq<char>, Seq<char>> {
    match e {
        PathElement::Variable(v) => Err(
            "Variables are forbidden but variable "@ + v@ + " is in expression."@,
        ),
        PathElement::Partial(p) => Ok(regex_escaped(p@)),
        PathElement::Asterisk => Ok(seq!['.', '*', '?']),
        PathElement::OneOf(cs) => Ok(join(ascending_chars(cs@.to_set()).map_values(|c: char| regex_escaped(seq![c])), seq!['|'])),
        PathElement::Enum(arms) => Ok(join(arms.deep_view().map_values(|a: Seq<char>| regex_escaped(a)), seq!['|'])),
    }
}

/// The groups `(part)` of the elements, one after the other; the first
/// element without a regular expression gives the error.
pub open spec fn elems_pattern(es: Seq<PathElement>) -> Result<Seq<char>, Seq<char>>
    decreases es.len(),
{
    if es.len() == 0 {
        Ok(Seq::empty())
    } else {
        match elems_pattern(es.drop_last()) {
            Err(m) => Err(m),
            Ok(acc) => match element_regex(es.last()) {
                Err(m) => Err(m),
                Ok(p) => Ok(acc + seq!['('] + p + seq![')']),
            },
        }
    }
}

/// The regular expression of a word: `^(e1)(e2)...$`.
pub open spec fn word_pattern(w: PathWord) -> Result<Seq<char>, Seq<char>> {
    match elems_pattern(w.0@) {
        Ok(body) => Ok(seq!['^'] + body + seq!['$']),
        Err(m) => Err(m),
    }
}

proof fn lemma_elems_pattern_err(es: Seq<PathElement>, n: int)
    requires
        0 < n <= es.len(),
        elems_pattern(es.take(n)) is Err,
    ensures
        elems_pattern(es) == elems_pattern(es.take(n)),
    decreases es.len() - n,
{
    if n < es.len() {
        assert(es.take(n + 1).drop_last() =~= es.take(n));
        lemma_elems_pattern_err(es, n + 1);
    } else {
        assert(es.take(n) =~= es);
    }
}

/// The regular expression for one element.
fn element_pattern(e: &PathElement) -> (r: Result<String, String>)
    ensures
        match r {
            Ok(p) => element_regex(*e) == Ok::<Seq<char>, Seq<char>>(p@),
            Err(m) => element_regex(*e) == Err::<Seq<char>, Seq<char>>(m@),
        },
{
    match e {
        PathElement::Variable(v) => {
            let mut m = String::new();
            push_str(&mut m, "Variables are forbidden but variable ");
            push_str(&mut m, v.as_str());
            push_str(&mut m, " is in expression.");
            proof {
                assert(m@ =~= "Variables are forbidden but variable "@ + v@ + " is in expression."@);
            }
            Err(m)
        },
        PathElement::Partial(p) => Ok(regex_escape(p.as_str())),
        PathElement::Asterisk => {
            let mut m = String::new();
            m.push('.');
            m.push('*');
            m.push('?');
            proof {
                assert(m@ =~= seq!['.', '*', '?']);
            }
            Ok(m)
        },
        PathElement::OneOf(classes) => {
            let cs = class_chars(classes);
            let mut parts: Vec<String> = Vec::new();
            let mut i: usize = 0;
            while i < cs.len()
                invariant
                    i <= cs@.len(),
                    parts.deep_view() == cs@.take(i as int).map_values(|c: char| regex_escaped(seq![c])),
                decreases cs@.len() - i,
            {
                let mut one = String::new();
                one.push(cs[i]);
                let ghost before = parts.deep_view();
                let esc = regex_escape(one.as_str());
                proof {
                    assert(one@ =~= seq![cs@[i as int]]);
                }
                parts.push(esc);
                proof {
                    assert(parts.deep_view() =~= before.push(esc@));
                    assert(cs@.take(i + 1).map_values(|c: char| regex_escaped(seq![c])) =~= cs@.take(i as int).map_values(|c: char| regex_escaped(seq![c])).push(regex_escaped(seq![cs@[i as int]])));
                }
                i = i + 1;
            }
            proof {
                assert(cs@.take(i as int) =~= cs@);
            }
            let mut bar = String::new();
            bar.push('|');
            proof {
                assert(bar@ =~= seq!['|']);
            }
            Ok(join_strings(&parts, bar.as_str()))
        },
        PathElement::Enum(arms) => {
            let mut parts: Vec<String> = Vec::new();
            let mut i: usize = 0;
            while i < arms.len()
                invariant
                    i <= arms@.len(),
                    parts.deep_view() == arms.deep_view().take(i as int).map_values(|a: Seq<char>| regex_escaped(a)),
                decreases arms@.len() - i,
            {
                let ghost before = parts.deep_view();
                let esc = regex_escape(arms[i].as_str());
                parts.push(esc);
                proof {
                    assert(parts.deep_view() =~= before.push(esc@));
                    assert(arms.deep_view().take(i + 1).map_values(|a: Seq<char>| regex_escaped(a)) =~= arms.deep_view().take(i as int).map_values(|a: Seq<char>| regex_escaped(a)).push(regex_escaped(arms[i as int]@)));
                }
                i = i + 1;
            }
            proof {
                assert(arms.deep_view().take(i as int) =~= arms.deep_view());
            }
            let mut bar = String::new();
            bar.push('|');
            proof {
                assert(bar@ =~= seq!['|']);
            }
            Ok(join_strings(&parts, bar.as_str()))
        },
    }
}

impl PathExpression {
    /// The text of the path: its words joined by dots.
    pub fn to_string(&self) -> (r: String)
        ensures
            r@ == path_text(*self),
    {
        let mut parts: Vec<String> = Vec::new();
        let mut i: usize = 0;
        while i < self.0.len()
            invariant
                i <= self.0@.len(),
                parts.deep_view() == self.0@.take(i as int).map_values(|w: PathWord| word_text(w)),
            decreases self.0@.len() - i,
        {
            let ghost before = parts.deep_view();
            let t = self.0[i].to_string();
            parts.push(t);
            proof {
                assert(parts.deep_view() =~= before.push(t@));
                assert(self.0@.take(i + 1).map_values(|w: PathWord| word_text(w)) =~= self.0@.take(i as int).map_values(|w: PathWord| word_text(w)).push(word_text(self.0@[i as int])));
            }
            i = i + 1;
        }
        proof {
            assert(self.0@.take(i as int) =~= self.0@);
        }
        let mut dot = String::new();
        dot.push('.');
        proof {
            assert(dot@ =~= seq!['.']);
        }
        join_strings(&parts, dot.as_str())
    }
}

} // verus!
