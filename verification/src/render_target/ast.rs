use vstd::prelude::*;
use vstd::relations::total_ordering;

verus! {

/// A literal argument of a call or a template.
///
/// A floating-point literal is kept as the text that was parsed, which the
/// grammar guarantees to be a valid decimal floating-point number.
#[derive(Debug, Clone, PartialEq)]
pub enum LiteralValue {
    Boolean(bool),
    Integer(i64),
    Float(String),
    Str(String),
    Null,
}

/// One element of a word of a path expression.
///
/// `OneOf` stands for a set of characters. The parsers hold them in strictly
/// increasing order, each once (`elem_wf`, `expr_sorted`); `to_string` and
/// `to_regex_pattern` write the characters of the set in increasing order,
/// each once, whatever order a hand-built value holds them in.
#[derive(Debug, Clone, PartialEq)]
pub enum PathElement {
    Variable(String),
    Partial(String),
    Asterisk,
    OneOf(Vec<char>),
    Enum(Vec<String>),
}

/// A word of a path expression: the text between two dots.
#[derive(Debug, Clone, PartialEq)]
pub struct PathWord(pub Vec<PathElement>);

/// A dotted path expression such as `hosts.*.cpu`.
#[derive(Debug, Clone, PartialEq)]
pub struct PathExpression(pub Vec<PathWord>);

/// A function call such as `alias(a.b, "name")`.
#[derive(Debug, PartialEq)]
pub struct Call {
    pub function: String,
    pub args: Vec<Arg>,
    pub named_args: Vec<(String, Arg)>,
}

/// An argument of a call.
#[derive(Debug, PartialEq)]
pub enum Arg {
    Literal(LiteralValue),
    Expression(Expression),
}

/// The source series of a template.
#[derive(Debug, PartialEq)]
pub enum Source {
    Call(Call),
    Path(PathExpression),
}

/// A `template(...)` expression.
#[derive(Debug, PartialEq)]
pub struct Template {
    pub source: Source,
    pub args: Vec<LiteralValue>,
    pub named_args: Vec<(String, LiteralValue)>,
}

/// A render target expression.
#[derive(Debug, PartialEq)]
pub enum Expression {
    Path(PathExpression),
    Call(Call),
    Template(Template),
}

// ----- mathematical models -----

/// Model of a literal.
pub enum Lit {
    Boolean(bool),
    Integer(int),
    Float(Seq<char>),
    Str(Seq<char>),
    Nothing,
}

/// Model of a path element. A character class is its characters in
/// increasing order.
pub enum Elem {
    Variable(Seq<char>),
    Partial(Seq<char>),
    Asterisk,
    OneOf(Seq<char>),
    Enum(Seq<Seq<char>>),
}

/// Model of an argument.
pub enum ArgM {
    Literal(Lit),
    Expression(ExprM),
}

/// Model of a call.
pub struct CallM {
    pub function: Seq<char>,
    pub args: Seq<ArgM>,
    pub named_args: Seq<(Seq<char>, ArgM)>,
}

/// Model of a template source.
pub enum SourceM {
    Call(CallM),
    Path(Seq<Seq<Elem>>),
}

/// Model of a template.
pub struct TemplateM {
    pub source: SourceM,
    pub args: Seq<Lit>,
    pub named_args: Seq<(Seq<char>, Lit)>,
}

/// Model of an expression.
pub enum ExprM {
    Path(Seq<Seq<Elem>>),
    Call(CallM),
    Template(TemplateM),
}

pub open spec fn lit_m(l: LiteralValue) -> Lit {
    match l {
        LiteralValue::Boolean(b) => Lit::Boolean(b),
        LiteralValue::Integer(i) => Lit::Integer(i as int),
        LiteralValue::Float(t) => Lit::Float(t@),
        LiteralValue::Str(t) => Lit::Str(t@),
        LiteralValue::Null => Lit::Nothing,
    }
}

pub open spec fn elem_m(e: PathElement) -> Elem {
    match e {
        PathElement::Variable(t) => Elem::Variable(t@),
        PathElement::Partial(t) => Elem::Partial(t@),
        PathElement::Asterisk => Elem::Asterisk,
        PathElement::OneOf(cs) => Elem::OneOf(cs@),
        PathElement::Enum(arms) => Elem::Enum(arms.deep_view()),
    }
}

pub open spec fn word_m(w: PathWord) -> Seq<Elem> {
    w.0@.map_values(|e: PathElement| elem_m(e))
}

pub open spec fn path_m(p: PathExpression) -> Seq<Seq<Elem>> {
    p.0@.map_values(|w: PathWord| word_m(w))
}

pub open spec fn lits_m(s: Seq<LiteralValue>) -> Seq<Lit> {
    s.map_values(|l: LiteralValue| lit_m(l))
}

pub open spec fn named_lits_m(s: Seq<(String, LiteralValue)>) -> Seq<(Seq<char>, Lit)> {
    s.map_values(|x: (String, LiteralValue)| (x.0@, lit_m(x.1)))
}

pub open spec fn expr_m(e: Expression) -> ExprM
    decreases e,
{
    match e {
        Expression::Path(p) => ExprM::Path(path_m(p)),
        Expression::Call(c) => ExprM::Call(call_m(c)),
        Expression::Template(t) => ExprM::Template(template_m(t)),
    }
}

pub open spec fn template_m(t: Template) -> TemplateM
    decreases t,
{
    TemplateM {
        source: source_m(t.source),
        args: lits_m(t.args@),
        named_args: named_lits_m(t.named_args@),
    }
}

pub open spec fn source_m(s: Source) -> SourceM
    decreases s,
{
    match s {
        Source::Call(c) => SourceM::Call(call_m(c)),
        Source::Path(p) => SourceM::Path(path_m(p)),
    }
}

pub open spec fn call_m(c: Call) -> CallM
    decreases c,
{
    CallM {
        function: c.function@,
        args: args_m(c.args@),
        named_args: named_args_m(c.named_args@),
    }
}

pub open spec fn args_m(s: Seq<Arg>) -> Seq<ArgM>
    decreases s,
{
    if s.len() == 0 {
        Seq::empty()
    } else {
        args_m(s.subrange(0, s.len() - 1)).push(arg_m(s[s.len() - 1]))
    }
}

pub open spec fn named_args_m(s: Seq<(String, Arg)>) -> Seq<(Seq<char>, ArgM)>
    decreases s,
{
    if s.len() == 0 {
        Seq::empty()
    } else {
        named_args_m(s.subrange(0, s.len() - 1)).push((s[s.len() - 1].0@, arg_m(s[s.len() - 1].1)))
    }
}

pub open spec fn arg_m(a: Arg) -> ArgM
    decreases a,
{
    match a {
        Arg::Literal(l) => ArgM::Literal(lit_m(l)),
        Arg::Expression(e) => ArgM::Expression(expr_m(e)),
    }
}

pub proof fn lemma_args_m_len(s: Seq<Arg>)
    ensures
        args_m(s).len() == s.len(),
        forall|i: int| 0 <= i < s.len() ==> #[trigger] args_m(s)[i] == arg_m(s[i]),
    decreases s.len(),
{
    if s.len() > 0 {
        lemma_args_m_len(s.subrange(0, s.len() - 1));
    }
}

pub proof fn lemma_named_args_m_len(s: Seq<(String, Arg)>)
    ensures
        named_args_m(s).len() == s.len(),
        forall|i: int| 0 <= i < s.len() ==> #[trigger] named_args_m(s)[i] == (s[i].0@, arg_m(s[i].1)),
    decreases s.len(),
{
    if s.len() > 0 {
        lemma_named_args_m_len(s.subrange(0, s.len() - 1));
    }
}

} // verus!

verus! {

impl View for LiteralValue {
    type V = Lit;

    open spec fn view(&self) -> Lit {
        lit_m(*self)
    }
}

impl View for PathElement {
    type V = Elem;

    open spec fn view(&self) -> Elem {
        elem_m(*self)
    }
}

impl View for PathWord {
    type V = Seq<Elem>;

    open spec fn view(&self) -> Seq<Elem> {
        word_m(*self)
    }
}

impl View for PathExpression {
    type V = Seq<Seq<Elem>>;

    open spec fn view(&self) -> Seq<Seq<Elem>> {
        path_m(*self)
    }
}

impl View for Call {
    type V = CallM;

    open spec fn view(&self) -> CallM {
        call_m(*self)
    }
}

impl View for Arg {
    type V = ArgM;

    open spec fn view(&self) -> ArgM {
        arg_m(*self)
    }
}

impl View for Source {
    type V = SourceM;

    open spec fn view(&self) -> SourceM {
        source_m(*self)
    }
}

impl View for Template {
    type V = TemplateM;

    open spec fn view(&self) -> TemplateM {
        template_m(*self)
    }
}

impl View for Expression {
    type V = ExprM;

    open spec fn view(&self) -> ExprM {
        expr_m(*self)
    }
}

/// Every character of `v` is smaller than the ones after it.
pub open spec fn strictly_sorted(v: Seq<char>) -> bool {
    forall|i: int, j: int| 0 <= i < j < v.len() ==> (v[i] as int) < (v[j] as int)
}

/// The characters of `set` in increasing order, each once.
pub open spec fn ascending_chars(set: Set<char>) -> Seq<char> {
    choose|s: Seq<char>| strictly_sorted(s) && s.to_set() == set
}

/// Two lists of characters in increasing order that hold the same
/// characters are the same list.
pub proof fn lemma_sorted_unique(s: Seq<char>, t: Seq<char>)
    requires
        strictly_sorted(s),
        strictly_sorted(t),
        s.to_set() == t.to_set(),
    ensures
        s == t,
    decreases s.len(),
{
    assert forall|x: char| s.contains(x) <==> t.contains(x) by {
        assert(s.to_set().contains(x) == s.contains(x));
        assert(t.to_set().contains(x) == t.contains(x));
    }
    if s.len() == 0 || t.len() == 0 {
        if s.len() > 0 {
            assert(s.contains(s[0]));
        }
        if t.len() > 0 {
            assert(t.contains(t[0]));
        }
        assert(s =~= t);
    } else {
        assert(s.contains(s[0]));
        assert(t.contains(t[0]));
        let k = choose|k: int| 0 <= k < t.len() && t[k] == s[0];
        let j = choose|j: int| 0 <= j < s.len() && s[j] == t[0];
        if k > 0 {
            assert((t[0] as int) < (t[k] as int));
            if j > 0 {
                assert((s[0] as int) < (s[j] as int));
            }
        }
        assert(s[0] == t[0]);
        let s2 = s.drop_first();
        let t2 = t.drop_first();
        assert forall|x: char| s2.contains(x) <==> t2.contains(x) by {
            if s2.contains(x) {
                let i = choose|i: int| 0 <= i < s2.len() && s2[i] == x;
                assert(s[i + 1] == x);
                assert((s[0] as int) < (s[i + 1] as int));
                assert(t.contains(x));
                let m = choose|m: int| 0 <= m < t.len() && t[m] == x;
                assert(m != 0);
                assert(t2[m - 1] == x);
            }
            if t2.contains(x) {
                let i = choose|i: int| 0 <= i < t2.len() && t2[i] == x;
                assert(t[i + 1] == x);
                assert((t[0] as int) < (t[i + 1] as int));
                assert(s.contains(x));
                let m = choose|m: int| 0 <= m < s.len() && s[m] == x;
                assert(m != 0);
                assert(s2[m - 1] == x);
            }
        }
        assert forall|x: char| s2.to_set().contains(x) == t2.to_set().contains(x) by {
            assert(s2.to_set().contains(x) == s2.contains(x));
            assert(t2.to_set().contains(x) == t2.contains(x));
        }
        assert(s2.to_set() =~= t2.to_set());
        lemma_sorted_unique(s2, t2);
        assert(s =~= seq![s[0]] + s2);
        assert(t =~= seq![t[0]] + t2);
    }
}

/// A list of characters in increasing order is the increasing list of its
/// characters.
pub proof fn lemma_ascending_chars(s: Seq<char>)
    requires
        strictly_sorted(s),
    ensures
        ascending_chars(s.to_set()) == s,
        strictly_sorted(ascending_chars(s.to_set())),
{
    assert(strictly_sorted(s) && s.to_set() == s.to_set());
    let c = ascending_chars(s.to_set());
    assert(strictly_sorted(c) && c.to_set() == s.to_set());
    lemma_sorted_unique(c, s);
}

/// Every finite set of characters has its characters in increasing order,
/// each once: `ascending_chars` lists exactly the set, strictly increasing.
pub proof fn lemma_ascending_chars_of_set(set: Set<char>)
    requires
        set.finite(),
    ensures
        strictly_sorted(ascending_chars(set)),
        ascending_chars(set).to_set() == set,
    decreases set.len(),
{
    if set.len() == 0 {
        set.lemma_len0_is_empty();
        let e = Seq::<char>::empty();
        assert(e.to_set() =~= set);
        assert(strictly_sorted(e) && e.to_set() == set);
    } else {
        let r = |a: char, b: char| (a as int) <= (b as int);
        assert(total_ordering(r)) by {
            assert forall|x: char, y: char| #[trigger] r(x, y) && #[trigger] r(y, x) implies x == y by {
                assert((x as int) == (y as int));
            }
        }
        set.find_unique_minimal_ensures(r);
        let m = set.find_unique_minimal(r);
        let rest = set.remove(m);
        lemma_ascending_chars_of_set(rest);
        let t = ascending_chars(rest);
        let w = seq![m] + t;
        assert forall|i: int, j: int| 0 <= i < j < w.len() implies (w[i] as int) < (w[j] as int) by {
            assert(t.to_set().contains(w[j]) == t.contains(w[j]));
            assert(t.contains(t[j - 1]));
            if i == 0 {
                assert(set.contains(w[j]) && w[j] != m);
                if !r(m, w[j]) {
                    assert(r(w[j], m));
                }
            }
        }
        assert forall|x: char| #[trigger] w.to_set().contains(x) == set.contains(x) by {
            assert(w.to_set().contains(x) == w.contains(x));
            assert(t.to_set().contains(x) == t.contains(x));
            if w.contains(x) {
                let k = choose|k: int| 0 <= k < w.len() && w[k] == x;
                if k > 0 {
                    assert(t[k - 1] == x);
                }
            }
            if t.contains(x) {
                let k = choose|k: int| 0 <= k < t.len() && t[k] == x;
                assert(w[k + 1] == x);
            }
            if x == m {
                assert(w[0] == x);
            }
        }
        assert(w.to_set() =~= set);
        assert(strictly_sorted(w) && w.to_set() == set);
    }
}

/// Every character group of the element lists its characters in strictly
/// increasing order.
pub open spec fn elem_wf(e: PathElement) -> bool {
    match e {
        PathElement::OneOf(cs) => forall|i: int, j: int| 0 <= i < j < cs@.len() ==> (cs@[i] as int) < (cs@[j] as int),
        _ => true,
    }
}

/// Every element of the word is well formed.
pub open spec fn word_wf(w: PathWord) -> bool {
    forall|i: int| 0 <= i < w.0@.len() ==> #[trigger] elem_wf(w.0@[i])
}

/// Every word of the path is well formed.
pub open spec fn path_wf(p: PathExpression) -> bool {
    forall|i: int| 0 <= i < p.0@.len() ==> #[trigger] word_wf(p.0@[i])
}

/// Every character group of the word, as modelled, lists its characters
/// in strictly increasing order.
pub open spec fn elems_sorted(w: Seq<Elem>) -> bool {
    forall|i: int| 0 <= i < w.len() ==> (#[trigger] w[i] matches Elem::OneOf(cs) ==> strictly_sorted(cs))
}

/// Every word of the modelled path is sorted in that sense.
pub open spec fn words_sorted(p: Seq<Seq<Elem>>) -> bool {
    forall|i: int| 0 <= i < p.len() ==> elems_sorted(#[trigger] p[i])
}

/// Every character group of every path in the modelled expression, in call
/// arguments and template sources too, lists its characters in strictly
/// increasing order.
pub open spec fn expr_sorted(e: ExprM) -> bool
    decreases e,
{
    match e {
        ExprM::Path(p) => words_sorted(p),
        ExprM::Call(c) => call_sorted(c),
        ExprM::Template(t) => match t.source {
            SourceM::Call(c) => call_sorted(c),
            SourceM::Path(p) => words_sorted(p),
        },
    }
}

/// Every argument of the modelled call is sorted in the sense of
/// `expr_sorted`.
pub open spec fn call_sorted(c: CallM) -> bool
    decreases c,
{
    &&& forall|i: int| 0 <= i < c.args.len() ==> arg_sorted(#[trigger] c.args[i])
    &&& forall|j: int| 0 <= j < c.named_args.len() ==> arg_sorted(#[trigger] c.named_args[j].1)
}

/// A literal argument, or an expression argument that is sorted.
pub open spec fn arg_sorted(a: ArgM) -> bool
    decreases a,
{
    match a {
        ArgM::Literal(_) => true,
        ArgM::Expression(e) => expr_sorted(e),
    }
}

/// A modelled template source is sorted in the sense of `expr_sorted`.
pub open spec fn source_sorted(s: SourceM) -> bool {
    match s {
        SourceM::Call(c) => call_sorted(c),
        SourceM::Path(p) => words_sorted(p),
    }
}

/// A well-formed path is sorted as modelled.
pub proof fn lemma_path_sorted(p: PathExpression)
    requires
        path_wf(p),
    ensures
        words_sorted(path_m(p)),
{
    assert forall|i: int| 0 <= i < path_m(p).len() implies elems_sorted(#[trigger] path_m(p)[i]) by {
        assert(word_wf(p.0@[i]));
        let w = p.0@[i];
        assert(path_m(p)[i] == word_m(w));
        assert forall|k: int| 0 <= k < word_m(w).len() implies (#[trigger] word_m(w)[k] matches Elem::OneOf(cs) ==> strictly_sorted(cs)) by {
            assert(elem_wf(w.0@[k]));
            assert(word_m(w)[k] == elem_m(w.0@[k]));
        }
    }
}

} // verus!
