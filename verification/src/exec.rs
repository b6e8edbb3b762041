//! Series functions of render targets (`sumSeries`, `aliasByNode`, ...):
//! their names, their arguments and what they do to series. The value type
//! of points is a parameter; arithmetic on values is handed in by the caller.
use vstd::prelude::*;
use crate::render_target::ast::{Arg, Call, Expression, LiteralValue, PathExpression};
use crate::text::{push_str, split, split_str, lemma_split_len};

verus! {

/// A point: a timestamp and a value.
#[derive(Debug, Clone, Copy)]
pub struct Point<V>(pub i32, pub V);

/// A named list of points.
#[derive(Debug, Clone)]
pub struct Series<V> {
    pub name: String,
    pub points: Vec<Point<V>>,
}

/// The functions that render targets may call.
#[derive(Debug, Clone, Copy, PartialEq, Eq)]
pub enum DFunction {
    SumSeries,
    Absolute,
    Alias,
    AliasByMetric,
    AliasByNode,
    AverageSeries,
    CountSeries,
    DivideSeries,
    DiffSeries,
    MaxSeries,
    MinSeries,
    MultiplySeries,
}

/// The name of a function in targets (camel case).
pub open spec fn function_name(f: DFunction) -> Seq<char> {
    match f {
        DFunction::SumSeries => "sumSeries"@,
        DFunction::Absolute => "absolute"@,
        DFunction::Alias => "alias"@,
        DFunction::AliasByMetric => "aliasByMetric"@,
        DFunction::AliasByNode => "aliasByNode"@,
        DFunction::AverageSeries => "averageSeries"@,
        DFunction::CountSeries => "countSeries"@,
        DFunction::DivideSeries => "divideSeries"@,
        DFunction::DiffSeries => "diffSeries"@,
        DFunction::MaxSeries => "maxSeries"@,
        DFunction::MinSeries => "minSeries"@,
        DFunction::MultiplySeries => "multiplySeries"@,
    }
}

fn name_is(s: &str, lit: &str) -> (b: bool)
    ensures
        b == (s@ == lit@),
{
    crate::text::str_eq(s, lit)
}

impl DFunction {
    /// The function that `s` names; `None` for any other text.
    pub fn from_text(s: &str) -> (r: Option<DFunction>)
        ensures
            r == DFunction::spec_from_text(s@),
    {
        if name_is(s, "sumSeries") {
            Some(DFunction::SumSeries)
        } else if name_is(s, "absolute") {
            Some(DFunction::Absolute)
        } else if name_is(s, "alias") {
            Some(DFunction::Alias)
        } else if name_is(s, "aliasByMetric") {
            Some(DFunction::AliasByMetric)
        } else if name_is(s, "aliasByNode") {
            Some(DFunction::AliasByNode)
        } else if name_is(s, "averageSeries") {
            Some(DFunction::AverageSeries)
        } else if name_is(s, "countSeries") {
            Some(DFunction::CountSeries)
        } else if name_is(s, "divideSeries") {
            Some(DFunction::DivideSeries)
        } else if name_is(s, "diffSeries") {
            Some(DFunction::DiffSeries)
        } else if name_is(s, "maxSeries") {
            Some(DFunction::MaxSeries)
        } else if name_is(s, "minSeries") {
            Some(DFunction::MinSeries)
        } else if name_is(s, "multiplySeries") {
            Some(DFunction::MultiplySeries)
        } else {
            None
        }
    }

    /// The name of the function.
    pub fn name(&self) -> (r: String)
        ensures
            r@ == function_name(*self),
    {
        let mut m = String::new();
        match self {
            DFunction::SumSeries => push_str(&mut m, "sumSeries"),
            DFunction::Absolute => push_str(&mut m, "absolute"),
            DFunction::Alias => push_str(&mut m, "alias"),
            DFunction::AliasByMetric => push_str(&mut m, "aliasByMetric"),
            DFunction::AliasByNode => push_str(&mut m, "aliasByNode"),
            DFunction::AverageSeries => push_str(&mut m, "averageSeries"),
            DFunction::CountSeries => push_str(&mut m, "countSeries"),
            DFunction::DivideSeries => push_str(&mut m, "divideSeries"),
            DFunction::DiffSeries => push_str(&mut m, "diffSeries"),
            DFunction::MaxSeries => push_str(&mut m, "maxSeries"),
            DFunction::MinSeries => push_str(&mut m, "minSeries"),
            DFunction::MultiplySeries => push_str(&mut m, "multiplySeries"),
        }
        m
    }
}

/// The last dot-separated part of a metric name.
pub open spec fn base_metric_text(metric: Seq<char>) -> Seq<char> {
    split(metric, '.').last()
}

/// The last dot-separated part of a metric name.
pub fn base_metric(metric: String) -> (r: String)
    ensures
        r@ == base_metric_text(metric@),
{
    let parts = split_str(metric.as_str(), '.');
    proof {
        lemma_split_len(metric@, '.');
    }
    let n = parts.len();
    parts[n - 1].clone()
}

/// The base metric of a name holds no dot and is the end of the name: all
/// of it where it has no dot, else what follows the last dot.
pub proof fn lemma_base_metric_is_last_part(metric: Seq<char>)
    ensures
        forall|i: int| 0 <= i < base_metric_text(metric).len() ==> base_metric_text(metric)[i] != '.',
        base_metric_text(metric).len() <= metric.len(),
        metric.skip(metric.len() - base_metric_text(metric).len()) == base_metric_text(metric),
{
    crate::text::lemma_split_last(metric, '.');
}

/// The part of a name that node `node` selects among `count` parts: counted
/// from the end when negative; `None` when out of range.
pub open spec fn node_index(node: i64, count: int) -> int {
    if node < 0 { count + node } else { node as int }
}

/// The part that `node` selects, or the empty text when there is none.
pub open spec fn node_part(parts: Seq<Seq<char>>, node: i64) -> Seq<char> {
    let i = node_index(node, parts.len() as int);
    if 0 <= i < parts.len() { parts[i] } else { Seq::empty() }
}

/// `.` and the selected part, for each node in turn.
pub open spec fn node_metric_text(metric: Seq<char>, nodes: Seq<i64>) -> Seq<char>
    decreases nodes.len(),
{
    if nodes.len() == 0 {
        Seq::empty()
    } else {
        node_metric_text(metric, nodes.drop_last()) + seq!['.'] + node_part(split(metric, '.'), nodes.last())
    }
}

/// The parts of a metric name that `nodes` select, each after a dot.
pub fn node_metric(metric: String, nodes: Vec<i64>) -> (r: String)
    ensures
        r@ == node_metric_text(metric@, nodes@),
{
    let parts = split_str(metric.as_str(), '.');
    let count = parts.len();
    let mut out = String::new();
    let mut i: usize = 0;
    while i < nodes.len()
        invariant
            i <= nodes@.len(),
            count == parts.deep_view().len(),
            parts.deep_view() == split(metric@, '.'),
            out@ == node_metric_text(metric@, nodes@.take(i as int)),
        decreases nodes@.len() - i,
    {
        let node = nodes[i];
        let index: i128 = if node < 0 { (count as i128) + (node as i128) } else { node as i128 };
        proof {
            assert(nodes@.take(i + 1).drop_last() =~= nodes@.take(i as int));
            assert(index as int == node_index(node, count as int));
        }
        out.push('.');
        if 0 <= index && index < count as i128 {
            push_str(&mut out, parts[index as usize].as_str());
        }
        i = i + 1;
        proof {
            assert(out@ =~= node_metric_text(metric@, nodes@.take(i as int)));
        }
    }
    proof {
        assert(nodes@.take(i as int) =~= nodes@);
    }
    out
}

/// Gives every series the name `name`.
pub fn alias<V>(series: Vec<Series<V>>, name: String) -> (r: Vec<Series<V>>)
    ensures
        r@.len() == series@.len(),
        forall|i: int| 0 <= i < r@.len() ==> (#[trigger] r@[i]).name@ == name@ && r@[i].points == series@[i].points,
{
    let ghost orig = series@;
    let mut rest = series;
    let mut out: Vec<Series<V>> = Vec::new();
    while rest.len() > 0
        invariant
            out@.len() + rest@.len() == orig.len(),
            rest@ == orig.skip(out@.len() as int),
            forall|i: int| 0 <= i < out@.len() ==> (#[trigger] out@[i]).name@ == name@ && out@[i].points == orig[i].points,
        decreases rest@.len(),
    {
        let s = rest.remove(0);
        proof {
            assert(orig[out@.len() as int] == s);
        }
        out.push(Series { name: name.clone(), points: s.points });
        proof {
            assert(rest@ =~= orig.skip(out@.len() as int));
        }
    }
    out
}

/// Renames every series to the last part of its name.
pub fn alias_by_metric<V>(series: Vec<Series<V>>) -> (r: Vec<Series<V>>)
    ensures
        r@.len() == series@.len(),
        forall|i: int| 0 <= i < r@.len() ==> (#[trigger] r@[i]).name@ == base_metric_text(series@[i].name@) && r@[i].points == series@[i].points,
{
    let ghost orig = series@;
    let mut rest = series;
    let mut out: Vec<Series<V>> = Vec::new();
    while rest.len() > 0
        invariant
            out@.len() + rest@.len() == orig.len(),
            rest@ == orig.skip(out@.len() as int),
            forall|i: int| 0 <= i < out@.len() ==> (#[trigger] out@[i]).name@ == base_metric_text(orig[i].name@) && out@[i].points == orig[i].points,
        decreases rest@.len(),
    {
        let s = rest.remove(0);
        proof {
            assert(orig[out@.len() as int] == s);
        }
        let Series { name, points } = s;
        out.push(Series { name: base_metric(name), points });
        proof {
            assert(rest@ =~= orig.skip(out@.len() as int));
        }
    }
    out
}

/// Renames every series to the parts of its name that `nodes` select.
pub fn alias_by_node<V>(series: Vec<Series<V>>, nodes: Vec<i64>) -> (r: Vec<Series<V>>)
    ensures
        r@.len() == series@.len(),
        forall|i: int| 0 <= i < r@.len() ==> (#[trigger] r@[i]).name@ == node_metric_text(series@[i].name@, nodes@) && r@[i].points == series@[i].points,
{
    let ghost orig = series@;
    let mut rest = series;
    let mut out: Vec<Series<V>> = Vec::new();
    while rest.len() > 0
        invariant
            out@.len() + rest@.len() == orig.len(),
            rest@ == orig.skip(out@.len() as int),
            forall|i: int| 0 <= i < out@.len() ==> (#[trigger] out@[i]).name@ == node_metric_text(orig[i].name@, nodes@) && out@[i].points == orig[i].points,
        decreases rest@.len(),
    {
        let s = rest.remove(0);
        proof {
            assert(orig[out@.len() as int] == s);
        }
        let Series { name, points } = s;
        out.push(Series { name: node_metric(name, nodes.clone()), points });
        proof {
            assert(rest@ =~= orig.skip(out@.len() as int));
        }
    }
    out
}

/// The integer literals among `values`, in order.
pub open spec fn integers_of(values: Seq<LiteralValue>) -> Seq<i64>
    decreases values.len(),
{
    if values.len() == 0 {
        Seq::empty()
    } else {
        let prev = integers_of(values.drop_last());
        match values.last() {
            LiteralValue::Integer(v) => prev.push(v),
            _ => prev,
        }
    }
}

/// The integer literals among `values`, in order.
pub fn resolve_numbers(values: &[LiteralValue]) -> (r: Vec<i64>)
    ensures
        r@ == integers_of(values@),
{
    let mut out: Vec<i64> = Vec::new();
    let mut i: usize = 0;
    while i < values.len()
        invariant
            i <= values@.len(),
            out@ == integers_of(values@.take(i as int)),
        decreases values@.len() - i,
    {
        proof {
            assert(values@.take(i + 1).drop_last() =~= values@.take(i as int));
        }
        if let LiteralValue::Integer(v) = values[i] {
            out.push(v);
        }
        i = i + 1;
    }
    proof {
        assert(values@.take(i as int) =~= values@);
    }
    out
}

/// The expression arguments, then the literal arguments, each in order.
pub open spec fn expression_args(args: Seq<Arg>) -> Seq<Expression>
    decreases args.len(),
{
    if args.len() == 0 {
        Seq::empty()
    } else {
        let prev = expression_args(args.drop_last());
        match args.last() {
            Arg::Expression(e) => prev.push(e),
            _ => prev,
        }
    }
}

/// The literal arguments in order.
pub open spec fn literal_args(args: Seq<Arg>) -> Seq<LiteralValue>
    decreases args.len(),
{
    if args.len() == 0 {
        Seq::empty()
    } else {
        let prev = literal_args(args.drop_last());
        match args.last() {
            Arg::Literal(l) => prev.push(l),
            _ => prev,
        }
    }
}

/// Separates the expression arguments of a call from its literal ones.
pub fn split_call_args(args: Vec<Arg>) -> (r: (Vec<Expression>, Vec<LiteralValue>))
    ensures
        r.0@ == expression_args(args@),
        r.1@ == literal_args(args@),
{
    let ghost orig = args@;
    proof {
        assert(orig.len() == args.len());
    }
    let mut rest = args;
    let mut values: Vec<Expression> = Vec::new();
    let mut literals: Vec<LiteralValue> = Vec::new();
    let mut k: usize = 0;
    while rest.len() > 0
        invariant
            k + rest@.len() == orig.len(),
            orig.len() <= usize::MAX,
            orig == args@,
            rest@ == orig.skip(k as int),
            values@ == expression_args(orig.take(k as int)),
            literals@ == literal_args(orig.take(k as int)),
        decreases rest@.len(),
    {
        let a = rest.remove(0);
        proof {
            assert(orig[k as int] == a);
            assert(orig.take(k + 1).drop_last() =~= orig.take(k as int));
        }
        match a {
            Arg::Expression(e) => values.push(e),
            Arg::Literal(l) => literals.push(l),
        }
        k = k + 1;
        proof {
            assert(rest@ =~= orig.skip(k as int));
        }
    }
    proof {
        assert(orig.take(k as int) =~= orig);
    }
    (values, literals)
}


/// The smaller of two lengths.
pub open spec fn min_len(a: int, b: int) -> int {
    if a <= b { a } else { b }
}

/// `out` is `acc` combined point by point with `serie`: as long as both
/// last, with the timestamps of `acc` and the values `f(acc, serie)`.
pub open spec fn combined<V, F: Fn(V, V) -> V>(f: F, acc: Seq<Point<V>>, serie: Seq<Point<V>>, out: Seq<Point<V>>) -> bool {
    &&& out.len() == min_len(acc.len() as int, serie.len() as int)
    &&& forall|k: int| 0 <= k < out.len() ==> (#[trigger] out[k]).0 == acc[k].0 && call_ensures(f, (acc[k].1, serie[k].1), out[k].1)
}

/// `chain` lists the points after combining `init` with each of `series` in
/// turn: it starts at `init` and step `j` combines with `series[j]`.
pub open spec fn fold_chain<V, F: Fn(V, V) -> V>(f: F, init: Seq<Point<V>>, series: Seq<Seq<Point<V>>>, chain: Seq<Seq<Point<V>>>) -> bool {
    &&& chain.len() == series.len() + 1
    &&& chain[0] == init
    &&& forall|j: int| 0 <= j < series.len() ==> combined(f, #[trigger] chain[j], series[j], chain[j + 1])
}

/// `out` is `init` combined with each of `series` in turn.
pub open spec fn folded<V, F: Fn(V, V) -> V>(f: F, init: Seq<Point<V>>, series: Seq<Seq<Point<V>>>, out: Seq<Point<V>>) -> bool {
    exists|chain: Seq<Seq<Point<V>>>| #[trigger] fold_chain(f, init, series, chain) && chain.last() == out
}

/// The points of each series.
pub open spec fn points_of<V>(series: Seq<Series<V>>) -> Seq<Seq<Point<V>>> {
    series.map_values(|s: Series<V>| s.points@)
}

/// The timestamps of `points`, each with the value `initial`.
pub open spec fn with_value<V>(points: Seq<Point<V>>, initial: V) -> Seq<Point<V>> {
    points.map_values(|p: Point<V>| Point(p.0, initial))
}

/// Combines `acc` point by point with `serie`.
fn combine<V: Copy, F: Fn(V, V) -> V>(f: &F, acc: &Vec<Point<V>>, serie: &Vec<Point<V>>) -> (r: Vec<Point<V>>)
    requires
        forall|a: V, b: V| f.requires((a, b)),
    ensures
        combined(*f, acc@, serie@, r@),
{
    let n = if acc.len() <= serie.len() { acc.len() } else { serie.len() };
    let mut out: Vec<Point<V>> = Vec::new();
    let mut k: usize = 0;
    while k < n
        invariant
            k <= n,
            n == min_len(acc@.len() as int, serie@.len() as int),
            forall|a: V, b: V| f.requires((a, b)),
            out@.len() == k,
            forall|j: int| 0 <= j < k ==> (#[trigger] out@[j]).0 == acc@[j].0 && call_ensures(*f, (acc@[j].1, serie@[j].1), out@[j].1),
        decreases n - k,
    {
        let v = f(acc[k].1, serie[k].1);
        out.push(Point(acc[k].0, v));
        k = k + 1;
    }
    out
}

/// Combines the series point by point with `f`, starting from the first
/// series' timestamps with value `initial`; `None` when there is no series.
pub fn aggregation_series<V: Copy, F: Fn(V, V) -> V>(series: Vec<Series<V>>, name: String, initial: V, f: F) -> (r: Option<Series<V>>)
    requires
        forall|a: V, b: V| f.requires((a, b)),
    ensures
        r is None <==> series@.len() == 0,
        r matches Some(s) ==> s.name@ == name@ && folded(f, with_value(series@[0].points@, initial), points_of(series@), s.points@),
{
    if series.len() == 0 {
        return None;
    }
    let mut init: Vec<Point<V>> = Vec::new();
    let mut k: usize = 0;
    while k < series[0].points.len()
        invariant
            series@.len() > 0,
            k <= series@[0].points@.len(),
            init@ == with_value(series@[0].points@.take(k as int), initial),
        decreases series@[0].points@.len() - k,
    {
        init.push(Point(series[0].points[k].0, initial));
        k = k + 1;
        proof {
            assert(init@ =~= with_value(series@[0].points@.take(k as int), initial));
        }
    }
    proof {
        assert(series@[0].points@.take(k as int) =~= series@[0].points@);
    }
    let ghost start = init@;
    let ghost all = points_of(series@);
    let ghost mut chain: Seq<Seq<Point<V>>> = seq![start];
    let mut acc = init;
    let mut i: usize = 0;
    while i < series.len()
        invariant
            i <= series@.len(),
            all == points_of(series@),
            forall|a: V, b: V| f.requires((a, b)),
            fold_chain(f, start, all.take(i as int), chain),
            chain.last() == acc@,
        decreases series@.len() - i,
    {
        let next = combine(&f, &acc, &series[i].points);
        proof {
            let c2 = chain.push(next@);
            assert(all.take(i + 1)[i as int] == series@[i as int].points@);
            assert forall|j: int| 0 <= j < i + 1 implies combined(f, #[trigger] c2[j], all.take(i + 1)[j], c2[j + 1]) by {
                if j < i {
                    assert(all.take(i + 1)[j] == all.take(i as int)[j]);
                    assert(c2[j] == chain[j]);
                    assert(c2[j + 1] == chain[j + 1]);
                }
            }
            chain = c2;
        }
        acc = next;
        i = i + 1;
    }
    proof {
        assert(all.take(i as int) =~= all);
        assert(fold_chain(f, start, all, chain));
    }
    Some(Series { name, points: acc })
}

/// Applies `f` to every point of every series.
pub fn adjust_series<V, F: Fn(Point<V>) -> Point<V>>(series: Vec<Series<V>>, f: F) -> (r: Vec<Series<V>>)
    requires
        forall|p: Point<V>| f.requires((p,)),
    ensures
        r@.len() == series@.len(),
        forall|i: int| 0 <= i < r@.len() ==> {
            &&& (#[trigger] r@[i]).name == series@[i].name
            &&& r@[i].points@.len() == series@[i].points@.len()
            &&& forall|k: int| 0 <= k < r@[i].points@.len() ==> call_ensures(f, (series@[i].points@[k],), #[trigger] r@[i].points@[k])
        },
{
    let ghost orig = series@;
    let mut rest = series;
    let mut out: Vec<Series<V>> = Vec::new();
    while rest.len() > 0
        invariant
            out@.len() + rest@.len() == orig.len(),
            rest@ == orig.skip(out@.len() as int),
            forall|p: Point<V>| f.requires((p,)),
            forall|i: int| 0 <= i < out@.len() ==> {
                &&& (#[trigger] out@[i]).name == orig[i].name
                &&& out@[i].points@.len() == orig[i].points@.len()
                &&& forall|k: int| 0 <= k < out@[i].points@.len() ==> call_ensures(f, (orig[i].points@[k],), #[trigger] out@[i].points@[k])
            },
        decreases rest@.len(),
    {
        let s = rest.remove(0);
        proof {
            assert(orig[out@.len() as int] == s);
        }
        let Series { name, points } = s;
        let ghost pts = points@;
        let mut pin = points;
        let mut pout: Vec<Point<V>> = Vec::new();
        while pin.len() > 0
            invariant
                pout@.len() + pin@.len() == pts.len(),
                pin@ == pts.skip(pout@.len() as int),
                forall|p: Point<V>| f.requires((p,)),
                forall|k: int| 0 <= k < pout@.len() ==> call_ensures(f, (pts[k],), #[trigger] pout@[k]),
            decreases pin@.len(),
        {
            let p = pin.remove(0);
            proof {
                assert(pts[pout@.len() as int] == p);
            }
            let q = f(p);
            pout.push(q);
            proof {
                assert(pin@ =~= pts.skip(pout@.len() as int));
            }
        }
        out.push(Series { name, points: pout });
        proof {
            assert(rest@ =~= orig.skip(out@.len() as int));
        }
    }
    out
}

/// Combines two series point by point with `f`, under the name `name`.
pub fn pair_series<V: Copy, F: Fn(Point<V>, Point<V>) -> Point<V>>(left: &Series<V>, right: &Series<V>, name: String, f: F) -> (r: Series<V>)
    requires
        forall|a: Point<V>, b: Point<V>| f.requires((a, b)),
    ensures
        r.name@ == name@,
        r.points@.len() == min_len(left.points@.len() as int, right.points@.len() as int),
        forall|k: int| 0 <= k < r.points@.len() ==> call_ensures(f, (left.points@[k], right.points@[k]), #[trigger] r.points@[k]),
{
    let n = if left.points.len() <= right.points.len() { left.points.len() } else { right.points.len() };
    let mut out: Vec<Point<V>> = Vec::new();
    let mut k: usize = 0;
    while k < n
        invariant
            k <= n,
            n == min_len(left.points@.len() as int, right.points@.len() as int),
            forall|a: Point<V>, b: Point<V>| f.requires((a, b)),
            out@.len() == k,
            forall|j: int| 0 <= j < k ==> call_ensures(f, (left.points@[j], right.points@[j]), #[trigger] out@[j]),
        decreases n - k,
    {
        let p = f(left.points[k], right.points[k]);
        out.push(p);
        k = k + 1;
    }
    Series { name, points: out }
}


/// What a call of a series function does with its series.
#[derive(Debug, Clone, PartialEq)]
pub enum Plan {
    Sum,
    Absolute,
    Alias(String),
    AliasByMetric,
    AliasByNode(Vec<i64>),
    Average,
    Count,
    Divide,
    Diff,
    Max,
    Min,
    Multiply,
    /// The call gives no series, and its series arguments are not evaluated.
    Nothing,
    /// The combination of function and arguments is not supported.
    Unsupported,
}

/// Model of a plan, with the alias name as text.
pub enum PlanM {
    Sum,
    Absolute,
    Alias(Seq<char>),
    AliasByMetric,
    AliasByNode(Seq<i64>),
    Average,
    Count,
    Divide,
    Diff,
    Max,
    Min,
    Multiply,
    Nothing,
    Unsupported,
}

pub open spec fn plan_m(p: Plan) -> PlanM {
    match p {
        Plan::Sum => PlanM::Sum,
        Plan::Absolute => PlanM::Absolute,
        Plan::Alias(n) => PlanM::Alias(n@),
        Plan::AliasByMetric => PlanM::AliasByMetric,
        Plan::AliasByNode(v) => PlanM::AliasByNode(v@),
        Plan::Average => PlanM::Average,
        Plan::Count => PlanM::Count,
        Plan::Divide => PlanM::Divide,
        Plan::Diff => PlanM::Diff,
        Plan::Max => PlanM::Max,
        Plan::Min => PlanM::Min,
        Plan::Multiply => PlanM::Multiply,
        Plan::Nothing => PlanM::Nothing,
        Plan::Unsupported => PlanM::Unsupported,
    }
}

/// What calling `f` with `n_series` series arguments, the literal arguments
/// `literals` and `n_named` named arguments does. Functions other than
/// `alias` take no literal; none takes a named argument. `alias` takes its
/// name from its first literal, which must be a string; `divideSeries` and
/// `diffSeries` need exactly two series arguments.
pub open spec fn plan_of(f: DFunction, n_series: int, literals: Seq<LiteralValue>, n_named: int) -> PlanM {
    if n_named != 0 {
        PlanM::Unsupported
    } else if f == DFunction::Alias {
        if literals.len() > 0 && literals[0] is Str {
            PlanM::Alias(literals[0]->Str_0@)
        } else {
            PlanM::Nothing
        }
    } else if literals.len() != 0 {
        PlanM::Unsupported
    } else {
        match f {
            DFunction::SumSeries => PlanM::Sum,
            DFunction::Absolute => PlanM::Absolute,
            DFunction::AliasByMetric => PlanM::AliasByMetric,
            DFunction::AliasByNode => PlanM::AliasByNode(integers_of(literals)),
            DFunction::AverageSeries => PlanM::Average,
            DFunction::CountSeries => PlanM::Count,
            DFunction::DivideSeries => if n_series == 2 { PlanM::Divide } else { PlanM::Nothing },
            DFunction::DiffSeries => if n_series == 2 { PlanM::Diff } else { PlanM::Nothing },
            DFunction::MaxSeries => PlanM::Max,
            DFunction::MinSeries => PlanM::Min,
            DFunction::MultiplySeries => PlanM::Multiply,
            DFunction::Alias => PlanM::Nothing,
        }
    }
}

/// What calling `f` with these arguments does.
pub fn apply_function(f: DFunction, n_series: usize, literals: &[LiteralValue], n_named: usize) -> (r: Plan)
    ensures
        plan_m(r) == plan_of(f, n_series as int, literals@, n_named as int),
{
    if n_named != 0 {
        return Plan::Unsupported;
    }
    if let DFunction::Alias = f {
        if literals.len() > 0 {
            if let LiteralValue::Str(name) = &literals[0] {
                return Plan::Alias(name.clone());
            }
        }
        return Plan::Nothing;
    }
    if literals.len() != 0 {
        return Plan::Unsupported;
    }
    match f {
        DFunction::SumSeries => Plan::Sum,
        DFunction::Absolute => Plan::Absolute,
        DFunction::AliasByMetric => Plan::AliasByMetric,
        DFunction::AliasByNode => Plan::AliasByNode(resolve_numbers(literals)),
        DFunction::AverageSeries => Plan::Average,
        DFunction::CountSeries => Plan::Count,
        DFunction::DivideSeries => if n_series == 2 { Plan::Divide } else { Plan::Nothing },
        DFunction::DiffSeries => if n_series == 2 { Plan::Diff } else { Plan::Nothing },
        DFunction::MaxSeries => Plan::Max,
        DFunction::MinSeries => Plan::Min,
        DFunction::MultiplySeries => Plan::Multiply,
        DFunction::Alias => Plan::Nothing,
    }
}

/// A call with series arguments only does what its function's name says:
/// `sumSeries` sums, `maxSeries` takes the point-wise maximum, `minSeries`
/// the minimum, `averageSeries` the average, `countSeries` counts,
/// `multiplySeries` multiplies, `absolute` takes absolute values,
/// `aliasByMetric` and `aliasByNode` rename, `divideSeries` and `diffSeries`
/// divide and subtract when given exactly two series (and give nothing
/// otherwise), and `alias` without a name gives nothing.
pub proof fn lemma_plan_follows_name(f: DFunction, n_series: int)
    ensures
        ({
            let name = function_name(f);
            let p = plan_of(f, n_series, Seq::empty(), 0);
            &&& name == "sumSeries"@ ==> p == PlanM::Sum
            &&& name == "maxSeries"@ ==> p == PlanM::Max
            &&& name == "minSeries"@ ==> p == PlanM::Min
            &&& name == "averageSeries"@ ==> p == PlanM::Average
            &&& name == "countSeries"@ ==> p == PlanM::Count
            &&& name == "multiplySeries"@ ==> p == PlanM::Multiply
            &&& name == "absolute"@ ==> p == PlanM::Absolute
            &&& name == "aliasByMetric"@ ==> p == PlanM::AliasByMetric
            &&& name == "aliasByNode"@ ==> p == PlanM::AliasByNode(Seq::empty())
            &&& name == "divideSeries"@ ==> p == (if n_series == 2 { PlanM::Divide } else { PlanM::Nothing })
            &&& name == "diffSeries"@ ==> p == (if n_series == 2 { PlanM::Diff } else { PlanM::Nothing })
            &&& name == "alias"@ ==> p == PlanM::Nothing
        }),
{
    let name = function_name(f);
    lemma_function_name_round_trip(f, name);
    lemma_function_name_round_trip(DFunction::SumSeries, name);
    lemma_function_name_round_trip(DFunction::MaxSeries, name);
    lemma_function_name_round_trip(DFunction::MinSeries, name);
    lemma_function_name_round_trip(DFunction::AverageSeries, name);
    lemma_function_name_round_trip(DFunction::CountSeries, name);
    lemma_function_name_round_trip(DFunction::MultiplySeries, name);
    lemma_function_name_round_trip(DFunction::Absolute, name);
    lemma_function_name_round_trip(DFunction::AliasByMetric, name);
    lemma_function_name_round_trip(DFunction::AliasByNode, name);
    lemma_function_name_round_trip(DFunction::DivideSeries, name);
    lemma_function_name_round_trip(DFunction::DiffSeries, name);
    lemma_function_name_round_trip(DFunction::Alias, name);
    assert(integers_of(Seq::<LiteralValue>::empty()) =~= Seq::<i64>::empty());
}

/// The next step in evaluating an expression.
#[derive(Debug)]
pub enum Step {
    /// Fetch the series that the path names.
    Fetch(PathExpression),
    /// Evaluate the expressions, then carry out the plan on all their series.
    Apply(Plan, Vec<Expression>),
    /// The call names no known function.
    UnknownFunction(String),
    /// Templates cannot be evaluated.
    Unsupported,
}

/// How to evaluate `expr`.
pub fn plan_expression(expr: Expression) -> (r: Step)
    ensures
        match expr {
            Expression::Path(p) => r == Step::Fetch(p),
            Expression::Call(c) => match DFunction::spec_from_text(c.function@) {
                None => r matches Step::UnknownFunction(n) && n@ == c.function@,
                Some(f) => r matches Step::Apply(plan, exprs) && exprs@ == expression_args(c.args@)
                    && plan_m(plan) == plan_of(f, exprs@.len() as int, literal_args(c.args@), c.named_args@.len() as int),
            },
            Expression::Template(_) => r is Unsupported,
        },
{
    match expr {
        Expression::Path(p) => Step::Fetch(p),
        Expression::Call(Call { function, args, named_args }) => {
            match DFunction::from_text(function.as_str()) {
                None => Step::UnknownFunction(function),
                Some(f) => {
                    let (exprs, literals) = split_call_args(args);
                    let plan = apply_function(f, exprs.len(), literals.as_slice(), named_args.len());
                    Step::Apply(plan, exprs)
                },
            }
        },
        Expression::Template(_) => Step::Unsupported,
    }
}

impl DFunction {
    /// The function whose name is `s`, if any.
    pub open spec fn spec_from_text(s: Seq<char>) -> Option<DFunction> {
        if s == "sumSeries"@ {
            Some(DFunction::SumSeries)
        } else if s == "absolute"@ {
            Some(DFunction::Absolute)
        } else if s == "alias"@ {
            Some(DFunction::Alias)
        } else if s == "aliasByMetric"@ {
            Some(DFunction::AliasByMetric)
        } else if s == "aliasByNode"@ {
            Some(DFunction::AliasByNode)
        } else if s == "averageSeries"@ {
            Some(DFunction::AverageSeries)
        } else if s == "countSeries"@ {
            Some(DFunction::CountSeries)
        } else if s == "divideSeries"@ {
            Some(DFunction::DivideSeries)
        } else if s == "diffSeries"@ {
            Some(DFunction::DiffSeries)
        } else if s == "maxSeries"@ {
            Some(DFunction::MaxSeries)
        } else if s == "minSeries"@ {
            Some(DFunction::MinSeries)
        } else if s == "multiplySeries"@ {
            Some(DFunction::MultiplySeries)
        } else {
            None
        }
    }
}

/// Reading a function's name gives the function back, and only its name
/// reads as it.
pub proof fn lemma_function_name_round_trip(f: DFunction, s: Seq<char>)
    ensures
        DFunction::spec_from_text(function_name(f)) == Some(f),
        DFunction::spec_from_text(s) == Some(f) ==> s == function_name(f),
{
    reveal_strlit("sumSeries");
    reveal_strlit("absolute");
    reveal_strlit("alias");
    reveal_strlit("aliasByMetric");
    reveal_strlit("aliasByNode");
    reveal_strlit("averageSeries");
    reveal_strlit("countSeries");
    reveal_strlit("divideSeries");
    reveal_strlit("diffSeries");
    reveal_strlit("maxSeries");
    reveal_strlit("minSeries");
    reveal_strlit("multiplySeries");
    assert("sumSeries"@.len() == 9 && "sumSeries"@[0] == 's' && "sumSeries"@[1] == 'u' && "sumSeries"@[2] == 'm');
    assert("absolute"@.len() == 8 && "absolute"@[0] == 'a' && "absolute"@[1] == 'b' && "absolute"@[2] == 's');
    assert("alias"@.len() == 5 && "alias"@[0] == 'a' && "alias"@[1] == 'l' && "alias"@[2] == 'i');
    assert("aliasByMetric"@.len() == 13 && "aliasByMetric"@[0] == 'a' && "aliasByMetric"@[1] == 'l' && "aliasByMetric"@[2] == 'i');
    assert("aliasByNode"@.len() == 11 && "aliasByNode"@[0] == 'a' && "aliasByNode"@[1] == 'l' && "aliasByNode"@[2] == 'i');
    assert("averageSeries"@.len() == 13 && "averageSeries"@[0] == 'a' && "averageSeries"@[1] == 'v' && "averageSeries"@[2] == 'e');
    assert("countSeries"@.len() == 11 && "countSeries"@[0] == 'c' && "countSeries"@[1] == 'o' && "countSeries"@[2] == 'u');
    assert("divideSeries"@.len() == 12 && "divideSeries"@[0] == 'd' && "divideSeries"@[1] == 'i' && "divideSeries"@[2] == 'v');
    assert("diffSeries"@.len() == 10 && "diffSeries"@[0] == 'd' && "diffSeries"@[1] == 'i' && "diffSeries"@[2] == 'f');
    assert("maxSeries"@.len() == 9 && "maxSeries"@[0] == 'm' && "maxSeries"@[1] == 'a' && "maxSeries"@[2] == 'x');
    assert("minSeries"@.len() == 9 && "minSeries"@[0] == 'm' && "minSeries"@[1] == 'i' && "minSeries"@[2] == 'n');
    assert("multiplySeries"@.len() == 14 && "multiplySeries"@[0] == 'm' && "multiplySeries"@[1] == 'u' && "multiplySeries"@[2] == 'l');
}

} // verus!
