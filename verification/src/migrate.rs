//! Converting a round-robin database into whisper files: which archives to
//! carry over and with what retention, where each data source goes, which
//! time window to fetch per archive, and the times of the fetched rows.
use vstd::prelude::*;
use crate::rrd::{aggregation_name, value_long, AggregationMethod, Info, RRA, info_value};
use crate::text::{decimal, decimal_string, push_str, str_eq};

verus! {

/// A whisper archive: seconds per point and number of points.
#[derive(Debug, Clone, Copy, PartialEq, Eq)]
pub struct Retention {
    pub seconds_per_point: u32,
    pub points: u32,
}

impl Retention {
    /// The time the archive spans, in seconds.
    pub fn retention(&self) -> (r: u64)
        ensures
            r == self.seconds_per_point * self.points,
    {
        assert(self.seconds_per_point * self.points <= u32::MAX * u32::MAX) by (nonlinear_arith)
            requires
                self.seconds_per_point <= u32::MAX,
                self.points <= u32::MAX,
        ;
        (self.seconds_per_point as u64) * (self.points as u64)
    }
}

/// The seconds per primary data point of the database: the `step` entry.
pub fn info_step(info: &Info) -> (r: Option<u64>)
    ensures
        match r {
            Some(s) => info_value(info.entries@, "step"@) matches Some(v) && value_long(v) == Some(s as int),
            None => info_value(info.entries@, "step"@) matches None || value_long(info_value(info.entries@, "step"@)->Some_0) is None,
        },
{
    match info.value("step") {
        Some(v) => v.as_long(),
        None => None,
    }
}

/// The positions of the archives that consolidate with `method`, in order.
pub open spec fn relevant_positions(cfs: Seq<AggregationMethod>, method: AggregationMethod) -> Seq<int>
    decreases cfs.len(),
{
    if cfs.len() == 0 {
        Seq::empty()
    } else {
        let prev = relevant_positions(cfs.drop_last(), method);
        if cfs.last() == method {
            prev.push(cfs.len() - 1)
        } else {
            prev
        }
    }
}

/// The consolidation functions of the archives.
pub open spec fn archive_functions(rras: Seq<RRA>) -> Seq<AggregationMethod> {
    rras.map_values(|r: RRA| r.cf)
}

/// The whisper archive of a database archive: a point per row, each point
/// spanning `pdp_per_row` steps (both cut to `u32`).
pub open spec fn retention_of(rra: RRA, seconds_per_pdp: u64) -> Retention {
    Retention {
        seconds_per_point: (rra.pdp_per_row * seconds_per_pdp) as u32,
        points: rra.rows as u32,
    }
}

/// The message when no archive consolidates with `method`.
pub open spec fn no_archive_text(method: AggregationMethod) -> Seq<char> {
    "[ERROR] Unable to find any RRAs with consolidation function: "@ + aggregation_name(method)
}

/// The archives to carry over: those that consolidate with `method`, in
/// order, with the position of the last of them (whose xFilesFactor is the
/// default one). Without any, the error names the function.
pub fn archive_plan(rras: &[RRA], method: AggregationMethod, seconds_per_pdp: u64) -> (r: Result<(Vec<Retention>, usize), String>)
    requires
        forall|i: int| 0 <= i < rras.len() && (#[trigger] rras@[i]).cf == method ==> rras@[i].pdp_per_row * seconds_per_pdp <= u64::MAX,
    ensures
        ({
            let pos = relevant_positions(archive_functions(rras@), method);
            match r {
                Ok((archives, last)) => pos.len() > 0 && last as int == pos.last()
                    && archives.len() == pos.len()
                    && forall|k: int| 0 <= k < pos.len() ==> #[trigger] archives@[k] == retention_of(rras@[pos[k]], seconds_per_pdp),
                Err(m) => pos.len() == 0 && m@ == no_archive_text(method),
            }
        }),
{
    let mut archives: Vec<Retention> = Vec::new();
    let mut last: usize = 0;
    let mut i: usize = 0;
    let ghost cfs = archive_functions(rras@);
    proof {
        assert(cfs.take(0) =~= Seq::<AggregationMethod>::empty());
    }
    while i < rras.len()
        invariant
            i <= rras.len(),
            cfs == archive_functions(rras@),
            forall|j: int| 0 <= j < rras.len() && (#[trigger] rras@[j]).cf == method ==> rras@[j].pdp_per_row * seconds_per_pdp <= u64::MAX,
            archives.len() == relevant_positions(cfs.take(i as int), method).len(),
            forall|k: int| 0 <= k < archives.len() ==> #[trigger] archives@[k] == retention_of(rras@[relevant_positions(cfs.take(i as int), method)[k]], seconds_per_pdp),
            archives.len() > 0 ==> last as int == relevant_positions(cfs.take(i as int), method).last(),
            forall|k: int| 0 <= k < relevant_positions(cfs.take(i as int), method).len() ==> 0 <= #[trigger] relevant_positions(cfs.take(i as int), method)[k] < i,
        decreases rras.len() - i,
    {
        proof {
            assert(cfs.take(i + 1).drop_last() =~= cfs.take(i as int));
            assert(cfs.take(i + 1).last() == rras@[i as int].cf);
        }
        let ghost before = archives@;
        if rras[i].cf == method {
            let spp = rras[i].pdp_per_row * seconds_per_pdp;
            archives.push(Retention { seconds_per_point: spp as u32, points: rras[i].rows as u32 });
            last = i;
            proof {
                let pp = relevant_positions(cfs.take(i as int), method);
                assert(relevant_positions(cfs.take(i + 1), method) == pp.push(i as int));
                assert forall|k: int| 0 <= k < archives.len() implies #[trigger] archives@[k] == retention_of(rras@[relevant_positions(cfs.take(i + 1), method)[k]], seconds_per_pdp) by {
                    if k < before.len() {
                        assert(archives@[k] == before[k]);
                    }
                }
            }
        }
        i = i + 1;
    }
    proof {
        assert(cfs.take(i as int) =~= cfs);
    }
    if archives.len() == 0 {
        let mut m = String::new();
        push_str(&mut m, "[ERROR] Unable to find any RRAs with consolidation function: ");
        push_str(&mut m, method.as_str());
        Err(m)
    } else {
        Ok((archives, last))
    }
}

/// The file name of the whisper file of a data source: the database's stem,
/// then `_` and the data source where the database has several, then `.wsp`.
pub open spec fn destination_text(stem: Seq<char>, datasource: Seq<char>, several: bool) -> Seq<char> {
    stem + (if several { "_"@ + datasource } else { Seq::empty() }) + ".wsp"@
}

/// The file name of the whisper file of a data source.
pub fn destination_name(stem: &str, datasource: &str, several: bool) -> (r: String)
    ensures
        r@ == destination_text(stem@, datasource@, several),
{
    let mut m = String::new();
    push_str(&mut m, stem);
    if several {
        push_str(&mut m, "_");
        push_str(&mut m, datasource);
    }
    push_str(&mut m, ".wsp");
    proof {
        if !several {
            assert(m@ =~= destination_text(stem@, datasource@, several));
        }
    }
    m
}

/// The window to fetch for an archive at time `now`: it ends at the last
/// whole point before `now` and spans the archive's retention.
pub fn fetch_window(now: u64, archive: &Retention) -> (r: (u64, u64))
    requires
        archive.seconds_per_point > 0,
        archive.seconds_per_point * archive.points <= now - now % (archive.seconds_per_point as u64),
    ensures
        r.1 == now - now % (archive.seconds_per_point as u64),
        r.0 == r.1 - archive.seconds_per_point * archive.points,
{
    let retention = archive.retention();
    let end_time = now - now % (archive.seconds_per_point as u64);
    let start_time = end_time - retention;
    (start_time, end_time)
}

/// The position of the first column named `datasource`.
pub fn column_index(columns: &[String], datasource: &str) -> (r: Option<usize>)
    ensures
        match r {
            Some(k) => k < columns.len() && columns@[k as int]@ == datasource@
                && forall|j: int| 0 <= j < k ==> columns@[j]@ != datasource@,
            None => forall|j: int| 0 <= j < columns.len() ==> columns@[j]@ != datasource@,
        },
{
    let mut i: usize = 0;
    while i < columns.len()
        invariant
            i <= columns.len(),
            forall|j: int| 0 <= j < i ==> columns@[j]@ != datasource@,
        decreases columns.len() - i,
    {
        if str_eq(columns[i].as_str(), datasource) {
            return Some(i);
        }
        i = i + 1;
    }
    None
}

/// The time of the row at `index` of a fetch that starts at `start` with
/// `step` seconds per row, cut to `u32`.
pub open spec fn row_time(start: i64, step: u64, index: int) -> u32 {
    ((start as u64) + index * step) as u32
}

/// The times of `count` fetched rows.
pub fn row_times(start: i64, step: u64, count: usize) -> (r: Vec<u32>)
    requires
        count > 0 ==> (start as u64) + (count - 1) * step <= u64::MAX,
    ensures
        r.len() == count,
        forall|i: int| 0 <= i < count ==> #[trigger] r@[i] == row_time(start, step, i),
{
    let base = start as u64;
    let mut out: Vec<u32> = Vec::new();
    let mut i: usize = 0;
    while i < count
        invariant
            i <= count,
            base == start as u64,
            count > 0 ==> base + (count - 1) * step <= u64::MAX,
            out.len() == i,
            forall|j: int| 0 <= j < i ==> #[trigger] out@[j] == row_time(start, step, j),
        decreases count - i,
    {
        assert(i * step <= (count - 1) * step) by (nonlinear_arith)
            requires
                i <= count - 1,
        ;
        let offset = (i as u64) * step;
        let t = base + offset;
        out.push(t as u32);
        i = i + 1;
    }
    out
}

/// The line that reports the migration of an archive.
pub fn migration_message(points: usize, archive: usize) -> (r: String)
    ensures
        r@ == " migrating "@ + decimal(points as nat) + " datapoints from archive "@ + decimal(archive as nat),
{
    let mut m = String::new();
    push_str(&mut m, " migrating ");
    push_str(&mut m, decimal_string(points as u64).as_str());
    push_str(&mut m, " datapoints from archive ");
    push_str(&mut m, decimal_string(archive as u64).as_str());
    m
}

} // verus!
