//! The execution engine's decisions: strategy, worker count, chunking of an
//! indexed input, feeding rows to a vector of column aggregates, and folding
//! the vectors of several chunks together.

use vstd::prelude::*;
use crate::field_type::sample_type;
use crate::text::float_text;
use crate::stats::{feed_for, NumericFeed, Stats, WhichStats};

verus! {

/// The number of workers: the requested count, or the machine's when zero
/// is requested.
pub fn njobs(requested: usize, cpus: usize) -> (r: usize)
    ensures
        r == if requested == 0 {
            cpus
        } else {
            requested
        },
{
    if requested == 0 {
        cpus
    } else {
        requested
    }
}

/// Runs in parallel only over an indexed input and when more than one job
/// is asked for.
pub fn use_parallel(indexed: bool, jobs: usize) -> (r: bool)
    ensures
        r == (indexed && jobs != 1),
{
    indexed && jobs != 1
}

pub open spec fn ceil_div(a: int, b: int) -> int {
    (a + b - 1) / b
}

/// Chunk size `ceil(rows / workers)` and chunk count `ceil(rows / size)`;
/// no chunk when there is no row.
pub fn chunk_plan(rows: u64, workers: u64) -> (r: (u64, u64))
    requires
        workers >= 1,
    ensures
        r.0 == ceil_div(rows as int, workers as int),
        r.1 == if r.0 == 0 {
            0
        } else {
            ceil_div(rows as int, r.0 as int)
        },
        r.1 <= workers,
        r.1 * r.0 >= rows,
        r.1 > 0 ==> (r.1 - 1) * r.0 < rows,
{
    proof {
        if workers >= 2 {
            vstd::arithmetic::div_mod::lemma_div_is_ordered_by_denominator(rows as int, 2, workers as int);
        }
    }
    let size: u64 = rows / workers + if rows % workers != 0 {
        1
    } else {
        0
    };
    assert(size == ceil_div(rows as int, workers as int)) by (nonlinear_arith)
        requires
            size == rows / workers + if rows % workers != 0 {
                1int
            } else {
                0
            },
            workers >= 1,
    {
    }
    if size == 0 {
        assert(rows == 0) by (nonlinear_arith)
            requires
                size == ceil_div(rows as int, workers as int),
                size == 0,
                workers >= 1,
        {
        }
        return (0, 0);
    }
    proof {
        if size >= 2 {
            vstd::arithmetic::div_mod::lemma_div_is_ordered_by_denominator(rows as int, 2, size as int);
        }
    }
    let n: u64 = rows / size + if rows % size != 0 {
        1
    } else {
        0
    };
    assert(n == ceil_div(rows as int, size as int) && n * size >= rows && (n - 1) * size < rows)
        by (nonlinear_arith)
        requires
            n == rows / size + if rows % size != 0 {
                1int
            } else {
                0
            },
            size >= 1,
    {
    }
    assert(rows >= 1) by (nonlinear_arith)
        requires
            size == ceil_div(rows as int, workers as int),
            size >= 1,
            workers >= 1,
    {
    }
    assert(n >= 1) by (nonlinear_arith)
        requires
            n * size >= rows,
            rows >= 1,
    {
    }
    assert(n <= workers) by (nonlinear_arith)
        requires
            size == ceil_div(rows as int, workers as int),
            size >= 1,
            workers >= 1,
            (n - 1) * size < rows,
            n >= 1,
    {
    }
    (size, n)
}

/// The chunks of `rows` rows of at most `size` rows each: they start at row
/// zero, follow one another without gap, hold at least one row each and end
/// at the last row.
pub fn chunks(rows: u64, size: u64) -> (r: Vec<(u64, u64)>)
    requires
        size >= 1,
    ensures
        rows == 0 <==> r.len() == 0,
        r.len() > 0 ==> r@[0].0 == 0,
        r.len() > 0 ==> r@.last().0 + r@.last().1 == rows,
        forall|i: int| 0 <= i < r.len() ==> 1 <= #[trigger] r@[i].1 <= size,
        forall|i: int| 0 <= i < r.len() - 1 ==> r@[i + 1].0 == #[trigger] r@[i].0 + r@[i].1,
        forall|i: int| 0 <= i < r.len() - 1 ==> #[trigger] r@[i].1 == size,
{
    let mut r: Vec<(u64, u64)> = Vec::new();
    let mut start: u64 = 0;
    while start < rows
        invariant
            start <= rows,
            size >= 1,
            start == 0 <==> r.len() == 0,
            r.len() > 0 ==> r@[0].0 == 0,
            r.len() > 0 ==> r@.last().0 + r@.last().1 == start,
            r.len() > 0 && start < rows ==> r@.last().1 == size,
            forall|i: int| 0 <= i < r.len() ==> 1 <= #[trigger] r@[i].1 <= size,
            forall|i: int| 0 <= i < r.len() - 1 ==> r@[i + 1].0 == #[trigger] r@[i].0 + r@[i].1,
            forall|i: int| 0 <= i < r.len() - 1 ==> #[trigger] r@[i].1 == size,
        decreases rows - start,
    {
        let len: u64 = if rows - start < size {
            rows - start
        } else {
            size
        };
        let ghost prev = r@;
        r.push((start, len));
        assert(forall|i: int| 0 <= i < prev.len() ==> r@[i] == prev[i]);
        start = start + len;
    }
    r
}

/// Fresh aggregates for `n` columns, all of one configuration.
pub fn new_stats(which: WhichStats, n: usize) -> (r: Vec<Stats>)
    ensures
        r.len() == n,
        forall|i: int| 0 <= i < n ==> (#[trigger] r@[i]).wf() && r@[i].which == which
            && r@[i].history@ == Seq::<Seq<u8>>::empty(),
{
    let mut r: Vec<Stats> = Vec::new();
    while r.len() < n
        invariant
            r.len() <= n,
            forall|i: int| 0 <= i < r.len() ==> (#[trigger] r@[i]).wf() && r@[i].which == which
                && r@[i].history@ == Seq::<Seq<u8>>::empty(),
        decreases n - r.len(),
    {
        r.push(Stats::new(which));
    }
    r
}

/// Feeds the selected fields of one row to their columns' aggregates, and
/// says for each what the numeric side must do. `truncated` holds each
/// field's float value truncated toward zero, where it reads as a float.
pub fn add_row(stats: &mut Vec<Stats>, row: &Vec<Vec<u8>>, truncated: &Vec<Option<i64>>) -> (feeds:
    Vec<NumericFeed>)
    requires
        old(stats).len() == row.len(),
        truncated.len() == row.len(),
        forall|i: int| 0 <= i < row.len() ==> float_text(#[trigger] row@[i]@) ==> truncated@[i].is_some(),
        forall|i: int| 0 <= i < old(stats).len() ==> (#[trigger] old(stats)@[i]).wf(),
    ensures
        final(stats).len() == old(stats).len(),
        feeds.len() == row.len(),
        forall|i: int|
            0 <= i < row.len() ==> {
                &&& (#[trigger] final(stats)@[i]).wf()
                &&& final(stats)@[i].which == old(stats)@[i].which
                &&& final(stats)@[i].history@ == old(stats)@[i].history@.push(row@[i]@)
                &&& feeds@[i] == feed_for(
                    final(stats)@[i].typ,
                    sample_type(row@[i]@),
                    old(stats)@[i].which.include_nulls,
                )
            },
{
    let ghost start = stats@;
    let mut feeds: Vec<NumericFeed> = Vec::new();
    let mut i: usize = 0;
    while i < row.len()
        invariant
            i <= row.len(),
            stats.len() == row.len(),
            start.len() == row.len(),
            truncated.len() == row.len(),
            forall|k: int| 0 <= k < row.len() ==> float_text(#[trigger] row@[k]@) ==> truncated@[k].is_some(),
            feeds.len() == i,
            forall|k: int| i <= k < row.len() ==> #[trigger] stats@[k] == start[k],
            forall|k: int| 0 <= k < row.len() ==> (#[trigger] start[k]).wf(),
            forall|k: int|
                0 <= k < i ==> {
                    &&& (#[trigger] stats@[k]).wf()
                    &&& stats@[k].which == start[k].which
                    &&& stats@[k].history@ == start[k].history@.push(row@[k]@)
                    &&& feeds@[k] == feed_for(
                        stats@[k].typ,
                        sample_type(row@[k]@),
                        start[k].which.include_nulls,
                    )
                },
        decreases row.len() - i,
    {
        let feed = stats[i].add(row[i].as_slice(), truncated[i]);
        feeds.push(feed);
        i = i + 1;
    }
    feeds
}

/// Folds the aggregates of a later chunk into those of the chunks before,
/// column by column; each column's configurations must agree.
pub fn merge_all(acc: &mut Vec<Stats>, other: Vec<Stats>)
    requires
        old(acc).len() == other.len(),
        forall|i: int| 0 <= i < old(acc).len() ==> (#[trigger] old(acc)@[i]).wf(),
        forall|i: int| 0 <= i < other.len() ==> (#[trigger] other@[i]).wf(),
        forall|i: int| 0 <= i < other.len() ==> (#[trigger] old(acc)@[i]).which == other@[i].which,
    ensures
        final(acc).len() == old(acc).len(),
        forall|i: int|
            0 <= i < other.len() ==> {
                &&& (#[trigger] final(acc)@[i]).wf()
                &&& final(acc)@[i].which == old(acc)@[i].which
                &&& final(acc)@[i].history@ == old(acc)@[i].history@ + other@[i].history@
            },
{
    let ghost start = acc@;
    let ghost added = other@;
    let mut other = other;
    let mut i: usize = other.len();
    while i > 0
        invariant
            i <= acc.len(),
            acc.len() == added.len(),
            start.len() == added.len(),
            other@ == added.subrange(0, i as int),
            forall|k: int| 0 <= k < added.len() ==> (#[trigger] added[k]).wf(),
            forall|k: int| 0 <= k < added.len() ==> (#[trigger] start[k]).which == added[k].which,
            forall|k: int| 0 <= k < i ==> #[trigger] acc@[k] == start[k],
            forall|k: int| 0 <= k < added.len() ==> (#[trigger] start[k]).wf(),
            forall|k: int|
                i <= k < added.len() ==> {
                    &&& (#[trigger] acc@[k]).wf()
                    &&& acc@[k].which == start[k].which
                    &&& acc@[k].history@ == start[k].history@ + added[k].history@
                },
        decreases i,
    {
        let o = other.pop().unwrap();
        i = i - 1;
        acc[i].merge(o);
    }
}

/// The header of the output: `field`, the five statistics always present,
/// then `median`, `mode` and `cardinality` where configured.
pub open spec fn header_labels(which: WhichStats) -> Seq<Seq<char>> {
    seq!["field"@, "type"@, "min"@, "max"@, "mean"@, "stddev"@] + (if which.median {
        seq!["median"@]
    } else {
        Seq::empty()
    }) + (if which.mode {
        seq!["mode"@]
    } else {
        Seq::empty()
    }) + (if which.cardinality {
        seq!["cardinality"@]
    } else {
        Seq::empty()
    })
}

pub fn stat_headers(which: WhichStats) -> (r: Vec<String>)
    ensures
        r@.map_values(|x: String| x@) == header_labels(which),
{
    let mut r: Vec<String> = Vec::new();
    r.push("field".to_owned());
    r.push("type".to_owned());
    r.push("min".to_owned());
    r.push("max".to_owned());
    r.push("mean".to_owned());
    r.push("stddev".to_owned());
    if which.median {
        r.push("median".to_owned());
    }
    if which.mode {
        r.push("mode".to_owned());
    }
    if which.cardinality {
        r.push("cardinality".to_owned());
    }
    assert(r@.map_values(|x: String| x@) =~= header_labels(which));
    r
}

} // verus!
