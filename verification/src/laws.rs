//! The library's general laws, each proved once and for all inputs: what
//! ingestion keeps, what sorting and limiting pick, what the pipeline's
//! filter stage does with an empty choice, how differenced display values
//! reconstruct the series, and that sorting by name is idempotent.

use crate::data::first0;
use crate::data::{RowV, TableV};
use crate::ingest::{ingest_global, keep_of, row_of, rows_of};
use crate::ops::{accum_groups, eval_spec, filter_stage, limit_rows, rleq, sel_seq, Op, SortBy};
use crate::render::disp_vals;
use crate::sort::{isort, lemma_isort_ensures, lemma_isort_idempotent};
use vstd::prelude::*;

verus! {

broadcast use vstd::seq_lib::group_to_multiset_ensures;

/// Ingestion keeps every record that carries the leading fields and — under
/// sanitation — a cumulative series that never drops: its row is among the
/// rows built from the records.
pub proof fn lemma_rows_of_keeps(
    recs: Seq<Seq<Seq<char>>>,
    lead: int,
    pf: int,
    cf: int,
    sanitize: bool,
    i: int,
)
    requires
        0 <= i < recs.len(),
        keep_of(recs[i], lead, sanitize),
    ensures
        rows_of(recs, lead, pf, cf, sanitize).contains(row_of(recs[i], lead, pf, cf, sanitize)),
    decreases recs.len(),
{
    let whole = rows_of(recs, lead, pf, cf, sanitize);
    let rest = rows_of(recs.drop_last(), lead, pf, cf, sanitize);
    if i < recs.len() - 1 {
        lemma_rows_of_keeps(recs.drop_last(), lead, pf, cf, sanitize, i);
        assert(recs.drop_last()[i] == recs[i]);
        let j = choose|j: int|
            0 <= j < rest.len() && rest[j] == row_of(recs[i], lead, pf, cf, sanitize);
        assert(whole[j] == rest[j]);
    } else {
        assert(recs[i] == recs.last());
        assert(whole.last() == row_of(recs[i], lead, pf, cf, sanitize));
    }
}

/// Every row ingestion builds comes from some kept record: one whose
/// cumulative series never dropped. A record with even a single drop
/// contributes no row.
pub proof fn lemma_rows_of_source(
    recs: Seq<Seq<Seq<char>>>,
    lead: int,
    pf: int,
    cf: int,
    sanitize: bool,
    j: int,
)
    requires
        0 <= j < rows_of(recs, lead, pf, cf, sanitize).len(),
    ensures
        exists|i: int|
            0 <= i < recs.len() && keep_of(#[trigger] recs[i], lead, sanitize) && rows_of(
                recs,
                lead,
                pf,
                cf,
                sanitize,
            )[j] == row_of(recs[i], lead, pf, cf, sanitize),
    decreases recs.len(),
{
    let whole = rows_of(recs, lead, pf, cf, sanitize);
    let rest = rows_of(recs.drop_last(), lead, pf, cf, sanitize);
    if j < rest.len() {
        lemma_rows_of_source(recs.drop_last(), lead, pf, cf, sanitize, j);
        let i = choose|i: int|
            0 <= i < recs.drop_last().len() && keep_of(
                #[trigger] recs.drop_last()[i],
                lead,
                sanitize,
            ) && rest[j] == row_of(recs.drop_last()[i], lead, pf, cf, sanitize);
        assert(recs.drop_last()[i] == recs[i]);
        assert(whole[j] == rest[j]);
        assert(0 <= i < recs.len() && keep_of(recs[i], lead, sanitize) && whole[j] == row_of(
            recs[i],
            lead,
            pf,
            cf,
            sanitize,
        ));
    } else {
        assert(keep_of(recs.last(), lead, sanitize));
        assert(whole[j] == row_of(recs[recs.len() - 1], lead, pf, cf, sanitize));
        assert(0 <= recs.len() - 1 < recs.len() && keep_of(recs[recs.len() - 1], lead, sanitize)
            && whole[j] == row_of(recs[recs.len() - 1], lead, pf, cf, sanitize));
    }
}

/// The global reader's table holds the row of every kept data record: one
/// for each record whose cumulative series never drops.
pub proof fn lemma_ingest_global_keeps(recs: Seq<Seq<Seq<char>>>, i: int)
    requires
        recs.len() > 0,
        1 <= i < recs.len(),
        keep_of(recs[i], 4, true),
    ensures
        ingest_global(recs).rows.contains(row_of(recs[i], 4, 0, 1, true)),
{
    broadcast use vstd::seq_lib::group_to_multiset_ensures;

    let data = recs.skip(1);
    let built = rows_of(data, 4, 0, 1, true);
    let sorted = ingest_global(recs).rows;
    crate::ops::lemma_rleq_well_ordered(SortBy::Name);
    lemma_isort_ensures(built, rleq(SortBy::Name));
    assert(data[i - 1] == recs[i]);
    lemma_rows_of_keeps(data, 4, 0, 1, true, i - 1);
    let rw = row_of(recs[i], 4, 0, 1, true);
    assert(built.contains(rw));
    assert(built.to_multiset().count(rw) > 0);
    assert(sorted.to_multiset().count(rw) > 0);
    assert(sorted.contains(rw));
}

/// Every row of the global reader's table comes from some kept data record;
/// a record whose cumulative series drops contributes none.
pub proof fn lemma_ingest_global_source(recs: Seq<Seq<Seq<char>>>, j: int)
    requires
        recs.len() > 0,
        0 <= j < ingest_global(recs).rows.len(),
    ensures
        exists|i: int|
            1 <= i < recs.len() && keep_of(#[trigger] recs[i], 4, true) && ingest_global(
                recs,
            ).rows[j] == row_of(recs[i], 4, 0, 1, true),
{
    broadcast use vstd::seq_lib::group_to_multiset_ensures;

    let data = recs.skip(1);
    let built = rows_of(data, 4, 0, 1, true);
    let sorted = ingest_global(recs).rows;
    crate::ops::lemma_rleq_well_ordered(SortBy::Name);
    lemma_isort_ensures(built, rleq(SortBy::Name));
    assert(sorted.contains(sorted[j]));
    assert(sorted.to_multiset().count(sorted[j]) > 0);
    assert(built.to_multiset().count(sorted[j]) > 0);
    assert(built.contains(sorted[j]));
    let k = choose|k: int| 0 <= k < built.len() && built[k] == sorted[j];
    lemma_rows_of_source(data, 4, 0, 1, true, k);
    let i = choose|i: int|
        0 <= i < data.len() && keep_of(#[trigger] data[i], 4, true) && built[k] == row_of(
            data[i],
            4,
            0,
            1,
            true,
        );
    assert(data[i] == recs[i + 1]);
    assert(1 <= i + 1 < recs.len() && keep_of(recs[i + 1], 4, true) && sorted[j] == row_of(
        recs[i + 1],
        4,
        0,
        1,
        true,
    ));
}

/// Sorting ascending by the most recent value and keeping the last row
/// yields one row of the table, and its most recent value is the largest
/// the table holds.
pub proof fn lemma_sort_then_limit_picks_max(rows: Seq<RowV>)
    requires
        rows.len() > 0,
    ensures
        limit_rows(isort(rows, rleq(SortBy::Max)), 1).len() == 1,
        rows.contains(limit_rows(isort(rows, rleq(SortBy::Max)), 1)[0]),
        forall|i: int|
            0 <= i < rows.len() ==> first0(#[trigger] rows[i]) <= first0(
                limit_rows(isort(rows, rleq(SortBy::Max)), 1)[0],
            ),
{
    let leq = rleq(SortBy::Max);
    crate::ops::lemma_rleq_well_ordered(SortBy::Max);
    lemma_isort_ensures(rows, leq);
    let s = isort(rows, leq);
    let picked = limit_rows(s, 1);
    assert(picked =~= s.skip(s.len() - 1));
    assert(picked[0] == s.last());
    assert(s.contains(s.last()));
    assert(s.to_multiset().count(s.last()) > 0);
    assert(rows.to_multiset().count(s.last()) > 0);
    assert(rows.contains(s.last()));
    assert forall|i: int| 0 <= i < rows.len() implies first0(#[trigger] rows[i]) <= first0(
        picked[0],
    ) by {
        assert(rows.contains(rows[i]));
        assert(rows.to_multiset().count(rows[i]) > 0);
        assert(s.to_multiset().count(rows[i]) > 0);
        assert(s.contains(rows[i]));
        let j = choose|j: int| 0 <= j < s.len() && s[j] == rows[i];
        if j < s.len() - 1 {
            assert(leq(s[j], s[s.len() - 1]));
        }
    }
}

/// The pipeline's filter stage with an empty name choice is the identity:
/// same rows, in the same order, under the same header.
pub proof fn lemma_empty_filter_identity(t: TableV)
    ensures
        filter_stage(t, Seq::empty()) == t,
        filter_stage(t, Seq::empty()).rows.len() == t.rows.len(),
{
}

/// The running totals of a sequence: element `i` is the sum of the first
/// `i + 1` values.
pub open spec fn running_total(s: Seq<int>, k: int) -> int
    decreases k,
{
    if k <= 0 {
        0
    } else {
        running_total(s, k - 1) + s[k - 1]
    }
}

/// A differenced display reconstructed by running sums from the zero
/// baseline.
pub open spec fn undiffed(s: Seq<int>) -> Seq<int> {
    Seq::new(s.len(), |i: int| running_total(s, i + 1))
}

proof fn lemma_running_reconstructs(data: Seq<u32>, k: int)
    requires
        0 <= k < data.len(),
    ensures
        running_total(disp_vals(data, true), k + 1) == data.reverse()[k] as int,
    decreases k,
{
    let d = disp_vals(data, true);
    let rev = data.reverse();
    assert(d[k] == rev[k] - (if k == 0 {
        0int
    } else {
        rev[k - 1] as int
    }));
    assert(running_total(d, k + 1) == running_total(d, k) + d[k]);
    if k > 0 {
        lemma_running_reconstructs(data, k - 1);
    }
}

/// Round trip of the renderer's value model: without differencing a row
/// displays exactly its series oldest-to-newest, and with differencing the
/// running sums from the zero baseline reproduce that same display.
pub proof fn lemma_display_roundtrip(data: Seq<u32>)
    ensures
        disp_vals(data, false) == data.reverse().map_values(|v: u32| v as int),
        undiffed(disp_vals(data, true)) == disp_vals(data, false),
{
    assert(disp_vals(data, false) =~= data.reverse().map_values(|v: u32| v as int));
    assert forall|k: int| 0 <= k < data.len() implies undiffed(disp_vals(data, true))[k]
        == disp_vals(data, false)[k] by {
        lemma_running_reconstructs(data, k);
    }
    assert(undiffed(disp_vals(data, true)) =~= disp_vals(data, false));
}

/// Filtering keeps a bound that all rows obey.
proof fn lemma_filter_keeps_bound(rows: Seq<RowV>, pred: spec_fn(RowV) -> bool, bound: int)
    requires
        forall|i: int| 0 <= i < rows.len() ==> (#[trigger] rows[i]).data.len() <= bound,
    ensures
        forall|j: int|
            0 <= j < rows.filter(pred).len() ==> (#[trigger] rows.filter(pred)[j]).data.len()
                <= bound,
    decreases rows.len(),
{
    reveal(Seq::filter);
    if rows.len() > 0 {
        lemma_filter_keeps_bound(rows.drop_last(), pred, bound);
        let f = rows.filter(pred);
        let g = rows.drop_last().filter(pred);
        assert forall|j: int| 0 <= j < f.len() implies (#[trigger] f[j]).data.len() <= bound by {
            if pred(rows.last()) {
                assert(f == g.push(rows.last()));
                if j < g.len() {
                    assert(f[j] == g[j]);
                }
            } else {
                assert(f == g);
            }
        }
    }
}

/// Windowing a shorter sequence never yields more elements than windowing a
/// longer one the same way.
proof fn lemma_sel_len_monotone<A, B>(a: Seq<A>, b: Seq<B>, start: int, size: int, step: int)
    requires
        a.len() <= b.len(),
    ensures
        sel_seq(a, start, size, step).len() <= sel_seq(b, start, size, step).len(),
    decreases size,
{
    if !(size <= 0 || step <= 0 || start < 0 || start >= a.len()) {
        lemma_sel_len_monotone(a, b, start + step, size - 1, step);
    }
}

/// Accumulated groups hold series no longer than the longest of the rows
/// they merge.
proof fn lemma_accum_keeps_bound(rows: Seq<RowV>, place: crate::data::Place, bound: int)
    requires
        forall|i: int| 0 <= i < rows.len() ==> (#[trigger] rows[i]).data.len() <= bound,
    ensures
        forall|j: int|
            0 <= j < accum_groups(rows, place).len() ==> (#[trigger] accum_groups(rows, place)[j])
                .data.len() <= bound,
    decreases rows.len(),
{
    if rows.len() > 0 {
        assert(forall|i: int|
            0 <= i < rows.drop_last().len() ==> (#[trigger] rows.drop_last()[i]).data.len()
                <= bound);
        lemma_accum_keeps_bound(rows.drop_last(), place, bound);
        let prev = accum_groups(rows.drop_last(), place);
        let whole = accum_groups(rows, place);
        let last = rows.last();
        assert(last.data.len() <= bound);
        assert forall|j: int| 0 <= j < whole.len() implies (#[trigger] whole[j]).data.len()
            <= bound by {
            let key = crate::data::group_of(last.name, place);
            let i = crate::ops::find_name(prev, key);
            crate::ops::lemma_find_name_bounds(prev, key);
            if i < 0 {
                if j < prev.len() {
                    assert(whole[j] == prev[j]);
                } else {
                    assert(whole[j].data == last.data);
                }
            } else {
                if j == i {
                    assert(whole[j].data == crate::ops::sum_series(prev[i].data, last.data));
                    assert(prev[i].data.len() <= bound);
                    assert(crate::ops::sum_series(prev[i].data, last.data).len() <= bound);
                } else {
                    assert(whole[j] == prev[j]);
                }
            }
        }
    }
}

/// Every operator preserves the table invariant: each row's series stays no
/// longer than the header, so `data[i]` always has a date `header[i]`.
pub proof fn lemma_eval_preserves_wf(op: Op, t: TableV)
    requires
        crate::data::wf(t),
    ensures
        crate::data::wf(eval_spec(op, t)),
    decreases op,
{
    broadcast use vstd::seq_lib::group_to_multiset_ensures;

    let r = eval_spec(op, t);
    match op {
        Op::Combine(op1, op2) => {
            lemma_eval_preserves_wf(*op1, t);
            lemma_eval_preserves_wf(*op2, eval_spec(*op1, t));
        },
        Op::GroupBy(place) => {
            lemma_accum_keeps_bound(t.rows, place, t.header.len() as int);
            crate::ops::lemma_rleq_well_ordered(SortBy::Name);
            lemma_isort_ensures(accum_groups(t.rows, place), rleq(SortBy::Name));
            crate::ingest::lemma_data_bound_perm(
                accum_groups(t.rows, place),
                r.rows,
                t.header.len() as int,
            );
        },
        Op::Filter(names, place) => {
            lemma_filter_keeps_bound(
                t.rows,
                |rv: RowV| names.deep_view().contains(crate::data::get_of(rv.name, place)),
                t.header.len() as int,
            );
        },
        Op::Limit(n) => {
            assert forall|j: int| 0 <= j < r.rows.len() implies (#[trigger] r.rows[j]).data.len()
                <= r.header.len() by {
                if (n as int) < t.rows.len() {
                    assert(r.rows[j] == t.rows[t.rows.len() - (n as int) + j]);
                }
            }
        },
        Op::Select { start, size, step } => {
            assert forall|j: int| 0 <= j < r.rows.len() implies (#[trigger] r.rows[j]).data.len()
                <= r.header.len() by {
                assert(r.rows[j].data == sel_seq(
                    t.rows[j].data,
                    start as int,
                    size as int,
                    step as int,
                ));
                lemma_sel_len_monotone(
                    t.rows[j].data,
                    t.header,
                    start as int,
                    size as int,
                    step as int,
                );
            }
        },
        Op::SortBy(by) => {
            crate::ops::lemma_rleq_well_ordered(by);
            lemma_isort_ensures(t.rows, rleq(by));
            crate::ingest::lemma_data_bound_perm(t.rows, r.rows, t.header.len() as int);
        },
        Op::GreaterThan(min) => {
            lemma_filter_keeps_bound(
                t.rows,
                |rv: RowV| rv.data.len() > 0 && rv.data[0] > min,
                t.header.len() as int,
            );
        },
        Op::NoOp => {
        },
    }
}

/// Sorting is stable: the rows the sort key cannot tell apart come out as
/// the same subsequence, in their prior relative order.
pub proof fn lemma_sort_rows_stable(rows: Seq<RowV>, by: SortBy, pivot: RowV)
    ensures
        isort(rows, rleq(by)).filter(
            |r: RowV| crate::sort::tied(rleq(by), r, pivot),
        ) == rows.filter(|r: RowV| crate::sort::tied(rleq(by), r, pivot)),
{
    crate::ops::lemma_rleq_well_ordered(by);
    crate::sort::lemma_isort_stable(rows, rleq(by), pivot);
}

/// Sorting by name twice is the same as sorting once.
pub proof fn lemma_sort_by_name_idempotent(t: TableV)
    ensures
        eval_spec(Op::SortBy(SortBy::Name), eval_spec(Op::SortBy(SortBy::Name), t)) == eval_spec(
            Op::SortBy(SortBy::Name),
            t,
        ),
{
    crate::ops::lemma_rleq_well_ordered(SortBy::Name);
    lemma_isort_idempotent(t.rows, rleq(SortBy::Name));
}

} // verus!
