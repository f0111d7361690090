//! The operator algebra: pure transformations over a `Table`, composed into
//! pipelines, each with an exact mathematical description.

use crate::data::{first0, get_of, group_of, name_le, rows_view};
use crate::data::{Name, NameV, Place, Row, RowV, Table, TableV};
use crate::sort::{insert_sorted, isort, leq_total, leq_trans, sorted_by_leq};
use crate::sort::lemma_insert_sorted_at_pos;
use vstd::prelude::*;

verus! {

broadcast use vstd::seq_lib::group_filter_ensures;

/// The key a table's rows are sorted by.
#[derive(Clone, Copy)]
pub enum SortBy {
    /// Ascending by the most recent value of the series.
    Max,
    /// Ascending by the total order on names.
    Name,
}

/// One table transformation.
pub enum Op {
    /// Apply the first operator, then the second to its result.
    Combine(Box<Op>, Box<Op>),
    /// Merge rows that coarsen to the same name, summing their series.
    GroupBy(Place),
    /// Keep rows whose projection to `Place` matches one of the names.
    Filter(Vec<String>, Place),
    /// Keep the last `n` rows.
    Limit(usize),
    /// Window every series: from `start`, every `step`-th column, at most
    /// `size` of them.
    Select { start: usize, size: usize, step: usize },
    /// Reorder rows by the given key, stably.
    SortBy(SortBy),
    /// Keep rows whose most recent value strictly exceeds the threshold.
    GreaterThan(u32),
    /// Leave the table unchanged.
    NoOp,
}

/// Every `Select` in the tree steps by at least one column.
pub open spec fn op_wf(op: Op) -> bool
    decreases op,
{
    match op {
        Op::Combine(op1, op2) => op_wf(*op1) && op_wf(*op2),
        Op::Select { start, size, step } => step >= 1,
        _ => true,
    }
}

/// The window of `s` that starts at `start` and takes every `step`-th
/// element, at most `size` of them.
pub open spec fn sel_seq<T>(s: Seq<T>, start: int, size: int, step: int) -> Seq<T>
    decreases size,
{
    if size <= 0 || step <= 0 || start < 0 || start >= s.len() {
        Seq::empty()
    } else {
        seq![s[start]] + sel_seq(s, start + step, size - 1, step)
    }
}

/// A windowed table: the same names, with header and every series windowed
/// alike.
pub open spec fn select_table(t: TableV, start: int, size: int, step: int) -> TableV {
    TableV {
        header: sel_seq(t.header, start, size, step),
        rows: t.rows.map_values(
            |r: RowV| RowV { name: r.name, data: sel_seq(r.data, start, size, step) },
        ),
    }
}

/// The rows whose projection to `place` is one of `names`.
pub open spec fn filter_rows(rows: Seq<RowV>, names: Seq<Seq<char>>, place: Place) -> Seq<RowV> {
    rows.filter(|r: RowV| names.contains(get_of(r.name, place)))
}

/// The rows whose most recent value strictly exceeds `min`; a row with an
/// empty series has no most recent value and is dropped.
pub open spec fn exceeding_rows(rows: Seq<RowV>, min: u32) -> Seq<RowV> {
    rows.filter(|r: RowV| r.data.len() > 0 && r.data[0] > min)
}

/// The last `n` rows.
pub open spec fn limit_rows(rows: Seq<RowV>, n: int) -> Seq<RowV> {
    if n >= rows.len() {
        rows
    } else {
        rows.skip(rows.len() - n)
    }
}

/// Addition that stops at the ceiling of the count type.
pub open spec fn sat_add(a: u32, b: u32) -> u32 {
    if a + b > u32::MAX {
        u32::MAX
    } else {
        (a + b) as u32
    }
}

/// A series value, taking a missing column as zero.
pub open spec fn get0(s: Seq<u32>, i: int) -> u32 {
    if 0 <= i < s.len() {
        s[i]
    } else {
        0u32
    }
}

/// Element-wise sum of two series; the shorter contributes zero beyond its
/// length.
pub open spec fn sum_series(a: Seq<u32>, b: Seq<u32>) -> Seq<u32> {
    Seq::new(if a.len() >= b.len() {
        a.len()
    } else {
        b.len()
    }, |i: int| sat_add(get0(a, i), get0(b, i)))
}

/// The first index of `rows` carrying `name`, or `-1` when there is none.
pub open spec fn find_name(rows: Seq<RowV>, name: NameV) -> int
    decreases rows.len(),
{
    if rows.len() == 0 {
        -1
    } else if rows[0].name == name {
        0
    } else if find_name(rows.skip(1), name) < 0 {
        -1
    } else {
        1 + find_name(rows.skip(1), name)
    }
}

/// Accumulate rows group by group, in order of first appearance: a row joins
/// the group of its coarsened name, or opens a new one.
pub open spec fn accum_groups(rows: Seq<RowV>, place: Place) -> Seq<RowV>
    decreases rows.len(),
{
    if rows.len() == 0 {
        Seq::empty()
    } else {
        let prev = accum_groups(rows.drop_last(), place);
        let key = group_of(rows.last().name, place);
        let i = find_name(prev, key);
        if i < 0 {
            prev.push(RowV { name: key, data: rows.last().data })
        } else {
            prev.update(i, RowV { name: key, data: sum_series(prev[i].data, rows.last().data) })
        }
    }
}

/// The order rows are sorted by under each `SortBy` key.
pub open spec fn rleq(by: SortBy) -> spec_fn(RowV, RowV) -> bool {
    match by {
        SortBy::Max => |a: RowV, b: RowV| first0(a) <= first0(b),
        SortBy::Name => |a: RowV, b: RowV| name_le(a.name, b.name),
    }
}

pub proof fn lemma_rleq_well_ordered(by: SortBy)
    ensures
        leq_total(rleq(by)),
        leq_trans(rleq(by)),
{
    let leq = rleq(by);
    assert forall|a: RowV, b: RowV| #[trigger] leq(a, b) || #[trigger] leq(b, a) by {
        match by {
            SortBy::Max => {
            },
            SortBy::Name => {
                crate::data::lemma_name_le_total(a.name, b.name);
            },
        }
    }
    assert forall|a: RowV, b: RowV, c: RowV|
        #[trigger] leq(a, b) && #[trigger] leq(b, c) implies leq(a, c) by {
        match by {
            SortBy::Max => {
            },
            SortBy::Name => {
                crate::data::lemma_name_le_trans(a.name, b.name, c.name);
            },
        }
    }
}

/// The grouped table's rows: accumulated groups, ordered ascending by name.
pub open spec fn group_rows(rows: Seq<RowV>, place: Place) -> Seq<RowV> {
    isort(accum_groups(rows, place), rleq(SortBy::Name))
}

/// What each operator makes of a table.
pub open spec fn eval_spec(op: Op, t: TableV) -> TableV
    decreases op,
{
    match op {
        Op::Combine(op1, op2) => eval_spec(*op2, eval_spec(*op1, t)),
        Op::GroupBy(place) => TableV { header: t.header, rows: group_rows(t.rows, place) },
        Op::Filter(names, place) => TableV {
            header: t.header,
            rows: filter_rows(t.rows, names.deep_view(), place),
        },
        Op::Limit(n) => TableV { header: t.header, rows: limit_rows(t.rows, n as int) },
        Op::Select { start, size, step } => select_table(
            t,
            start as int,
            size as int,
            step as int,
        ),
        Op::SortBy(by) => TableV { header: t.header, rows: isort(t.rows, rleq(by)) },
        Op::GreaterThan(min) => TableV { header: t.header, rows: exceeding_rows(t.rows, min) },
        Op::NoOp => t,
    }
}

/// Stepping a prefix filter by one element.
proof fn lemma_filter_take_step<A>(s: Seq<A>, pred: spec_fn(A) -> bool, i: int)
    requires
        0 <= i < s.len(),
    ensures
        s.take(i + 1).filter(pred) == if pred(s[i]) {
            s.take(i).filter(pred).push(s[i])
        } else {
            s.take(i).filter(pred)
        },
{
    assert(s.take(i + 1) =~= s.take(i) + seq![s[i]]);
    Seq::<A>::filter_distributes_over_add(s.take(i), seq![s[i]], pred);
    reveal_with_fuel(Seq::filter, 2);
    assert(seq![s[i]].drop_last() =~= Seq::<A>::empty());
    if pred(s[i]) {
        assert(seq![s[i]].filter(pred) =~= Seq::<A>::empty().push(s[i]));
        assert(s.take(i).filter(pred) + seq![s[i]].filter(pred) =~= s.take(i).filter(pred).push(
            s[i],
        ));
    } else {
        assert(seq![s[i]].filter(pred) =~= Seq::<A>::empty());
        assert(s.take(i).filter(pred) + seq![s[i]].filter(pred) =~= s.take(i).filter(pred));
    }
}

/// The filtering operator: keep rows whose name, at the given granularity,
/// is one of `names`.
pub fn filter(table: &Table, names: &Vec<String>, place: Place) -> (r: Table)
    ensures
        r@.header == table@.header,
        r@.rows == filter_rows(table@.rows, names.deep_view(), place),
{
    let ghost pred = |rv: RowV| names.deep_view().contains(get_of(rv.name, place));
    let mut rows: Vec<Row> = Vec::new();
    let mut i: usize = 0;
    assert(rows_view(table.rows@).take(0) =~= Seq::<RowV>::empty());
    assert(rows_view(rows@) =~= Seq::<RowV>::empty());
    assert(Seq::<RowV>::empty().filter(pred) =~= Seq::<RowV>::empty()) by {
        reveal_with_fuel(Seq::filter, 1);
    }
    while i < table.rows.len()
        invariant
            i <= table.rows.len(),
            pred == (|rv: RowV| names.deep_view().contains(get_of(rv.name, place))),
            rows_view(rows@) == rows_view(table.rows@).take(i as int).filter(pred),
        decreases table.rows.len() - i,
    {
        let keep = contains_string(names, table.rows[i].name.get(place));
        proof {
            assert(rows_view(table.rows@)[i as int] == table.rows@[i as int]@);
            lemma_filter_take_step(rows_view(table.rows@), pred, i as int);
        }
        if keep {
            let dup = table.rows[i].duplicate();
            rows.push(dup);
            proof {
                assert(rows_view(rows@) =~= rows_view(table.rows@).take(i as int).filter(
                    pred,
                ).push(table.rows@[i as int]@));
            }
        }
        i = i + 1;
    }
    proof {
        assert(rows_view(table.rows@).take(table.rows@.len() as int) =~= rows_view(table.rows@));
    }
    Table { header: crate::data::copy_header(&table.header), rows }
}

/// Window a series: from `start`, every `step`-th value, at most `size`.
pub fn select_(v: &Vec<u32>, start: usize, size: usize, step: usize) -> (r: Vec<u32>)
    requires
        step >= 1,
    ensures
        r@ == sel_seq(v@, start as int, size as int, step as int),
{
    let mut out: Vec<u32> = Vec::new();
    let mut idx: usize = start;
    while idx < v.len() && out.len() < size
        invariant
            step >= 1,
            idx >= start,
            out@.len() <= size,
            sel_seq(v@, start as int, size as int, step as int) == out@ + sel_seq(
                v@,
                idx as int,
                size - out@.len(),
                step as int,
            ),
        decreases v.len() - idx,
    {
        let ghost pre = out@;
        let ghost rem = sel_seq(v@, idx as int, size - pre.len(), step as int);
        assert(rem == seq![v@[idx as int]] + sel_seq(
            v@,
            idx + step,
            size - pre.len() - 1,
            step as int,
        ));
        out.push(v[idx]);
        assert(pre + rem =~= out@ + sel_seq(v@, idx + step, size - out@.len(), step as int));
        if v.len() - idx <= step {
            assert(sel_seq(v@, idx + step, size - out@.len(), step as int) =~= Seq::<
                u32,
            >::empty());
            assert(out@ + Seq::<u32>::empty() =~= out@);
            return out;
        }
        idx = idx + step;
    }
    assert(sel_seq(v@, idx as int, size - out@.len(), step as int) =~= Seq::<u32>::empty());
    assert(out@ + Seq::<u32>::empty() =~= out@);
    out
}

/// Window the header labels the same way.
fn select_labels(v: &Vec<String>, start: usize, size: usize, step: usize) -> (r: Vec<String>)
    requires
        step >= 1,
    ensures
        r@ == sel_seq(v@, start as int, size as int, step as int),
{
    let mut out: Vec<String> = Vec::new();
    let mut idx: usize = start;
    while idx < v.len() && out.len() < size
        invariant
            step >= 1,
            idx >= start,
            out@.len() <= size,
            sel_seq(v@, start as int, size as int, step as int) == out@ + sel_seq(
                v@,
                idx as int,
                size - out@.len(),
                step as int,
            ),
        decreases v.len() - idx,
    {
        let ghost pre = out@;
        let ghost rem = sel_seq(v@, idx as int, size - pre.len(), step as int);
        assert(rem == seq![v@[idx as int]] + sel_seq(
            v@,
            idx + step,
            size - pre.len() - 1,
            step as int,
        ));
        out.push(v[idx].clone());
        assert(pre + rem =~= out@ + sel_seq(v@, idx + step, size - out@.len(), step as int));
        if v.len() - idx <= step {
            assert(sel_seq(v@, idx + step, size - out@.len(), step as int) =~= Seq::<
                String,
            >::empty());
            assert(out@ + Seq::<String>::empty() =~= out@);
            return out;
        }
        idx = idx + step;
    }
    assert(sel_seq(v@, idx as int, size - out@.len(), step as int) =~= Seq::<String>::empty());
    assert(out@ + Seq::<String>::empty() =~= out@);
    out
}

/// Windowing a sequence commutes with mapping its elements.
proof fn lemma_sel_seq_map<A, B>(s: Seq<A>, f: spec_fn(A) -> B, start: int, size: int, step: int)
    ensures
        sel_seq(s, start, size, step).map_values(f) == sel_seq(
            s.map_values(f),
            start,
            size,
            step,
        ),
    decreases size,
{
    if size <= 0 || step <= 0 || start < 0 || start >= s.len() {
        assert(sel_seq(s, start, size, step).map_values(f) =~= sel_seq(
            s.map_values(f),
            start,
            size,
            step,
        ));
    } else {
        lemma_sel_seq_map(s, f, start + step, size - 1, step);
        assert((seq![s[start]] + sel_seq(s, start + step, size - 1, step)).map_values(f) =~= seq![
            f(s[start]),
        ] + sel_seq(s, start + step, size - 1, step).map_values(f));
        assert(sel_seq(s.map_values(f), start, size, step) == seq![s.map_values(f)[start]]
            + sel_seq(s.map_values(f), start + step, size - 1, step));
        assert(seq![f(s[start])] + sel_seq(s.map_values(f), start + step, size - 1, step) =~= seq![
            s.map_values(f)[start],
        ] + sel_seq(s.map_values(f), start + step, size - 1, step));
    }
}

/// The windowing operator: narrow the header and every series to the same
/// strided sub-range.
pub fn select(table: &Table, start: usize, size: usize, step: usize) -> (r: Table)
    requires
        step >= 1,
    ensures
        r@ == select_table(table@, start as int, size as int, step as int),
{
    let header = select_labels(&table.header, start, size, step);
    proof {
        lemma_sel_seq_map(
            table.header@,
            |x: String| x@,
            start as int,
            size as int,
            step as int,
        );
        assert(header.deep_view() =~= sel_seq(table.header@, start as int, size as int, step as int)
            .map_values(|x: String| x@));
        assert(table@.header =~= table.header@.map_values(|x: String| x@));
    }
    let mut rows: Vec<Row> = Vec::new();
    let ghost rowfn = |r: RowV|
        RowV { name: r.name, data: sel_seq(r.data, start as int, size as int, step as int) };
    let mut i: usize = 0;
    while i < table.rows.len()
        invariant
            step >= 1,
            i <= table.rows.len(),
            rowfn == (|r: RowV|
                RowV {
                    name: r.name,
                    data: sel_seq(r.data, start as int, size as int, step as int),
                }),
            rows_view(rows@) == rows_view(table.rows@).take(i as int).map_values(rowfn),
        decreases table.rows.len() - i,
    {
        let ghost pre = rows@;
        let rw = &table.rows[i];
        let picked = Row { name: rw.name.duplicate(), data: select_(&rw.data, start, size, step) };
        rows.push(picked);
        proof {
            let tv = rows_view(table.rows@);
            assert(rows_view(pre).len() == pre.len());
            assert(pre.len() == i as int);
            assert(rows_view(rows@).len() == rows@.len());
            assert(tv.len() == table.rows@.len());
            assert(picked@ == rowfn(tv[i as int]));
            assert forall|k: int| 0 <= k < i + 1 implies #[trigger] rows_view(rows@)[k] == tv.take(
                i as int + 1,
            ).map_values(rowfn)[k] by {
                assert(rows_view(rows@)[k] == rows@[k]@);
                if k < i {
                    assert(rows@[k] == pre[k]);
                    assert(rows_view(pre)[k] == pre[k]@);
                    assert(tv.take(i as int).map_values(rowfn)[k] == rowfn(tv[k]));
                }
                assert(tv.take(i as int + 1).map_values(rowfn)[k] == rowfn(tv[k]));
            }
            assert(rows_view(rows@) =~= tv.take(i as int + 1).map_values(rowfn));
        }
        i = i + 1;
    }
    proof {
        assert(rows_view(table.rows@).take(table.rows@.len() as int) =~= rows_view(table.rows@));
        assert(table@.rows == rows_view(table.rows@));
    }
    Table { header, rows }
}

/// The limiting operator: keep the last `count` rows.
pub fn limit(table: &Table, count: usize) -> (r: Table)
    ensures
        r@.header == table@.header,
        r@.rows == limit_rows(table@.rows, count as int),
{
    let begin: usize = if count >= table.rows.len() {
        0
    } else {
        table.rows.len() - count
    };
    let mut rows: Vec<Row> = Vec::new();
    let mut i: usize = begin;
    while i < table.rows.len()
        invariant
            begin <= i <= table.rows.len(),
            rows_view(rows@) == rows_view(table.rows@).subrange(begin as int, i as int),
        decreases table.rows.len() - i,
    {
        let ghost pre = rows@;
        rows.push(table.rows[i].duplicate());
        proof {
            let tv = rows_view(table.rows@);
            assert(rows_view(pre).len() == pre.len());
            assert(pre.len() == i - begin);
            assert(rows_view(rows@).len() == rows@.len());
            assert(tv.len() == table.rows@.len());
            assert forall|k: int| 0 <= k < rows@.len() implies #[trigger] rows_view(rows@)[k]
                == tv.subrange(begin as int, i as int + 1)[k] by {
                assert(rows_view(rows@)[k] == rows@[k]@);
                if k < pre.len() {
                    assert(rows@[k] == pre[k]);
                    assert(rows_view(pre)[k] == pre[k]@);
                }
                assert(tv[begin + k] == table.rows@[begin + k]@);
            }
            assert(rows_view(rows@) =~= tv.subrange(begin as int, i as int + 1));
        }
        i = i + 1;
    }
    proof {
        let all = rows_view(table.rows@);
        if count >= all.len() {
            assert(all.subrange(0, all.len() as int) =~= all);
        } else {
            assert(all.subrange(begin as int, all.len() as int) =~= all.skip(
                all.len() - count as int,
            ));
        }
    }
    Table { header: crate::data::copy_header(&table.header), rows }
}

/// The thresholding operator: keep rows whose most recent value strictly
/// exceeds `min`.
pub fn greater_than(table: &Table, min: u32) -> (r: Table)
    ensures
        r@.header == table@.header,
        r@.rows == exceeding_rows(table@.rows, min),
{
    let ghost pred = |rv: RowV| rv.data.len() > 0 && rv.data[0] > min;
    let mut rows: Vec<Row> = Vec::new();
    let mut i: usize = 0;
    assert(rows_view(table.rows@).take(0) =~= Seq::<RowV>::empty());
    assert(rows_view(rows@) =~= Seq::<RowV>::empty());
    assert(Seq::<RowV>::empty().filter(pred) =~= Seq::<RowV>::empty()) by {
        reveal_with_fuel(Seq::filter, 1);
    }
    while i < table.rows.len()
        invariant
            i <= table.rows.len(),
            pred == (|rv: RowV| rv.data.len() > 0 && rv.data[0] > min),
            rows_view(rows@) == rows_view(table.rows@).take(i as int).filter(pred),
        decreases table.rows.len() - i,
    {
        let rw = &table.rows[i];
        let keep = rw.data.len() > 0 && rw.data[0] > min;
        proof {
            assert(rows_view(table.rows@)[i as int] == table.rows@[i as int]@);
            lemma_filter_take_step(rows_view(table.rows@), pred, i as int);
        }
        if keep {
            rows.push(rw.duplicate());
            proof {
                assert(rows_view(rows@) =~= rows_view(table.rows@).take(i as int).filter(
                    pred,
                ).push(table.rows@[i as int]@));
            }
        }
        i = i + 1;
    }
    proof {
        assert(rows_view(table.rows@).take(table.rows@.len() as int) =~= rows_view(table.rows@));
    }
    Table { header: crate::data::copy_header(&table.header), rows }
}

/// Compare two rows under a sort key.
fn row_le(a: &Row, b: &Row, by: SortBy) -> (r: bool)
    ensures
        r == rleq(by)(a@, b@),
{
    match by {
        SortBy::Name => a.name.le(&b.name),
        SortBy::Max => {
            let fa: u32 = if a.data.len() > 0 {
                a.data[0]
            } else {
                0
            };
            let fb: u32 = if b.data.len() > 0 {
                b.data[0]
            } else {
                0
            };
            fa <= fb
        },
    }
}

/// A sequence of rows and its models, after inserting one row.
proof fn lemma_rows_view_insert(v: Seq<Row>, j: int, x: Row)
    requires
        0 <= j <= v.len(),
    ensures
        rows_view(v.insert(j, x)) == rows_view(v).insert(j, x@),
{
    assert(rows_view(v.insert(j, x)) =~= rows_view(v).insert(j, x@));
}

/// Sort rows by the given key, stably: the canonical insertion sort.
pub fn sort_rows(rows: &Vec<Row>, by: SortBy) -> (r: Vec<Row>)
    ensures
        rows_view(r@) == isort(rows_view(rows@), rleq(by)),
        sorted_by_leq(rows_view(r@), rleq(by)),
{
    proof {
        lemma_rleq_well_ordered(by);
    }
    let mut out: Vec<Row> = Vec::new();
    let mut i: usize = 0;
    assert(rows_view(out@) =~= Seq::<RowV>::empty());
    assert(rows_view(rows@).take(0) =~= Seq::<RowV>::empty());
    while i < rows.len()
        invariant
            i <= rows.len(),
            leq_total(rleq(by)),
            leq_trans(rleq(by)),
            rows_view(out@) == isort(rows_view(rows@).take(i as int), rleq(by)),
            sorted_by_leq(rows_view(out@), rleq(by)),
        decreases rows.len() - i,
    {
        let x = rows[i].duplicate();
        let mut j: usize = 0;
        while j < out.len() && row_le(&out[j], &x, by)
            invariant
                j <= out.len(),
                x@ == rows@[i as int]@,
                forall|k: int| 0 <= k < j ==> rleq(by)(#[trigger] rows_view(out@)[k], x@),
            decreases out.len() - j,
        {
            assert(rows_view(out@)[j as int] == out@[j as int]@);
            j = j + 1;
        }
        let ghost pre = out@;
        proof {
            if j < out.len() {
                assert(rows_view(pre)[j as int] == pre[j as int]@);
            }
            crate::sort::lemma_insert_sorted_at_pos(x@, rows_view(pre), rleq(by), j as int);
        }
        out.insert(j, x);
        proof {
            lemma_rows_view_insert(pre, j as int, x);
            assert(rows_view(out@) == insert_sorted(x@, rows_view(pre), rleq(by)));
            let t = rows_view(rows@).take(i as int + 1);
            assert(t.drop_last() =~= rows_view(rows@).take(i as int));
            assert(t.last() == rows_view(rows@)[i as int]);
            assert(rows_view(rows@)[i as int] == rows@[i as int]@);
            assert(rows_view(out@) == isort(t, rleq(by)));
            crate::sort::lemma_insert_sorted_sorted(x@, rows_view(pre), rleq(by));
        }
        i = i + 1;
    }
    proof {
        assert(rows_view(rows@).take(rows@.len() as int) =~= rows_view(rows@));
    }
    out
}

/// The sorting operator.
pub fn sort_by(table: &Table, sort: SortBy) -> (r: Table)
    ensures
        r@.header == table@.header,
        r@.rows == isort(table@.rows, rleq(sort)),
{
    Table {
        header: crate::data::copy_header(&table.header),
        rows: sort_rows(&table.rows, sort),
    }
}

/// Element-wise sum of two series, saturating at the count ceiling; the
/// shorter series contributes zero beyond its length.
pub fn add_series(a: &Vec<u32>, b: &Vec<u32>) -> (r: Vec<u32>)
    ensures
        r@ == sum_series(a@, b@),
{
    let n: usize = if a.len() >= b.len() {
        a.len()
    } else {
        b.len()
    };
    let mut out: Vec<u32> = Vec::new();
    let mut i: usize = 0;
    while i < n
        invariant
            i <= n,
            n == if a@.len() >= b@.len() {
                a@.len()
            } else {
                b@.len()
            },
            out@.len() == i,
            forall|j: int| 0 <= j < i ==> #[trigger] out@[j] == sat_add(get0(a@, j), get0(b@, j)),
        decreases n - i,
    {
        let va: u32 = if i < a.len() {
            a[i]
        } else {
            0
        };
        let vb: u32 = if i < b.len() {
            b[i]
        } else {
            0
        };
        let s: u32 = if vb > 0xffff_ffffu32 - va {
            0xffff_ffffu32
        } else {
            va + vb
        };
        out.push(s);
        i = i + 1;
    }
    assert(out@ =~= sum_series(a@, b@));
    out
}

/// Whether two names are equal in every field.
pub fn names_eq(a: &Name, b: &Name) -> (r: bool)
    ensures
        r == (a@ == b@),
{
    let r = a.country.eq(&b.country) && a.province.eq(&b.province) && a.city.eq(&b.city);
    proof {
        if a@.country == b@.country && a@.province == b@.province && a@.city == b@.city {
            assert(a@ == b@);
        }
    }
    r
}

pub proof fn lemma_find_name_at(rows: Seq<RowV>, name: NameV, k: int)
    requires
        0 <= k <= rows.len(),
        forall|j: int| 0 <= j < k ==> (#[trigger] rows[j]).name != name,
        k < rows.len() ==> rows[k].name == name,
    ensures
        find_name(rows, name) == if k < rows.len() {
            k
        } else {
            -1
        },
    decreases k,
{
    if k == 0 {
    } else {
        assert(rows[0].name != name);
        lemma_find_name_at(rows.skip(1), name, k - 1);
        assert(forall|j: int|
            0 <= j < k - 1 ==> (#[trigger] rows.skip(1)[j]).name != name) by {
            assert(forall|j: int| 0 <= j < k - 1 ==> rows.skip(1)[j] == rows[j + 1]);
        }
    }
}

/// A found index is in range and carries the name; otherwise the result is
/// the sentinel.
pub proof fn lemma_find_name_bounds(rows: Seq<RowV>, name: NameV)
    ensures
        find_name(rows, name) == -1 || (0 <= find_name(rows, name) < rows.len() && rows[
            find_name(rows, name)
        ].name == name),
    decreases rows.len(),
{
    if rows.len() > 0 && rows[0].name != name {
        lemma_find_name_bounds(rows.skip(1), name);
    }
}

/// Find the row already carrying `name`, if any.
fn find_row(acc: &Vec<Row>, name: &Name) -> (r: Option<usize>)
    ensures
        r matches Some(i) ==> i < acc@.len() && find_name(rows_view(acc@), name@) == i,
        r is None ==> find_name(rows_view(acc@), name@) == -1,
{
    let mut i: usize = 0;
    while i < acc.len()
        invariant
            i <= acc.len(),
            forall|j: int| 0 <= j < i ==> (#[trigger] rows_view(acc@)[j]).name != name@,
        decreases acc.len() - i,
    {
        if names_eq(&acc[i].name, name) {
            proof {
                assert(rows_view(acc@)[i as int] == acc@[i as int]@);
                lemma_find_name_at(rows_view(acc@), name@, i as int);
            }
            return Some(i);
        }
        assert(rows_view(acc@)[i as int] == acc@[i as int]@);
        i = i + 1;
    }
    proof {
        lemma_find_name_at(rows_view(acc@), name@, acc@.len() as int);
    }
    None
}

/// The grouping operator: merge rows that coarsen to the same name at the
/// given granularity, summing their series; the result is ordered ascending
/// by name.
pub fn group_by(table: &Table, place: Place) -> (r: Table)
    ensures
        r@.header == table@.header,
        r@.rows == group_rows(table@.rows, place),
{
    let mut acc: Vec<Row> = Vec::new();
    let mut i: usize = 0;
    assert(rows_view(acc@) =~= Seq::<RowV>::empty());
    assert(rows_view(table.rows@).take(0) =~= Seq::<RowV>::empty());
    while i < table.rows.len()
        invariant
            i <= table.rows.len(),
            rows_view(acc@) == accum_groups(rows_view(table.rows@).take(i as int), place),
        decreases table.rows.len() - i,
    {
        let ghost tv = rows_view(table.rows@);
        let ghost pre = acc@;
        proof {
            assert(rows_view(pre).len() == pre.len());
            assert(tv.len() == table.rows@.len());
            assert(tv.take(i as int + 1).drop_last() =~= tv.take(i as int));
            assert(tv.take(i as int + 1).last() == tv[i as int]);
            assert(tv[i as int] == table.rows@[i as int]@);
        }
        let key = table.rows[i].name.group(place);
        match find_row(&acc, &key) {
            Some(j) => {
                let merged = add_series(&acc[j].data, &table.rows[i].data);
                let updated = Row { name: key, data: merged };
                let ghost uv = updated@;
                acc.remove(j);
                acc.insert(j, updated);
                proof {
                    assert(acc@ =~= pre.update(j as int, acc@[j as int]));
                    assert(acc@[j as int]@ == uv);
                    assert(rows_view(pre)[j as int] == pre[j as int]@);
                    assert(uv == RowV {
                        name: group_of(tv[i as int].name, place),
                        data: sum_series(
                            rows_view(pre)[j as int].data,
                            tv[i as int].data,
                        ),
                    });
                    assert(rows_view(acc@) =~= rows_view(pre).update(j as int, uv));
                    assert(rows_view(acc@) == accum_groups(tv.take(i as int + 1), place));
                }
            },
            None => {
                let fresh = Row {
                    name: key,
                    data: crate::data::copy_series(&table.rows[i].data),
                };
                let ghost fv = fresh@;
                acc.push(fresh);
                proof {
                    assert(acc@ =~= pre.push(acc@[pre.len() as int]));
                    assert(acc@[pre.len() as int]@ == fv);
                    assert(rows_view(acc@) =~= rows_view(pre).push(fv));
                    assert(rows_view(acc@) == accum_groups(tv.take(i as int + 1), place));
                }
            },
        }
        i = i + 1;
    }
    proof {
        assert(rows_view(table.rows@).take(table.rows@.len() as int) =~= rows_view(table.rows@));
    }
    let sorted = sort_rows(&acc, SortBy::Name);
    Table { header: crate::data::copy_header(&table.header), rows: sorted }
}

/// Evaluate one operator against a table. The table invariant is preserved:
/// rows stay no longer than the header.
pub fn eval(op: &Op, table: &Table) -> (r: Table)
    requires
        op_wf(*op),
    ensures
        r@ == eval_spec(*op, table@),
        crate::data::wf(table@) ==> crate::data::wf(r@),
    decreases *op,
{
    proof {
        if crate::data::wf(table@) {
            crate::laws::lemma_eval_preserves_wf(*op, table@);
        }
    }
    match op {
        Op::Combine(op1, op2) => {
            let mid = eval(op1, table);
            eval(op2, &mid)
        },
        Op::GroupBy(place) => group_by(table, *place),
        Op::Filter(names, place) => filter(table, names, *place),
        Op::Limit(n) => limit(table, *n),
        Op::Select { start, size, step } => select(table, *start, *size, *step),
        Op::SortBy(by) => sort_by(table, *by),
        Op::GreaterThan(min) => greater_than(table, *min),
        Op::NoOp => table.duplicate(),
    }
}

/// The pipeline's filtering stage: an empty name choice means "keep
/// everything", so the stage is skipped; otherwise rows are kept by country.
pub open spec fn filter_stage(t: TableV, names: Seq<Seq<char>>) -> TableV {
    if names.len() == 0 {
        t
    } else {
        TableV { header: t.header, rows: filter_rows(t.rows, names, Place::Country) }
    }
}

/// What the standard report pipeline makes of a table: window the most
/// recent `num_cols` columns at stride `skip_n`, keep the chosen countries
/// (an empty choice keeps everything), group by country unless a break-down
/// is asked for, drop rows at or below `min`, order by the chosen key, and
/// keep the last `num_rows` rows.
pub open spec fn pipeline_spec(
    t: TableV,
    num_cols: int,
    skip_n: int,
    countries: Seq<Seq<char>>,
    break_down: bool,
    min: u32,
    sort_by_name: bool,
    num_rows: int,
) -> TableV {
    let t1 = select_table(t, 0, num_cols, skip_n);
    let t2 = filter_stage(t1, countries);
    let t3 = if break_down {
        t2
    } else {
        TableV { header: t2.header, rows: group_rows(t2.rows, Place::Country) }
    };
    let t4 = TableV { header: t3.header, rows: exceeding_rows(t3.rows, min) };
    let key = if sort_by_name {
        SortBy::Name
    } else {
        SortBy::Max
    };
    let t5 = TableV { header: t4.header, rows: isort(t4.rows, rleq(key)) };
    TableV { header: t5.header, rows: limit_rows(t5.rows, num_rows) }
}

/// Build the operator tree of the standard report pipeline.
pub fn pipeline_op(
    num_cols: usize,
    skip_n: usize,
    countries: Vec<String>,
    break_down: bool,
    min: u32,
    sort_by_name: bool,
    num_rows: usize,
) -> (r: Op)
    requires
        skip_n >= 1,
    ensures
        op_wf(r),
        forall|t: TableV| #[trigger] eval_spec(r, t) == pipeline_spec(
            t,
            num_cols as int,
            skip_n as int,
            countries.deep_view(),
            break_down,
            min,
            sort_by_name,
            num_rows as int,
        ),
{
    let ghost names = countries.deep_view();
    let filter_stage: Op = if countries.len() == 0 {
        Op::NoOp
    } else {
        Op::Filter(countries, Place::Country)
    };
    let group_stage: Op = if break_down {
        Op::NoOp
    } else {
        Op::GroupBy(Place::Country)
    };
    let key: SortBy = if sort_by_name {
        SortBy::Name
    } else {
        SortBy::Max
    };
    let r = Op::Combine(
        Box::new(Op::Select { start: 0, size: num_cols, step: skip_n }),
        Box::new(
            Op::Combine(
                Box::new(filter_stage),
                Box::new(
                    Op::Combine(
                        Box::new(group_stage),
                        Box::new(
                            Op::Combine(
                                Box::new(Op::GreaterThan(min)),
                                Box::new(
                                    Op::Combine(
                                        Box::new(Op::SortBy(key)),
                                        Box::new(Op::Limit(num_rows)),
                                    ),
                                ),
                            ),
                        ),
                    ),
                ),
            ),
        ),
    );
    proof {
        assert(op_wf(r)) by {
            reveal_with_fuel(op_wf, 10);
        }
        assert forall|t: TableV| #[trigger] eval_spec(r, t) == pipeline_spec(
            t,
            num_cols as int,
            skip_n as int,
            names,
            break_down,
            min,
            sort_by_name,
            num_rows as int,
        ) by {
            reveal_with_fuel(eval_spec, 10);
            let t1 = eval_spec(Op::Select { start: 0, size: num_cols, step: skip_n }, t);
            let t2 = eval_spec(filter_stage, t1);
            let t3 = eval_spec(group_stage, t2);
            let t4 = eval_spec(Op::GreaterThan(min), t3);
            let t5 = eval_spec(Op::SortBy(key), t4);
            assert(eval_spec(r, t) == eval_spec(Op::Limit(num_rows), t5));
        }
    }
    r
}

/// Whether one of the strings equals `s`.
pub fn contains_string(names: &Vec<String>, s: &String) -> (r: bool)
    ensures
        r == names.deep_view().contains(s@),
{
    let mut i: usize = 0;
    while i < names.len()
        invariant
            i <= names.len(),
            forall|j: int| 0 <= j < i ==> names.deep_view()[j] != s@,
        decreases names.len() - i,
    {
        if names[i].eq(s) {
            assert(names.deep_view()[i as int] == s@);
            return true;
        }
        i = i + 1;
    }
    false
}

} // verus!
