//! Ingestion: parse a CSV byte stream in one of the two accepted schemas
//! into the canonical table, most-recent-first, sanitized and sorted by name.

use crate::data::{name_of, rows_view, wf, Name, Row, RowV, Table, TableV};
use crate::ops::{rleq, sort_rows, SortBy};
use crate::sort::isort;
use crate::text::parse_or_zero;
use vstd::prelude::*;

verus! {

/// Why an input stream was refused.
#[derive(Clone, Copy, Debug, PartialEq, Eq, Structural)]
pub enum IngestError {
    /// The stream is not structurally valid CSV (unequal record arity,
    /// broken encoding, or an unreadable stream).
    MalformedInput,
}

/// The records a CSV byte stream holds, header record included, or nothing
/// when the stream is structurally invalid.
pub uninterp spec fn csv_table_of(bytes: Seq<u8>) -> Option<Seq<Seq<Seq<char>>>>;

/// Relies on `csv::ReaderBuilder` / `csv::Reader::records`: the stream is cut
/// at record boundaries with quoting handled; every record carries as many
/// fields as the first one (the reader refuses unequal lengths when it is not
/// flexible) and an invalid stream refuses as a whole. The outcome is a
/// function of the bytes alone.
#[verifier::external_body]
fn csv_records(bytes: &[u8]) -> (r: Option<Vec<Vec<String>>>)
    ensures
        r is Some <==> csv_table_of(bytes@) is Some,
        r matches Some(recs) ==> Some(recs.deep_view()) == csv_table_of(bytes@),
        r matches Some(recs) ==> forall|i: int|
            0 <= i < recs.deep_view().len() ==> (#[trigger] recs.deep_view()[i]).len()
                == recs.deep_view()[0].len(),
{
    let mut rdr = csv::ReaderBuilder::new().has_headers(false).from_reader(bytes);
    let mut out: Vec<Vec<String>> = Vec::new();
    for rec in rdr.records() {
        match rec {
            Ok(r) => out.push(r.iter().map(|f| f.to_string()).collect()),
            Err(_) => return None,
        }
    }
    Some(out)
}

/// The tail of `s` from `k` on, or nothing when `s` is shorter.
pub open spec fn tail_from<T>(s: Seq<T>, k: int) -> Seq<T> {
    if 0 <= k <= s.len() {
        s.skip(k)
    } else {
        Seq::empty()
    }
}

/// The counts of a record's data cells, in source (oldest-first) order.
pub open spec fn cells_of(rec: Seq<Seq<char>>, lead: int) -> Seq<u32> {
    tail_from(rec, lead).map_values(|c: Seq<char>| parse_or_zero(c))
}

/// A cumulative series never drops.
pub open spec fn nondecreasing(s: Seq<u32>) -> bool {
    forall|i: int, j: int| 0 <= i <= j < s.len() ==> s[i] <= s[j]
}

/// Index of the first zero, or the length when there is none.
pub open spec fn first_zero(s: Seq<u32>) -> int
    decreases s.len(),
{
    if s.len() == 0 {
        0
    } else if s[0] == 0 {
        0
    } else {
        1 + first_zero(s.skip(1))
    }
}

/// A most-recent-first series cut at its first zero: trailing zero runs are
/// absence of history, not reported zero counts.
pub open spec fn truncated(s: Seq<u32>) -> Seq<u32> {
    s.take(first_zero(s))
}

pub proof fn lemma_first_zero_at(s: Seq<u32>, k: int)
    requires
        0 <= k <= s.len(),
        forall|j: int| 0 <= j < k ==> s[j] != 0,
        k < s.len() ==> s[k] == 0,
    ensures
        first_zero(s) == k,
    decreases k,
{
    if k > 0 {
        lemma_first_zero_at(s.skip(1), k - 1);
    }
}

pub proof fn lemma_first_zero_bounds(s: Seq<u32>)
    ensures
        0 <= first_zero(s) <= s.len(),
        first_zero(s) < s.len() ==> s[first_zero(s)] == 0,
        forall|j: int| 0 <= j < first_zero(s) ==> s[j] != 0,
    decreases s.len(),
{
    if s.len() == 0 || s[0] == 0 {
    } else {
        lemma_first_zero_bounds(s.skip(1));
        assert forall|j: int| 0 <= j < first_zero(s) implies s[j] != 0 by {
            if j > 0 {
                assert(s.skip(1)[j - 1] == s[j]);
            }
        }
    }
}

/// Whether a record of the schema at hand is kept: it has the leading
/// fields, and under sanitation its cumulative series never drops.
pub open spec fn keep_of(rec: Seq<Seq<char>>, lead: int, sanitize: bool) -> bool {
    rec.len() >= lead && (sanitize ==> nondecreasing(cells_of(rec, lead)))
}

/// The row a kept record yields: the name from the combined place field at
/// `pf` and the country field at `cf`; the series reversed to
/// most-recent-first, and cut at its first zero under sanitation.
pub open spec fn row_of(rec: Seq<Seq<char>>, lead: int, pf: int, cf: int, sanitize: bool) -> RowV {
    RowV {
        name: name_of(rec[pf], rec[cf]),
        data: if sanitize {
            truncated(cells_of(rec, lead).reverse())
        } else {
            cells_of(rec, lead).reverse()
        },
    }
}

/// The rows the data records yield, in record order: kept records become
/// rows, the rest are dropped.
pub open spec fn rows_of(
    recs: Seq<Seq<Seq<char>>>,
    lead: int,
    pf: int,
    cf: int,
    sanitize: bool,
) -> Seq<RowV>
    decreases recs.len(),
{
    if recs.len() == 0 {
        Seq::empty()
    } else {
        let rest = rows_of(recs.drop_last(), lead, pf, cf, sanitize);
        if keep_of(recs.last(), lead, sanitize) {
            rest.push(row_of(recs.last(), lead, pf, cf, sanitize))
        } else {
            rest
        }
    }
}

/// The table a record sequence yields under one schema: the header record's
/// date labels reversed, and the data records' rows sorted by name.
pub open spec fn ingest_schema(
    recs: Seq<Seq<Seq<char>>>,
    lead: int,
    pf: int,
    cf: int,
    sanitize: bool,
) -> TableV {
    if recs.len() == 0 {
        TableV { header: Seq::empty(), rows: Seq::empty() }
    } else {
        TableV {
            header: tail_from(recs[0], lead).reverse(),
            rows: isort(
                rows_of(recs.skip(1), lead, pf, cf, sanitize),
                rleq(SortBy::Name),
            ),
        }
    }
}

/// The global schema: `province, country, latitude, longitude, day cells...`
/// with sanitation.
pub open spec fn ingest_global(recs: Seq<Seq<Seq<char>>>) -> TableV {
    ingest_schema(recs, 4, 0, 1, true)
}

/// The US-county schema: five identifier columns, `county`, `state`, three
/// more identifiers, then day cells; no sanitation.
pub open spec fn ingest_us(recs: Seq<Seq<Seq<char>>>) -> TableV {
    ingest_schema(recs, 10, 5, 6, false)
}

/// Whether a series of counts never drops.
fn is_nondecreasing(v: &Vec<u32>) -> (r: bool)
    ensures
        r == nondecreasing(v@),
{
    if v.len() == 0 {
        return true;
    }
    let mut k: usize = 0;
    while k < v.len() - 1
        invariant
            v@.len() > 0,
            k <= v@.len() - 1,
            forall|i: int, j: int| 0 <= i <= j <= k ==> v@[i] <= v@[j],
        decreases v.len() - k,
    {
        if v[k] > v[k + 1] {
            return false;
        }
        k = k + 1;
    }
    true
}

/// A series reversed to the opposite order.
fn reverse_series(v: &Vec<u32>) -> (r: Vec<u32>)
    ensures
        r@ == v@.reverse(),
{
    let mut out: Vec<u32> = Vec::new();
    let mut i: usize = 0;
    while i < v.len()
        invariant
            i <= v.len(),
            out@.len() == i,
            forall|j: int| 0 <= j < i ==> #[trigger] out@[j] == v@[v@.len() - 1 - j],
        decreases v.len() - i,
    {
        out.push(v[v.len() - 1 - i]);
        i = i + 1;
    }
    assert(out@ =~= v@.reverse());
    out
}

/// A series cut at its first zero.
pub fn truncate_series(v: &Vec<u32>) -> (r: Vec<u32>)
    ensures
        r@ == truncated(v@),
{
    let mut cut: usize = 0;
    while cut < v.len() && v[cut] != 0
        invariant
            cut <= v@.len(),
            forall|j: int| 0 <= j < cut ==> v@[j] != 0,
        decreases v.len() - cut,
    {
        cut = cut + 1;
    }
    proof {
        lemma_first_zero_at(v@, cut as int);
    }
    let mut out: Vec<u32> = Vec::new();
    let mut i: usize = 0;
    while i < cut
        invariant
            i <= cut <= v@.len(),
            out@ == v@.subrange(0, i as int),
        decreases cut - i,
    {
        out.push(v[i]);
        assert(out@ =~= v@.subrange(0, i as int + 1));
        i = i + 1;
    }
    assert(out@ =~= v@.take(cut as int));
    out
}

/// The data cells of a record parsed as counts, oldest first.
fn parse_cells(rec: &Vec<String>, lead: usize) -> (r: Vec<u32>)
    requires
        lead <= rec@.len(),
    ensures
        r@ == cells_of(rec.deep_view(), lead as int),
{
    let mut out: Vec<u32> = Vec::new();
    let mut i: usize = lead;
    while i < rec.len()
        invariant
            lead <= i <= rec@.len(),
            out@.len() == i - lead,
            forall|j: int|
                0 <= j < i - lead ==> #[trigger] out@[j] == parse_or_zero(
                    rec.deep_view()[lead + j],
                ),
        decreases rec.len() - i,
    {
        let c = crate::text::parse_cell(rec[i].as_str());
        assert(rec.deep_view()[i as int] == rec@[i as int]@);
        out.push(c);
        i = i + 1;
    }
    proof {
        let dv = rec.deep_view();
        assert(dv.len() == rec@.len());
        assert(out@ =~= cells_of(dv, lead as int));
    }
    out
}

/// The header labels: the record's fields past the leading columns, reversed
/// so the most recent date comes first.
fn header_of(rec: &Vec<String>, lead: usize) -> (r: Vec<String>)
    requires
        lead <= rec@.len(),
    ensures
        r.deep_view() == tail_from(rec.deep_view(), lead as int).reverse(),
{
    let mut out: Vec<String> = Vec::new();
    let mut i: usize = rec.len();
    while i > lead
        invariant
            lead <= i <= rec@.len(),
            out@.len() == rec@.len() - i,
            forall|j: int|
                0 <= j < out@.len() ==> #[trigger] out@[j]@ == rec.deep_view()[rec@.len() - 1 - j],
        decreases i,
    {
        out.push(rec[i - 1].clone());
        i = i - 1;
    }
    proof {
        let dv = rec.deep_view();
        assert(dv.len() == rec@.len());
        assert(out.deep_view() =~= tail_from(dv, lead as int).reverse());
    }
    out
}

/// Rows of one sequence are bounded where those of a permutation are.
pub proof fn lemma_data_bound_perm(a: Seq<RowV>, b: Seq<RowV>, bound: int)
    requires
        a.to_multiset() == b.to_multiset(),
        forall|i: int| 0 <= i < a.len() ==> (#[trigger] a[i]).data.len() <= bound,
    ensures
        forall|i: int| 0 <= i < b.len() ==> (#[trigger] b[i]).data.len() <= bound,
{
    broadcast use vstd::seq_lib::group_to_multiset_ensures;

    assert forall|i: int| 0 <= i < b.len() implies (#[trigger] b[i]).data.len() <= bound by {
        assert(b.contains(b[i]));
        assert(b.to_multiset().contains(b[i]));
        assert(a.to_multiset().contains(b[i]));
        assert(a.contains(b[i]));
        let k = choose|k: int| 0 <= k < a.len() && a[k] == b[i];
        assert(a[k].data.len() <= bound);
    }
}

/// Build the table of one schema from the parsed records.
fn build_schema(recs: &Vec<Vec<String>>, lead: usize, pf: usize, cf: usize, sanitize: bool) -> (r:
    Table)
    requires
        pf < lead,
        cf < lead,
        forall|i: int|
            0 <= i < recs.deep_view().len() ==> (#[trigger] recs.deep_view()[i]).len()
                == recs.deep_view()[0].len(),
    ensures
        r@ == ingest_schema(recs.deep_view(), lead as int, pf as int, cf as int, sanitize),
        wf(r@),
{
    let ghost dv = recs.deep_view();
    assert(dv.len() == recs@.len());
    if recs.len() == 0 {
        let t = Table { header: Vec::new(), rows: Vec::new() };
        proof {
            assert(t@.header =~= Seq::<Seq<char>>::empty());
            assert(t@.rows =~= Seq::<RowV>::empty());
        }
        return t;
    }
    assert(dv[0] == recs@[0].deep_view());
    let first_len = recs[0].len();
    let header: Vec<String> = if lead <= first_len {
        header_of(&recs[0], lead)
    } else {
        Vec::new()
    };
    proof {
        if lead > first_len {
            assert(header.deep_view() =~= tail_from(dv[0], lead as int).reverse());
        }
    }
    let ghost hlen = tail_from(dv[0], lead as int).reverse().len();
    let ghost src = dv.skip(1);
    let mut rows: Vec<Row> = Vec::new();
    let mut i: usize = 1;
    assert(src.take(0) =~= Seq::<Seq<Seq<char>>>::empty());
    assert(rows_view(rows@) =~= Seq::<RowV>::empty());
    while i < recs.len()
        invariant
            1 <= i <= recs@.len(),
            pf < lead,
            cf < lead,
            dv == recs.deep_view(),
            dv.len() == recs@.len(),
            src == dv.skip(1),
            hlen == tail_from(dv[0], lead as int).reverse().len(),
            forall|k: int| 0 <= k < dv.len() ==> (#[trigger] dv[k]).len() == dv[0].len(),
            rows_view(rows@) == rows_of(
                src.take(i - 1),
                lead as int,
                pf as int,
                cf as int,
                sanitize,
            ),
            forall|j: int|
                0 <= j < rows_view(rows@).len() ==> (#[trigger] rows_view(rows@)[j]).data.len()
                    <= hlen,
        decreases recs.len() - i,
    {
        let ghost pre = rows@;
        let ghost t1 = src.take(i as int);
        proof {
            assert(t1.drop_last() =~= src.take(i - 1));
            assert(t1.last() == src[i - 1]);
            assert(src[i - 1] == dv[i as int]);
            assert(dv[i as int] == recs@[i as int].deep_view());
            assert(rows_view(pre).len() == pre.len());
        }
        let rec = &recs[i];
        let ghost rdv = dv[i as int];
        if rec.len() >= lead {
            let cells = parse_cells(rec, lead);
            let sane = if sanitize {
                is_nondecreasing(&cells)
            } else {
                true
            };
            if sane {
                let revd = reverse_series(&cells);
                let data = if sanitize {
                    truncate_series(&revd)
                } else {
                    revd
                };
                let name = Name::new(rec[pf].as_str(), rec[cf].as_str());
                proof {
                    assert(rdv[pf as int] == rec@[pf as int]@);
                    assert(rdv[cf as int] == rec@[cf as int]@);
                    assert(truncated(revd@).len() <= revd@.len()) by {
                        lemma_first_zero_bounds(revd@);
                    }
                    assert(cells@.len() == rdv.len() - lead);
                    assert(rdv.len() == dv[0].len());
                    assert(hlen == if lead as int <= dv[0].len() {
                        dv[0].len() - lead
                    } else {
                        0
                    });
                }
                let pushed = Row { name, data };
                let ghost pv = pushed@;
                rows.push(pushed);
                proof {
                    assert(keep_of(rdv, lead as int, sanitize));
                    assert(pv == row_of(rdv, lead as int, pf as int, cf as int, sanitize));
                    assert(rows@ == pre.push(rows@[pre.len() as int]));
                    assert(rows@[pre.len() as int]@ == pv);
                    assert(rows_view(rows@) =~= rows_view(pre).push(pv));
                    assert(rows_view(rows@) == rows_of(
                        t1,
                        lead as int,
                        pf as int,
                        cf as int,
                        sanitize,
                    ));
                }
            } else {
                proof {
                    assert(!keep_of(rdv, lead as int, sanitize));
                    assert(rows_view(rows@) == rows_of(
                        t1,
                        lead as int,
                        pf as int,
                        cf as int,
                        sanitize,
                    ));
                }
            }
        } else {
            proof {
                assert(!keep_of(rdv, lead as int, sanitize));
                assert(rows_view(rows@) == rows_of(
                    t1,
                    lead as int,
                    pf as int,
                    cf as int,
                    sanitize,
                ));
            }
        }
        i = i + 1;
    }
    proof {
        assert(src.take(recs@.len() - 1) =~= src);
    }
    let sorted = sort_rows(&rows, SortBy::Name);
    proof {
        crate::ops::lemma_rleq_well_ordered(SortBy::Name);
        crate::sort::lemma_isort_ensures(rows_view(rows@), rleq(SortBy::Name));
        lemma_data_bound_perm(rows_view(rows@), rows_view(sorted@), hlen as int);
    }
    let t = Table { header, rows: sorted };
    proof {
        assert(t@.header == header.deep_view());
        assert(wf(t@)) by {
            assert(t@.header.len() == hlen);
        }
    }
    t
}

/// Read a global-schema CSV stream: `province, country, latitude, longitude,
/// day cells...`, oldest date first. Rows whose cumulative series drops are
/// data artifacts and are dropped whole; valid series are reversed to
/// most-recent-first and cut at their first zero; rows come out sorted by
/// name. The whole stream is refused when it is not structurally valid CSV.
pub fn read(bytes: &[u8]) -> (r: Result<Table, IngestError>)
    ensures
        r is Ok <==> csv_table_of(bytes@) is Some,
        r matches Ok(t) ==> csv_table_of(bytes@) matches Some(recs) && t@ == ingest_global(recs),
        r matches Ok(t) ==> wf(t@),
        r matches Err(e) ==> e == IngestError::MalformedInput,
{
    match csv_records(bytes) {
        None => Err(IngestError::MalformedInput),
        Some(recs) => Ok(build_schema(&recs, 4, 0, 1, true)),
    }
}

/// Read a US-county CSV stream: five identifier columns, then `county` and
/// `state`, three more identifiers, then day cells oldest first. Series are
/// reversed to most-recent-first; rows come out sorted by name. The whole
/// stream is refused when it is not structurally valid CSV.
pub fn read_us(bytes: &[u8]) -> (r: Result<Table, IngestError>)
    ensures
        r is Ok <==> csv_table_of(bytes@) is Some,
        r matches Ok(t) ==> csv_table_of(bytes@) matches Some(recs) && t@ == ingest_us(recs),
        r matches Ok(t) ==> wf(t@),
        r matches Err(e) ==> e == IngestError::MalformedInput,
{
    match csv_records(bytes) {
        None => Err(IngestError::MalformedInput),
        Some(recs) => Ok(build_schema(&recs, 10, 5, 6, false)),
    }
}

} // verus!
