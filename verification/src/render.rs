//! The renderer: a table becomes tab-delimited text — header line, one line
//! per row with values oldest-to-newest (optionally day-over-day deltas),
//! and a summary line — aligned at the tab stops.

use crate::data::{RowV, Table, TableV};
use crate::ops::{sum_series, add_series};
use num_format::ToFormattedString;
use vstd::prelude::*;
use vstd::string::StringExecFns;

verus! {

/// The decimal digit characters in order.
pub open spec fn digit_char(d: int) -> char {
    "0123456789"@[d]
}

/// The decimal digits of a number.
pub open spec fn digits(n: nat) -> Seq<char>
    decreases n,
{
    if n < 10 {
        seq![digit_char(n as int)]
    } else {
        digits(n / 10).push(digit_char((n % 10) as int))
    }
}

/// Three digits, zero-padded on the left.
pub open spec fn pad3(n: nat) -> Seq<char> {
    if n < 10 {
        seq![digit_char(0)] + seq![digit_char(0)] + digits(n)
    } else if n < 100 {
        seq![digit_char(0)] + digits(n)
    } else {
        digits(n)
    }
}

/// Decimal digits grouped in threes by commas.
pub open spec fn group3(n: nat) -> Seq<char>
    decreases n,
{
    if n < 1000 {
        digits(n)
    } else {
        group3(n / 1000) + ","@ + pad3(n % 1000)
    }
}

/// A signed number with grouped digits and a leading `-` when negative.
pub open spec fn fmt_int(v: int) -> Seq<char> {
    if v < 0 {
        "-"@ + group3((-v) as nat)
    } else {
        group3(v as nat)
    }
}

/// Relies on `num_format::ToFormattedString` with `Locale::en`: decimal
/// digits grouped in threes by `,`, with `-` before a negative number.
#[verifier::external_body]
fn fmt_grouped(v: i64) -> (r: String)
    ensures
        r@ == fmt_int(v as int),
{
    v.to_formatted_string(&num_format::Locale::en)
}

/// The text with every tab stop expanded so the columns align.
pub uninterp spec fn aligned_of(s: Seq<char>) -> Seq<char>;

/// Relies on `tabwriter::TabWriter`: elastic tab stops over the whole text,
/// a function of the text alone.
#[verifier::external_body]
fn align_columns(text: &str) -> (r: String)
    ensures
        r@ == aligned_of(text@),
{
    let mut tw = tabwriter::TabWriter::new(Vec::new());
    let _ = std::io::Write::write_all(&mut tw, text.as_bytes());
    let _ = std::io::Write::flush(&mut tw);
    let bytes = tw.into_inner().unwrap_or_default();
    String::from_utf8_lossy(&bytes).into_owned()
}

/// The values a row displays, oldest to newest: the cumulative counts, or,
/// under differencing, each column's change over the one before it (the
/// first column's baseline is zero).
pub open spec fn disp_vals(data: Seq<u32>, diff: bool) -> Seq<int> {
    let rev = data.reverse();
    Seq::new(
        rev.len(),
        |i: int|
            if diff {
                rev[i] - (if i == 0 {
                    0int
                } else {
                    rev[i - 1] as int
                })
            } else {
                rev[i] as int
            },
    )
}

/// The element-wise total of all rows' series, most-recent-first.
pub open spec fn summary_of(rows: Seq<RowV>) -> Seq<u32>
    decreases rows.len(),
{
    if rows.len() == 0 {
        Seq::empty()
    } else {
        sum_series(summary_of(rows.drop_last()), rows.last().data)
    }
}

/// Fields joined by a tab after each one.
pub open spec fn tabbed(fields: Seq<Seq<char>>) -> Seq<char>
    decreases fields.len(),
{
    if fields.len() == 0 {
        Seq::empty()
    } else {
        tabbed(fields.drop_last()) + fields.last() + "\t"@
    }
}

/// The header line's fields: two name columns, then the dates oldest first.
pub open spec fn header_fields(header: Seq<Seq<char>>) -> Seq<Seq<char>> {
    seq!["County"@, "State/Country"@] + header.reverse()
}

/// One row's fields: its name columns, then its displayed values.
pub open spec fn row_fields(r: RowV, diff: bool) -> Seq<Seq<char>> {
    seq![r.name.province, r.name.country] + disp_vals(r.data, diff).map_values(
        |v: int| fmt_int(v),
    )
}

/// The row lines, one per row in table order.
pub open spec fn rows_text(rows: Seq<RowV>, diff: bool) -> Seq<char>
    decreases rows.len(),
{
    if rows.len() == 0 {
        Seq::empty()
    } else {
        rows_text(rows.drop_last(), diff) + tabbed(row_fields(rows.last(), diff)) + "\n"@
    }
}

/// The summary line's fields: a marker, a rule, then the element-wise totals
/// oldest first.
pub open spec fn summary_fields(rows: Seq<RowV>) -> Seq<Seq<char>> {
    seq!["Summary"@, "-------"@] + summary_of(rows).reverse().map_values(
        |v: u32| fmt_int(v as int),
    )
}

/// The whole report, before alignment: header line, row lines, summary line,
/// and a closing blank line.
pub open spec fn report_text(t: TableV, diff: bool) -> Seq<char> {
    tabbed(header_fields(t.header)) + "\n"@ + rows_text(t.rows, diff) + tabbed(
        summary_fields(t.rows),
    ) + "\n"@ + "\n"@
}

/// Append one field and its tab.
fn push_field(text: &mut String, f: &str)
    ensures
        final(text)@ == old(text)@ + f@ + "\t"@,
{
    text.append(f);
    text.append("\t");
}

/// Stepping `tabbed` by one field.
proof fn lemma_tabbed_push(fields: Seq<Seq<char>>, f: Seq<char>)
    ensures
        tabbed(fields.push(f)) == tabbed(fields) + f + "\t"@,
{
    assert(fields.push(f).drop_last() =~= fields);
    assert(fields.push(f).last() == f);
}

impl Table {
    /// The rendered report: tab-aligned text with one line per row, values
    /// oldest to newest (day-over-day deltas when `diffs` is set), and a
    /// trailing summary line of element-wise totals.
    pub fn render(&self, diffs: bool) -> (r: String)
        ensures
            r@ == aligned_of(report_text(self@, diffs)),
    {
        let mut text = String::new();
        // Header line
        push_field(&mut text, "County");
        push_field(&mut text, "State/Country");
        proof {
            let hf = header_fields(self@.header);
            assert(hf.take(2) =~= seq!["County"@, "State/Country"@]);
            assert(hf.take(2).drop_last() =~= seq!["County"@]);
            assert(tabbed(Seq::<Seq<char>>::empty()) =~= Seq::<char>::empty());
            assert(seq!["County"@].drop_last() =~= Seq::<Seq<char>>::empty());
            assert(tabbed(seq!["County"@]) =~= "County"@ + "\t"@);
            assert(text@ =~= tabbed(hf.take(2)));
        }
        let hn = self.header.len();
        let mut j: usize = 0;
        while j < hn
            invariant
                j <= hn,
                hn == self.header@.len(),
                text@ == tabbed(header_fields(self@.header).take(2 + j)),
            decreases hn - j,
        {
            push_field(&mut text, self.header[hn - 1 - j].as_str());
            proof {
                let hf = header_fields(self@.header);
                assert(self@.header.len() == self.header@.len());
                assert(hf.take(2 + j as int + 1) =~= hf.take(2 + j as int).push(
                    hf[2 + j as int],
                ));
                assert(hf[2 + j as int] == self@.header.reverse()[j as int]);
                assert(self@.header[hn - 1 - j as int] == self.header@[hn - 1 - j as int]@);
                lemma_tabbed_push(hf.take(2 + j as int), hf[2 + j as int]);
            }
            j = j + 1;
        }
        proof {
            let hf = header_fields(self@.header);
            assert(hf.take(2 + hn as int) =~= hf);
        }
        text.append("\n");
        // Row lines
        let ghost head_part = tabbed(header_fields(self@.header)) + "\n"@;
        let mut i: usize = 0;
        assert(rows_text(self@.rows.take(0), diffs) =~= Seq::<char>::empty());
        assert(text@ =~= head_part + rows_text(self@.rows.take(0), diffs));
        while i < self.rows.len()
            invariant
                i <= self.rows.len(),
                head_part == tabbed(header_fields(self@.header)) + "\n"@,
                text@ == head_part + rows_text(self@.rows.take(i as int), diffs),
            decreases self.rows.len() - i,
        {
            let row = &self.rows[i];
            let ghost rv = self@.rows[i as int];
            assert(rv == self.rows@[i as int]@);
            let ghost pre = text@;
            push_field(&mut text, row.name.province.as_str());
            push_field(&mut text, row.name.country.as_str());
            proof {
                let rf = row_fields(rv, diffs);
                assert(rf.take(2) =~= seq![rv.name.province, rv.name.country]);
                assert(rf.take(2).drop_last() =~= seq![rv.name.province]);
                assert(tabbed(Seq::<Seq<char>>::empty()) =~= Seq::<char>::empty());
                assert(seq![rv.name.province].drop_last() =~= Seq::<Seq<char>>::empty());
                assert(tabbed(seq![rv.name.province]) =~= rv.name.province + "\t"@);
                assert(text@ =~= pre + tabbed(rf.take(2)));
            }
            let dn = row.data.len();
            let mut k: usize = 0;
            let mut prev: i64 = 0;
            while k < dn
                invariant
                    k <= dn,
                    dn == row.data@.len(),
                    rv == self.rows@[i as int]@,
                    row == &self.rows@[i as int],
                    prev == (if k == 0 {
                        0int
                    } else {
                        rv.data.reverse()[k - 1] as int
                    }),
                    text@ == pre + tabbed(row_fields(rv, diffs).take(2 + k)),
                decreases dn - k,
            {
                let val = row.data[dn - 1 - k];
                let shown: i64 = if diffs {
                    val as i64 - prev
                } else {
                    val as i64
                };
                let formatted = fmt_grouped(shown);
                push_field(&mut text, formatted.as_str());
                proof {
                    let rf = row_fields(rv, diffs);
                    let dv = disp_vals(rv.data, diffs);
                    assert(rv.data.reverse()[k as int] == rv.data[dn - 1 - k as int]);
                    assert(dv[k as int] == shown as int);
                    assert(rf[2 + k as int] == fmt_int(dv[k as int]));
                    assert(rf.take(2 + k as int + 1) =~= rf.take(2 + k as int).push(
                        rf[2 + k as int],
                    ));
                    lemma_tabbed_push(rf.take(2 + k as int), rf[2 + k as int]);
                }
                prev = val as i64;
                k = k + 1;
            }
            text.append("\n");
            proof {
                let rf = row_fields(rv, diffs);
                assert(rf.take(2 + dn as int) =~= rf);
                let t1 = self@.rows.take(i as int + 1);
                assert(t1.drop_last() =~= self@.rows.take(i as int));
                assert(t1.last() == rv);
                assert(text@ =~= head_part + rows_text(t1, diffs));
            }
            i = i + 1;
        }
        proof {
            assert(self@.rows.take(self.rows@.len() as int) =~= self@.rows);
        }
        // Summary line
        let ghost body_part = head_part + rows_text(self@.rows, diffs);
        let mut summary: Vec<u32> = Vec::new();
        let mut i2: usize = 0;
        assert(summary@ =~= summary_of(self@.rows.take(0)));
        while i2 < self.rows.len()
            invariant
                i2 <= self.rows.len(),
                summary@ == summary_of(self@.rows.take(i2 as int)),
            decreases self.rows.len() - i2,
        {
            let merged = add_series(&summary, &self.rows[i2].data);
            summary = merged;
            proof {
                let t1 = self@.rows.take(i2 as int + 1);
                assert(t1.drop_last() =~= self@.rows.take(i2 as int));
                assert(t1.last() == self.rows@[i2 as int]@);
            }
            i2 = i2 + 1;
        }
        proof {
            assert(self@.rows.take(self.rows@.len() as int) =~= self@.rows);
        }
        let ghost pre_sum = text@;
        push_field(&mut text, "Summary");
        push_field(&mut text, "-------");
        proof {
            let sf = summary_fields(self@.rows);
            assert(sf.take(2) =~= seq!["Summary"@, "-------"@]);
            assert(sf.take(2).drop_last() =~= seq!["Summary"@]);
            assert(tabbed(Seq::<Seq<char>>::empty()) =~= Seq::<char>::empty());
            assert(seq!["Summary"@].drop_last() =~= Seq::<Seq<char>>::empty());
            assert(tabbed(seq!["Summary"@]) =~= "Summary"@ + "\t"@);
            assert(text@ =~= pre_sum + tabbed(sf.take(2)));
        }
        let sn = summary.len();
        let mut k2: usize = 0;
        while k2 < sn
            invariant
                k2 <= sn,
                sn == summary@.len(),
                summary@ == summary_of(self@.rows),
                pre_sum == head_part + rows_text(self@.rows, diffs),
                head_part == tabbed(header_fields(self@.header)) + "\n"@,
                text@ == pre_sum + tabbed(summary_fields(self@.rows).take(2 + k2)),
            decreases sn - k2,
        {
            let v = summary[sn - 1 - k2];
            let formatted = fmt_grouped(v as i64);
            push_field(&mut text, formatted.as_str());
            proof {
                let sf = summary_fields(self@.rows);
                let sr = summary_of(self@.rows).reverse();
                assert(sr[k2 as int] == summary@[sn - 1 - k2 as int]);
                assert(sf[2 + k2 as int] == fmt_int(sr[k2 as int] as int));
                assert(sf.take(2 + k2 as int + 1) =~= sf.take(2 + k2 as int).push(
                    sf[2 + k2 as int],
                ));
                lemma_tabbed_push(sf.take(2 + k2 as int), sf[2 + k2 as int]);
            }
            k2 = k2 + 1;
        }
        proof {
            let sf = summary_fields(self@.rows);
            assert(sf.len() == 2 + sn);
            assert(sf.take(2 + sn as int) =~= sf);
        }
        text.append("\n");
        text.append("\n");
        proof {
            assert(text@ =~= report_text(self@, diffs));
        }
        align_columns(text.as_str())
    }
}

} // verus!
