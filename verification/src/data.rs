//! The canonical data model: hierarchical place names, rows of unsigned
//! counts stored most-recent-first, and tables of rows under a shared header.

use crate::text::{first_comma, lemma_first_comma_bounds, lex_le, trimmed};
use crate::text::{find_comma, lemma_lex_le_antisym, lemma_lex_le_total, lemma_lex_le_trans,
    str_le, trim_copy};
use vstd::prelude::*;
use vstd::string::StrSliceExecFns;

verus! {

/// Granularity selector for projecting and grouping names.
#[derive(Clone, Copy, PartialEq, Eq, Structural)]
pub enum Place {
    Country,
    State,
    City,
}

/// A hierarchical location key; finer fields are empty when not applicable.
pub struct Name {
    pub country: String,
    pub province: String,
    pub city: String,
}

/// One place with its series of counts, most-recent-first.
pub struct Row {
    pub name: Name,
    pub data: Vec<u32>,
}

/// A header of date labels (most-recent-first) and the rows under it.
pub struct Table {
    pub header: Vec<String>,
    pub rows: Vec<Row>,
}

/// Mathematical model of a `Name`.
pub ghost struct NameV {
    pub country: Seq<char>,
    pub province: Seq<char>,
    pub city: Seq<char>,
}

/// Mathematical model of a `Row`.
pub ghost struct RowV {
    pub name: NameV,
    pub data: Seq<u32>,
}

/// Mathematical model of a `Table`.
pub ghost struct TableV {
    pub header: Seq<Seq<char>>,
    pub rows: Seq<RowV>,
}

impl View for Name {
    type V = NameV;

    open spec fn view(&self) -> NameV {
        NameV { country: self.country@, province: self.province@, city: self.city@ }
    }
}

impl View for Row {
    type V = RowV;

    open spec fn view(&self) -> RowV {
        RowV { name: self.name@, data: self.data@ }
    }
}

/// The models of a sequence of rows.
pub open spec fn rows_view(rs: Seq<Row>) -> Seq<RowV> {
    rs.map_values(|r: Row| r@)
}

impl View for Table {
    type V = TableV;

    open spec fn view(&self) -> TableV {
        TableV { header: self.header.deep_view(), rows: rows_view(self.rows@) }
    }
}

/// Table invariant: every row's series is no longer than the header, so that
/// `data[i]` always has a date `header[i]`.
pub open spec fn wf(t: TableV) -> bool {
    forall|i: int| 0 <= i < t.rows.len() ==> #[trigger] t.rows[i].data.len() <= t.header.len()
}

/// The most recent value of a series, taking an empty series as zero.
pub open spec fn first0(r: RowV) -> u32 {
    if r.data.len() == 0 {
        0u32
    } else {
        r.data[0]
    }
}

/// The name read from a source row: the combined place field is split at its
/// first comma into city and province (no comma: all of it is the province),
/// and every field is trimmed of surrounding whitespace.
pub open spec fn name_of(combined: Seq<char>, country: Seq<char>) -> NameV {
    let i = first_comma(combined);
    if i < combined.len() {
        NameV {
            country: trimmed(country),
            province: trimmed(combined.skip(i + 1)),
            city: trimmed(combined.take(i)),
        }
    } else {
        NameV { country: trimmed(country), province: trimmed(combined), city: Seq::empty() }
    }
}

/// Projection of a name to one granularity, for filter matching.
pub open spec fn get_of(n: NameV, place: Place) -> Seq<char> {
    match place {
        Place::Country => n.country,
        Place::State => n.province,
        Place::City => n.city,
    }
}

/// Coarsening of a name to one granularity: finer fields are cleared. The
/// result is the aggregation key of `GroupBy`.
pub open spec fn group_of(n: NameV, place: Place) -> NameV {
    match place {
        Place::Country => NameV { country: n.country, province: Seq::empty(), city: Seq::empty() },
        Place::State => NameV { country: n.country, province: n.province, city: Seq::empty() },
        Place::City => n,
    }
}

/// Total order on names: lexicographic by (country, province, city).
pub open spec fn name_le(a: NameV, b: NameV) -> bool {
    if a.country != b.country {
        lex_le(a.country, b.country)
    } else if a.province != b.province {
        lex_le(a.province, b.province)
    } else {
        lex_le(a.city, b.city)
    }
}

pub proof fn lemma_name_le_total(a: NameV, b: NameV)
    ensures
        name_le(a, b) || name_le(b, a),
{
    lemma_lex_le_total(a.country, b.country);
    lemma_lex_le_total(a.province, b.province);
    lemma_lex_le_total(a.city, b.city);
}

pub proof fn lemma_name_le_trans(a: NameV, b: NameV, c: NameV)
    requires
        name_le(a, b),
        name_le(b, c),
    ensures
        name_le(a, c),
{
    // On each field the order is transitive, and two fields that compare
    // `leq` both ways are equal.
    if a.country != b.country && b.country != c.country {
        lemma_lex_le_trans(a.country, b.country, c.country);
        if a.country == c.country {
            lemma_lex_le_antisym(a.country, b.country);
        }
    } else if a.country == b.country && b.country == c.country {
        if a.province != b.province && b.province != c.province {
            lemma_lex_le_trans(a.province, b.province, c.province);
            if a.province == c.province {
                lemma_lex_le_antisym(a.province, b.province);
            }
        } else if a.province == b.province && b.province == c.province {
            lemma_lex_le_trans(a.city, b.city, c.city);
        }
    }
}

impl Name {
    /// Build a name from the combined "city, province" field and the country
    /// field of a source row.
    pub fn new(province: &str, country: &str) -> (r: Name)
        ensures
            r@ == name_of(province@, country@),
    {
        proof {
            lemma_first_comma_bounds(province@);
        }
        match find_comma(province) {
            Some(i) => {
                let n = province.unicode_len();
                let city_part = province.substring_char(0, i);
                let prov_part = province.substring_char(i + 1, n);
                assert(city_part@ =~= province@.take(i as int));
                assert(prov_part@ =~= province@.skip(i as int + 1));
                Name {
                    country: trim_copy(country),
                    province: trim_copy(prov_part),
                    city: trim_copy(city_part),
                }
            },
            None => {
                Name {
                    country: trim_copy(country),
                    province: trim_copy(province),
                    city: String::new(),
                }
            },
        }
    }

    /// The field of this name at the given granularity.
    pub fn get(&self, place: Place) -> (r: &String)
        ensures
            r@ == get_of(self@, place),
    {
        match place {
            Place::Country => &self.country,
            Place::State => &self.province,
            Place::City => &self.city,
        }
    }

    /// This name coarsened to the given granularity.
    pub fn group(&self, place: Place) -> (r: Name)
        ensures
            r@ == group_of(self@, place),
    {
        match place {
            Place::Country => Name {
                country: self.country.clone(),
                province: String::new(),
                city: String::new(),
            },
            Place::State => Name {
                country: self.country.clone(),
                province: self.province.clone(),
                city: String::new(),
            },
            Place::City => self.duplicate(),
        }
    }

    /// Whether this name precedes (or equals) the other in the total order.
    pub fn le(&self, other: &Name) -> (r: bool)
        ensures
            r == name_le(self@, other@),
    {
        if !self.country.eq(&other.country) {
            str_le(self.country.as_str(), other.country.as_str())
        } else if !self.province.eq(&other.province) {
            str_le(self.province.as_str(), other.province.as_str())
        } else {
            str_le(self.city.as_str(), other.city.as_str())
        }
    }

    /// Copy a name, field for field.
    pub fn duplicate(&self) -> (r: Name)
        ensures
            r@ == self@,
    {
        Name {
            country: self.country.clone(),
            province: self.province.clone(),
            city: self.city.clone(),
        }
    }
}

/// Copy a series, element for element.
pub fn copy_series(v: &Vec<u32>) -> (r: Vec<u32>)
    ensures
        r@ == v@,
{
    let mut out: Vec<u32> = Vec::new();
    let mut i: usize = 0;
    while i < v.len()
        invariant
            i <= v.len(),
            out@ == v@.subrange(0, i as int),
        decreases v.len() - i,
    {
        out.push(v[i]);
        i = i + 1;
    }
    assert(out@ =~= v@);
    out
}

impl Row {
    /// Copy a row, field for field.
    pub fn duplicate(&self) -> (r: Row)
        ensures
            r@ == self@,
    {
        Row { name: self.name.duplicate(), data: copy_series(&self.data) }
    }
}

impl Table {
    /// Copy a table, row for row.
    pub fn duplicate(&self) -> (r: Table)
        ensures
            r@ == self@,
    {
        let mut rows: Vec<Row> = Vec::new();
        let mut i: usize = 0;
        while i < self.rows.len()
            invariant
                i <= self.rows.len(),
                rows@.len() == i,
                forall|j: int| 0 <= j < i ==> #[trigger] rows@[j]@ == self.rows@[j]@,
            decreases self.rows.len() - i,
        {
            rows.push(self.rows[i].duplicate());
            i = i + 1;
        }
        let r = Table { header: copy_header(&self.header), rows };
        proof {
            assert(rows_view(r.rows@) =~= rows_view(self.rows@));
        }
        r
    }
}

/// Copy a header, label for label.
pub fn copy_header(v: &Vec<String>) -> (r: Vec<String>)
    ensures
        r.deep_view() == v.deep_view(),
{
    let mut out: Vec<String> = Vec::new();
    let mut i: usize = 0;
    while i < v.len()
        invariant
            i <= v.len(),
            out@.len() == i,
            forall|j: int| 0 <= j < i ==> #[trigger] out@[j]@ == v@[j]@,
        decreases v.len() - i,
    {
        out.push(v[i].clone());
        i = i + 1;
    }
    assert(out.deep_view() =~= v.deep_view());
    out
}

} // verus!
