use covid19::data::{Name, Place, Row, Table};
use covid19::ingest::{read, read_us, truncate_series, IngestError};
use covid19::ops::{eval, filter, pipeline_op, Op, SortBy};

fn table(header: Vec<&str>, rows: Vec<(&str, &str, Vec<u32>)>) -> Table {
    Table {
        header: header.into_iter().map(|s| s.to_string()).collect(),
        rows: rows
            .into_iter()
            .map(|(prov, country, data)| Row {
                name: Name {
                    country: country.to_string(),
                    province: prov.to_string(),
                    city: String::new(),
                },
                data,
            })
            .collect(),
    }
}

fn same_rows(a: &Table, b: &Table) -> bool {
    a.rows.len() == b.rows.len()
        && a.rows.iter().zip(b.rows.iter()).all(|(x, y)| {
            x.name.country == y.name.country
                && x.name.province == y.name.province
                && x.name.city == y.name.city
                && x.data == y.data
        })
}

#[test]
fn monotone_row_kept_dropping_row_discarded() {
    let csv = b"p,c,la,lo,d1,d2,d3,d4\nA,X,0,0,5,5,10,8\nB,Y,0,0,1,2,3,4\n";
    let t = read(csv).unwrap();
    assert_eq!(t.rows.len(), 1);
    assert_eq!(t.rows[0].name.country, "Y");
    assert_eq!(t.rows[0].data, vec![4, 3, 2, 1]);
}

#[test]
fn truncation_cuts_at_first_zero_from_most_recent() {
    let out = truncate_series(&vec![3, 5, 0, 0]);
    assert_eq!(out, vec![3, 5]);
}

#[test]
fn truncation_through_ingestion() {
    // Oldest-first 0,0,3,5 is cumulative; reversed it is 5,3,0,0 and the
    // trailing zero run is cut.
    let csv = b"p,c,la,lo,d1,d2,d3,d4\nA,X,0,0,0,0,3,5\n";
    let t = read(csv).unwrap();
    assert_eq!(t.rows[0].data, vec![5, 3]);
}

#[test]
fn select_keeps_first_two_most_recent_columns() {
    let t = table(
        vec!["d5", "d4", "d3", "d2", "d1"],
        vec![("p", "X", vec![50, 40, 30, 20, 10])],
    );
    let r = eval(&Op::Select { start: 0, size: 2, step: 1 }, &t);
    assert_eq!(r.header, vec!["d5".to_string(), "d4".to_string()]);
    assert_eq!(r.rows[0].data, vec![50, 40]);
}

#[test]
fn select_with_stride_and_offset() {
    let t = table(vec!["a", "b", "c", "d", "e"], vec![("p", "X", vec![1, 2, 3, 4, 5])]);
    let r = eval(&Op::Select { start: 1, size: 2, step: 2 }, &t);
    assert_eq!(r.rows[0].data, vec![2, 4]);
}

#[test]
fn select_out_of_range_start_yields_empty_series() {
    let t = table(vec!["a", "b"], vec![("p", "X", vec![1, 2])]);
    let r = eval(&Op::Select { start: 9, size: 3, step: 1 }, &t);
    assert_eq!(r.rows[0].data, Vec::<u32>::new());
    assert_eq!(r.header.len(), 0);
}

#[test]
fn group_by_country_sums_elementwise() {
    let t = table(vec!["d2", "d1"], vec![("a", "X", vec![1, 2]), ("b", "X", vec![3, 4])]);
    let r = eval(&Op::GroupBy(Place::Country), &t);
    assert_eq!(r.rows.len(), 1);
    assert_eq!(r.rows[0].name.country, "X");
    assert_eq!(r.rows[0].name.province, "");
    assert_eq!(r.rows[0].data, vec![4, 6]);
}

#[test]
fn group_by_with_unequal_lengths_pads_with_zero() {
    let t = table(vec!["d3", "d2", "d1"], vec![("a", "X", vec![1, 2, 7]), ("b", "X", vec![3])]);
    let r = eval(&Op::GroupBy(Place::Country), &t);
    assert_eq!(r.rows[0].data, vec![4, 2, 7]);
}

#[test]
fn sort_by_max_then_limit_one_picks_global_max() {
    let t = table(
        vec!["d1"],
        vec![("a", "X", vec![5]), ("b", "Y", vec![9]), ("c", "Z", vec![2])],
    );
    let sorted = eval(&Op::SortBy(SortBy::Max), &t);
    let top = eval(&Op::Limit(1), &sorted);
    assert_eq!(top.rows.len(), 1);
    assert_eq!(top.rows[0].name.country, "Y");
    assert_eq!(top.rows[0].data, vec![9]);
}

#[test]
fn filter_with_empty_name_set_keeps_nothing_by_itself() {
    let t = table(vec!["d1"], vec![("a", "X", vec![1])]);
    let r = filter(&t, &Vec::new(), Place::Country);
    assert_eq!(r.rows.len(), 0);
}

#[test]
fn pipeline_with_empty_name_choice_is_identity_at_the_filter_stage() {
    let t = table(vec!["d1"], vec![("a", "X", vec![4]), ("b", "Y", vec![7])]);
    // An empty choice of countries becomes a no-op stage, so the pipeline
    // output matches the same pipeline run with every country named.
    let without = eval(&pipeline_op(1, 1, Vec::new(), true, 0, false, 10), &t);
    let with = eval(
        &pipeline_op(1, 1, vec!["X".to_string(), "Y".to_string()], true, 0, false, 10),
        &t,
    );
    assert!(same_rows(&without, &with));
    assert_eq!(without.rows.len(), 2);
}

#[test]
fn filter_keeps_matching_countries_case_sensitive() {
    let t = table(vec!["d1"], vec![("a", "X", vec![1]), ("b", "Y", vec![2])]);
    let r = filter(&t, &vec!["Y".to_string()], Place::Country);
    assert_eq!(r.rows.len(), 1);
    assert_eq!(r.rows[0].name.country, "Y");
    let none = filter(&t, &vec!["y".to_string()], Place::Country);
    assert_eq!(none.rows.len(), 0);
}

#[test]
fn greater_than_strictly_exceeds_and_drops_empty_series() {
    let t = table(
        vec!["d1"],
        vec![("a", "X", vec![5]), ("b", "Y", vec![3]), ("c", "Z", vec![])],
    );
    let r = eval(&Op::GreaterThan(3), &t);
    assert_eq!(r.rows.len(), 1);
    assert_eq!(r.rows[0].name.country, "X");
}

#[test]
fn sort_by_name_twice_equals_once() {
    let t = table(
        vec!["d1"],
        vec![("b", "Y", vec![1]), ("a", "X", vec![2]), ("c", "X", vec![3])],
    );
    let once = eval(&Op::SortBy(SortBy::Name), &t);
    let twice = eval(&Op::SortBy(SortBy::Name), &once);
    assert!(same_rows(&once, &twice));
    assert_eq!(once.rows[0].name.country, "X");
}

#[test]
fn sort_by_max_is_stable_for_ties() {
    let t = table(
        vec!["d1"],
        vec![("b", "Y", vec![5]), ("a", "X", vec![5]), ("c", "Z", vec![1])],
    );
    let r = eval(&Op::SortBy(SortBy::Max), &t);
    assert_eq!(r.rows[0].name.country, "Z");
    // The two tied rows keep their arrival order.
    assert_eq!(r.rows[1].name.country, "Y");
    assert_eq!(r.rows[2].name.country, "X");
}

#[test]
fn limit_keeps_the_last_rows() {
    let t = table(vec!["d1"], vec![("a", "X", vec![1]), ("b", "Y", vec![2]), ("c", "Z", vec![3])]);
    let r = eval(&Op::Limit(2), &t);
    assert_eq!(r.rows.len(), 2);
    assert_eq!(r.rows[0].name.country, "Y");
    assert_eq!(r.rows[1].name.country, "Z");
}

#[test]
fn combine_applies_left_then_right() {
    let t = table(vec!["d1"], vec![("a", "X", vec![1]), ("b", "Y", vec![9])]);
    let op = Op::Combine(
        Box::new(Op::GreaterThan(1)),
        Box::new(Op::Limit(1)),
    );
    let r = eval(&op, &t);
    assert_eq!(r.rows.len(), 1);
    assert_eq!(r.rows[0].name.country, "Y");
}

#[test]
fn name_splits_combined_field_at_first_comma_and_trims() {
    let n = Name::new("Beijing, Hubei", " China ");
    assert_eq!(n.city, "Beijing");
    assert_eq!(n.province, "Hubei");
    assert_eq!(n.country, "China");
    let plain = Name::new("  Hubei  ", "China");
    assert_eq!(plain.city, "");
    assert_eq!(plain.province, "Hubei");
}

#[test]
fn unparseable_cells_degrade_to_zero() {
    // "x" and an overflowing number parse as zero; "+7" parses as seven.
    let csv = b"p,c,la,lo,d1,d2,d3\nA,X,0,0,x,+7,99999999999\n";
    let t = read(csv).unwrap();
    // Oldest-first 0,7,0 is not non-decreasing, so the row is dropped.
    assert_eq!(t.rows.len(), 0);
    let csv2 = b"p,c,la,lo,d1,d2,d3\nA,X,0,0,x,+7,8\n";
    let t2 = read(csv2).unwrap();
    assert_eq!(t2.rows[0].data, vec![8, 7]);
}

#[test]
fn malformed_csv_is_refused_whole() {
    let csv = b"a,b,c\n1,2\n";
    assert!(matches!(read(csv), Err(IngestError::MalformedInput)));
    assert!(matches!(read_us(csv), Err(IngestError::MalformedInput)));
}

#[test]
fn empty_input_yields_empty_table() {
    let t = read(b"").unwrap();
    assert_eq!(t.header.len(), 0);
    assert_eq!(t.rows.len(), 0);
}

#[test]
fn rows_come_out_sorted_by_name() {
    let csv = b"p,c,la,lo,d1\nz,B,0,0,1\na,B,0,0,2\nm,A,0,0,3\n";
    let t = read(csv).unwrap();
    let names: Vec<(&str, &str)> = t
        .rows
        .iter()
        .map(|r| (r.name.country.as_str(), r.name.province.as_str()))
        .collect();
    assert_eq!(names, vec![("A", "m"), ("B", "a"), ("B", "z")]);
}

#[test]
fn us_schema_reads_county_and_state() {
    let csv = b"uid,iso2,iso3,code3,fips,admin2,state,country,lat,long,d1,d2\n\
1,US,USA,840,1,Autauga,Alabama,US,0,0,3,5\n";
    let t = read_us(csv).unwrap();
    assert_eq!(t.rows.len(), 1);
    assert_eq!(t.rows[0].name.country, "Alabama");
    assert_eq!(t.rows[0].name.province, "Autauga");
    // No sanitation: the series is only reversed.
    assert_eq!(t.rows[0].data, vec![5, 3]);
    assert_eq!(t.header, vec!["d2".to_string(), "d1".to_string()]);
}

#[test]
fn quoted_fields_survive_csv_parsing() {
    let csv = b"p,c,la,lo,d1,d2\n\"Beijing, Hubei\",China,0,0,1,2\n";
    let t = read(csv).unwrap();
    assert_eq!(t.rows[0].name.city, "Beijing");
    assert_eq!(t.rows[0].name.province, "Hubei");
    assert_eq!(t.rows[0].name.country, "China");
}

#[test]
fn end_to_end_group_sort_and_summary() {
    let csv = b"p,c,la,lo,d1,d2,d3\n\"Beijing, Hubei\",China,0,0,1,2,4\n,France,0,0,0,1,2\n";
    let t = read(csv).unwrap();
    let op = Op::Combine(
        Box::new(Op::Select { start: 0, size: 3, step: 1 }),
        Box::new(Op::Combine(
            Box::new(Op::GroupBy(Place::Country)),
            Box::new(Op::SortBy(SortBy::Max)),
        )),
    );
    let r = eval(&op, &t);
    assert_eq!(r.rows.len(), 2);
    // Ascending by most recent value: France (2) before China (4).
    assert_eq!(r.rows[0].name.country, "France");
    assert_eq!(r.rows[0].data, vec![2, 1]);
    assert_eq!(r.rows[1].name.country, "China");
    assert_eq!(r.rows[1].data, vec![4, 2, 1]);
    let report = r.render(false);
    let summary_line = report
        .lines()
        .find(|l| l.starts_with("Summary"))
        .expect("summary line");
    let fields: Vec<&str> = summary_line.split_whitespace().collect();
    // Element-wise total 6,3,1 most-recent-first, displayed oldest first.
    assert_eq!(fields, vec!["Summary", "-------", "1", "3", "6"]);
}

fn row_values(line: &str) -> Vec<i64> {
    line.split_whitespace()
        .skip(2)
        .map(|f| f.replace(',', "").parse::<i64>().unwrap())
        .collect()
}

#[test]
fn diff_display_reconstructs_series_by_running_sum() {
    let t = table(vec!["d3", "d2", "d1"], vec![("p", "X", vec![6, 3, 1])]);
    let plain = t.render(false);
    let diffed = t.render(true);
    let plain_vals = row_values(plain.lines().nth(1).unwrap());
    let diff_vals = row_values(diffed.lines().nth(1).unwrap());
    assert_eq!(plain_vals, vec![1, 3, 6]);
    assert_eq!(diff_vals, vec![1, 2, 3]);
    let mut total: i64 = 0;
    let reconstructed: Vec<i64> = diff_vals
        .iter()
        .map(|d| {
            total += d;
            total
        })
        .collect();
    assert_eq!(reconstructed, plain_vals);
}

#[test]
fn report_groups_thousands_and_expands_tabs() {
    let t = table(vec!["d1"], vec![("p", "X", vec![1234567])]);
    let report = t.render(false);
    assert!(report.contains("1,234,567"));
    // Alignment expands every tab stop into padding.
    assert!(!report.contains('\t'));
    assert!(report.ends_with("\n\n"));
}

#[test]
fn negative_diffs_render_with_minus_sign() {
    // Most-recent-first 1,3 displays oldest-first 3,1: the change is -2.
    let t = table(vec!["d2", "d1"], vec![("p", "X", vec![1, 3])]);
    let report = t.render(true);
    let vals = row_values(report.lines().nth(1).unwrap());
    assert_eq!(vals, vec![3, -2]);
}

#[test]
fn summary_is_elementwise_total_of_all_rows() {
    let t = table(
        vec!["d2", "d1"],
        vec![("a", "X", vec![1, 2]), ("b", "Y", vec![10, 20])],
    );
    let report = t.render(false);
    let summary = report.lines().find(|l| l.starts_with("Summary")).unwrap();
    assert_eq!(row_values(summary), vec![22, 11]);
}
