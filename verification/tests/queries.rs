//! Questions and typed queries over records.
use std::collections::BTreeMap;

use coffer::describe::{describe as describe_plan, DescribeLine, Description, Totals};
use coffer::digest::{
    digest as digest_plan, digest_across as across_plan, digest_ndjson as ndjson_plan, Digest,
};
use coffer::eval::Rng;
use coffer::groups::{GroupAggregate, GroupPlan};
use coffer::histogram::{
    bucket_aggregate as bucket_plan, bucket_aggregate_rows, count_matches_per_window as window_plan,
    Low,
};
use coffer::join::{join_aggregate as join_plan, join_group_aggregate as group_plan};
use coffer::json::Json;
use coffer::op::{value_passes, Op};
use coffer::query::{query_aggregate as query_plan, Agg, Predicate, QueryPlan, Reduction};
use coffer::subset::{pick_rows, query_subset};
use coffer::superlative::{aggregate_index, superlative_rows};
use coffer::units::scan_top_level_array_elements;

// ---------------------------------------------------------------------------
// The floating-point half
// ---------------------------------------------------------------------------

fn sum(values: &[u64]) -> f64 {
    values.iter().map(|b| f64::from_bits(*b)).sum()
}

fn mean(values: &[u64]) -> f64 {
    sum(values) / values.len() as f64
}

/// The total of a group, which starts at zero.
fn total(values: &[u64]) -> f64 {
    values.iter().fold(0.0, |a, b| a + f64::from_bits(*b))
}

fn value_of(r: &Reduction) -> f64 {
    match r {
        Reduction::Count(n) => *n as f64,
        Reduction::Sum(v) => sum(v),
        Reduction::Mean(v) => mean(v),
        Reduction::Value(b) => f64::from_bits(*b),
    }
}

struct Answer {
    display: String,
    value: f64,
    matched: Vec<usize>,
}

fn answered(plan: Option<QueryPlan>) -> Option<Answer> {
    let plan = plan?;
    let value = value_of(&plan.reduction);
    let r = plan.finish(value.to_bits(), &format!("{value}"));
    Some(Answer {
        display: r.display,
        value: f64::from_bits(r.value),
        matched: r.matched,
    })
}

fn query_aggregate(input: &[u8], predicates: &[Predicate], agg: &Agg) -> Option<Answer> {
    answered(query_plan(input, predicates, agg))
}

fn join_aggregate(
    left: &[u8],
    right: &[u8],
    left_key: &str,
    right_key: &str,
    right_where: &[Predicate],
    agg: &Agg,
) -> Option<Answer> {
    answered(join_plan(
        left,
        right,
        left_key,
        right_key,
        right_where,
        agg,
    ))
}

fn grouped(plan: Option<GroupPlan>) -> Option<GroupAggregate> {
    let plan = plan?;
    let bits: Vec<u64> = plan
        .groups
        .iter()
        .map(|g| value_of(&g.reduction).to_bits())
        .collect();
    Some(plan.finish(&bits))
}

fn num(bits: u64) -> f64 {
    f64::from_bits(bits)
}

fn join_group_aggregate(
    left: &[u8],
    right: &[u8],
    left_key: &str,
    right_key: &str,
    group_field: &str,
    agg: &Agg,
) -> Option<GroupAggregate> {
    grouped(group_plan(
        left,
        right,
        left_key,
        right_key,
        group_field,
        agg,
    ))
}

fn bucket_aggregate(input: &[u8], field: &str, width: f64, agg: &Agg) -> Option<GroupAggregate> {
    let plan = bucket_plan(input, field, width.to_bits())?;
    let lows: Vec<Option<Low>> = plan
        .values
        .iter()
        .map(|v| {
            v.map(|bits| {
                let low = (f64::from_bits(bits) / width).floor() * width + 0.0;
                Low {
                    bits: low.to_bits(),
                    key: format!("{low}"),
                }
            })
        })
        .collect();
    grouped(bucket_aggregate_rows(
        &plan.rows,
        field,
        &format!("{width}"),
        &lows,
        agg,
    ))
}

fn count_matches_per_window(text: &[u8], pattern: &str, window: usize) -> Option<GroupAggregate> {
    grouped(window_plan(text, pattern, window))
}

fn describe(input: &[u8]) -> Option<String> {
    let d: Description = describe_plan(input)?;
    let totals: Vec<Totals> = d
        .lines
        .iter()
        .map(|line| match line {
            DescribeLine::Text(_) => Totals {
                mean: String::new(),
                sum: String::new(),
            },
            DescribeLine::Numeric { values, .. } => Totals {
                mean: format!("{}", mean(values)),
                sum: format!("{}", sum(values)),
            },
        })
        .collect();
    Some(d.finish(&totals))
}

fn told(d: Option<Digest>) -> Option<String> {
    let d = d?;
    match &d {
        Digest::Line(_) => d.finish(""),
        Digest::Total {
            values, mean: true, ..
        } => d.finish(&format!("{}", mean(values))),
        Digest::Total { values, .. } => d.finish(&format!("{}", sum(values))),
        Digest::Range { low, high, .. } => d.finish(&format!("{}", num(*high) - num(*low))),
        Digest::Groups(e) => {
            let values: Vec<f64> = e
                .samples
                .iter()
                .map(|s| {
                    if e.mean {
                        total(&s.values) / s.values.len() as f64
                    } else {
                        total(&s.values)
                    }
                })
                .collect();
            let extreme = values
                .iter()
                .copied()
                .fold(f64::NAN, |a, b| if e.high { a.max(b) } else { a.min(b) });
            let winners: Vec<bool> = values
                .iter()
                .map(|v| (v - extreme).abs() <= f64::EPSILON * v.abs().max(1.0))
                .collect();
            Some(e.finish(&winners, &format!("{extreme}")))
        }
    }
}

fn digest(input: &[u8], query: &str) -> Option<String> {
    told(digest_plan(input, query))
}

fn digest_across(inputs: &[&[u8]], query: &str) -> Option<String> {
    told(across_plan(inputs, query))
}

fn digest_ndjson(input: &[u8], query: &str) -> Option<String> {
    told(ndjson_plan(input, query))
}

fn number(field: &str, op: Op, value: i64) -> Predicate {
    Predicate {
        field: field.to_string(),
        op,
        value: Json::number(value),
    }
}

fn text(field: &str, op: Op, value: &str) -> Predicate {
    Predicate {
        field: field.to_string(),
        op,
        value: Json::text(value),
    }
}

fn array(rows: &[String]) -> Vec<u8> {
    format!("[{}]", rows.join(",")).into_bytes()
}

// ---------------------------------------------------------------------------
// Superlatives
// ---------------------------------------------------------------------------

#[test]
fn argmax_over_value_finds_the_record() {
    // The no_handle shape: fillers + one record with a huge value.
    let mut s = String::from("[");
    for i in 0..50 {
        if i > 0 {
            s.push(',');
        }
        s.push_str(&format!(r#"{{"name":"item-{i}","value":{i}}}"#));
    }
    s.push_str(r#",{"name":"item-99","value":1000000000}]"#);
    let idx = aggregate_index(
        s.as_bytes(),
        "Return the name of the record with the largest value.",
    )
    .expect("index");
    assert!(idx.contains("item-99"), "got: {idx}");
    assert!(idx.contains("1000000000"));
}

#[test]
fn smallest_works_and_non_superlative_returns_none() {
    let input = br#"[{"name":"a","value":5},{"name":"b","value":2},{"name":"c","value":9}]"#;
    let idx = aggregate_index(input, "which record has the smallest value?").unwrap();
    assert!(idx.contains('b'), "got: {idx}");
    assert!(aggregate_index(input, "what is the token of record a").is_none());
}

#[test]
fn reports_ties_instead_of_silently_breaking_them() {
    // Two records share the max value 10 — no UNIQUE argmax exists, so report the tie
    // rather than arbitrarily naming one (a confident answer to an ambiguous question).
    let x = br#"[{"name":"a","value":3},{"name":"b","value":10},{"name":"c","value":10},{"name":"d","value":1}]"#;
    let s = aggregate_index(x, "which record has the largest value?").unwrap();
    assert!(s.contains("TIE"), "got: {s}");
    assert!(s.contains("\"b\"") && s.contains("\"c\""), "tied ids: {s}");
    assert!(!s.contains("\"a\""), "non-winners must not appear: {s}");

    // GROUP-BY tie: status=ok sum 5+5=10, status=err sum 4+6=10 → both groups tie.
    let g = br#"[{"name":"a","value":5,"status":"ok"},{"name":"b","value":5,"status":"ok"},{"name":"c","value":4,"status":"err"},{"name":"d","value":6,"status":"err"}]"#;
    let gd = digest(g, "which status has the highest total value?").unwrap();
    assert!(gd.contains("TIE"), "got: {gd}");
    assert!(gd.contains("\"err\"") && gd.contains("\"ok\""), "got: {gd}");
    // Determinism: the tie renders identically across runs (sorted, not HashMap order).
    for _ in 0..8 {
        assert_eq!(
            digest(g, "which status has the highest total value?").unwrap(),
            gd
        );
    }

    // A clean unique extreme still renders the single-winner format (no regression).
    let uniq = br#"[{"name":"a","value":3},{"name":"b","value":10},{"name":"c","value":1}]"#;
    let u = aggregate_index(uniq, "which record has the largest value?").unwrap();
    assert!(u.contains("name=\"b\"") && !u.contains("TIE"), "got: {u}");
}

#[test]
fn superlative_rows_returns_backing_record_indices() {
    // provenance: the answer points to the exact record index, so it is byte-auditable.
    let x = br#"[{"name":"a","value":5},{"name":"b","value":10},{"name":"c","value":3}]"#;
    let (line, rows) = superlative_rows(x, "which record has the largest value?").unwrap();
    assert!(line.contains("name=\"b\""), "got: {line}");
    assert_eq!(rows, vec![1], "b is at index 1");
    // a tie returns ALL backing indices.
    let t = br#"[{"name":"a","value":10},{"name":"b","value":3},{"name":"c","value":10}]"#;
    let (line, rows) = superlative_rows(t, "the largest value?").unwrap();
    assert!(line.contains("TIE"), "got: {line}");
    assert_eq!(rows, vec![0, 2], "a and c tie at 10");
    // non-superlative intent → None (no fabricated provenance).
    assert!(superlative_rows(x, "what is the capital of France").is_none());
}

#[test]
fn superlative_rows_provenance_is_exactly_the_argmax_set() {
    let mut rng = Rng::new(7);
    for round in 0..60u64 {
        let n = 1 + rng.below(23) as usize;
        let values: Vec<i64> = (0..n)
            .map(|_| {
                if round % 2 == 0 {
                    rng.below(10) as i64 - 5
                } else {
                    rng.next() as i64
                }
            })
            .collect();
        let rows: Vec<String> = values
            .iter()
            .enumerate()
            .map(|(i, v)| format!(r#"{{"name":"n{i}","value":{v}}}"#))
            .collect();
        let input = array(&rows);
        for (query, extreme, dir) in [
            (
                "which record has the largest value?",
                *values.iter().max().unwrap(),
                "max",
            ),
            (
                "which record has the smallest value?",
                *values.iter().min().unwrap(),
                "min",
            ),
        ] {
            let (line, found) = superlative_rows(&input, query).unwrap();
            assert!(line.contains(dir), "{line}");
            let want: Vec<usize> = (0..n).filter(|i| values[*i] == extreme).collect();
            assert_eq!(found, want);
        }
    }
}

// ---------------------------------------------------------------------------
// Questions
// ---------------------------------------------------------------------------

fn fixture() -> Vec<u8> {
    // 6 records: value sums to 5+2+9+4+10+1 = 31; status distinct = {ok, error} (2);
    // status=error appears 2×.
    br#"[
          {"name":"a","value":5,"status":"ok"},
          {"name":"b","value":2,"status":"error"},
          {"name":"c","value":9,"status":"ok"},
          {"name":"d","value":4,"status":"ok"},
          {"name":"e","value":10,"status":"error"},
          {"name":"f","value":1,"status":"ok"}
        ]"#
    .to_vec()
}

#[test]
fn digest_count_sum_distinct_group_are_exact() {
    let x = fixture();
    assert!(digest(&x, "How many records are there in the array?")
        .unwrap()
        .contains("= 6"));
    assert!(digest(&x, "What is the sum of the value field?")
        .unwrap()
        .contains("= 31"));
    assert!(digest(&x, "What is the average of the value field?")
        .unwrap()
        .contains("5.16"));
    assert!(digest(&x, "How many distinct status values are there?")
        .unwrap()
        .contains("= 2 values"));
    let g = digest(&x, "How many records have status error?").unwrap();
    assert!(g.contains("error") && g.contains("= 2"), "got: {g}");
}

#[test]
fn digest_refuses_unsupported_and_superlative_delegates() {
    let x = fixture();
    // unsupported intent → None (no fabrication)
    assert!(digest(&x, "what is the capital of France").is_none());
    // superlative still works via aggregate_index
    assert!(digest(&x, "which record has the largest value?")
        .unwrap()
        .contains("max(value)"));
}

#[test]
fn digest_filter_aggregate_and_group_extreme() {
    // fixture: ok={5,9,4,1} sum19 mean4.75; error={2,10} sum12 mean6.
    let x = fixture();
    assert!(
        digest(
            &x,
            "what is the sum of the value field where status is error?"
        )
        .unwrap()
        .contains("= 12"),
        "{:?}",
        digest(
            &x,
            "what is the sum of the value field where status is error?"
        )
    );
    assert!(
        digest(&x, "which status has the highest total value?")
            .unwrap()
            .contains("\"ok\""),
        "{:?}",
        digest(&x, "which status has the highest total value?")
    );
    assert!(digest(&x, "which status has the highest average value?")
        .unwrap()
        .contains("\"error\""));
    // a record-level superlative is NOT mistaken for a group query
    assert!(digest(&x, "which record has the largest value?")
        .unwrap()
        .contains("name="));
    // group-by ignores the id field even if "name" is mentioned — picks the real category.
    assert!(digest(
        &x,
        "across each name, which status has the highest total value?"
    )
    .unwrap()
    .contains("by status"));
    // unfiltered sum still works
    assert!(digest(&x, "what is the sum of the value field?")
        .unwrap()
        .contains("= 31"));
}

#[test]
fn digest_lines_are_worded_exactly() {
    let x = fixture();
    let said = |q: &str| digest(&x, q).unwrap();
    assert_eq!(
        said("what is the sum of the value field where status is error?"),
        "[index] sum(value where status=error) over 2 records = 12"
    );
    assert_eq!(
        said("what is the mean of the value field?"),
        "[index] mean(value) over 6 records = 5.166666666666667"
    );
    assert_eq!(
        said("How many records have status error?"),
        "[index] count(status=\"error\") over 6 records = 2"
    );
    assert_eq!(
        said("How many distinct status values are there?"),
        "[index] distinct(status) over 6 records = 2 values"
    );
    assert_eq!(
        said("what is the range of the value field?"),
        "[index] range(value) over 6 records = 9 (min 1, max 10)"
    );
    assert_eq!(
        said("what is the p95 of the value field?"),
        "[index] p95(value) over 6 records = 10"
    );
    assert_eq!(
        said("how many records have value greater than 4?"),
        "[index] count(value > 4) over 6 records = 3"
    );
}

#[test]
fn digest_percentile_range_threshold_are_exact() {
    // values 1..=10 (sorted): median=5 (nearest-rank ceil(0.5*10)=5 → idx4 → 5);
    // p90 → ceil(0.9*10)=9 → idx8 → 9; range = 9 (10-1); count(value > 7) = 3 (8,9,10).
    let mut s = String::from("[");
    for i in 1..=10 {
        if i > 1 {
            s.push(',');
        }
        s.push_str(&format!(r#"{{"name":"r{i}","value":{i}}}"#));
    }
    s.push(']');
    let x = s.as_bytes();
    assert!(
        digest(x, "what is the median value field?")
            .unwrap()
            .contains("median(value) over 10 records = 5"),
        "{:?}",
        digest(x, "what is the median value field?")
    );
    assert!(digest(x, "what is the p90 of the value field?")
        .unwrap()
        .contains("= 9"));
    assert!(digest(x, "what is the range of the value field?")
        .unwrap()
        .contains("range(value) over 10 records = 9"));
    assert!(digest(x, "how many records have value greater than 7?")
        .unwrap()
        .contains("= 3"));
    assert!(digest(x, "how many records have value at least 9?")
        .unwrap()
        .contains("= 2"));
}

#[test]
fn percentiles_grow_with_the_percent() {
    let mut rng = Rng::new(3);
    let values: Vec<u64> = (0..37).map(|_| rng.below(1000)).collect();
    let rows: Vec<String> = values
        .iter()
        .map(|v| format!(r#"{{"value":{v}}}"#))
        .collect();
    let input = array(&rows);
    let mut sorted = values.clone();
    sorted.sort_unstable();
    for p in 1..=99usize {
        let want = sorted[(p * 37).div_ceil(100) - 1];
        let got = digest(&input, &format!("what is the p{p} of the value field?")).unwrap();
        assert!(got.ends_with(&format!("= {want}")), "{p}: {got}");
    }
}

#[test]
fn digest_across_aggregates_the_union_of_payloads() {
    // two separate JSON-array handles; answers are emergent over their UNION.
    let a: &[u8] =
        br#"[{"name":"a","value":5,"status":"ok"},{"name":"b","value":2,"status":"error"}]"#;
    let b: &[u8] =
        br#"[{"name":"c","value":10,"status":"error"},{"name":"d","value":1,"status":"ok"}]"#;
    // union values 5,2,10,1 → sum 18; status=error {2,10} count 2; max value = c (10).
    assert!(
        digest_across(&[a, b], "what is the sum of the value field?")
            .unwrap()
            .contains("= 18")
    );
    assert!(
        digest_across(&[a, b], "how many records have status error?")
            .unwrap()
            .contains("= 2")
    );
    assert!(
        digest_across(&[a, b], "which record has the largest value?")
            .unwrap()
            .contains("name=\"c\"")
    );
    // a single handle matches digest() exactly.
    assert_eq!(
        digest_across(&[a], "what is the sum of the value field?"),
        digest(a, "what is the sum of the value field?")
    );
    // nothing usable → None (never fabricates).
    assert!(digest_across(&[b"not json", b"{}"], "how many records are there").is_none());
}

#[test]
fn digest_across_matches_brute_force_reference() {
    let mut rng = Rng::new(11);
    for _ in 0..30 {
        let mut parts: Vec<Vec<u8>> = Vec::new();
        let mut all: Vec<(String, i64)> = Vec::new();
        for _ in 0..rng.below(6) {
            let mut rows: Vec<String> = Vec::new();
            for _ in 0..rng.below(8) {
                let name = format!("n{}", all.len());
                let value = rng.below(20_000_001) as i64 - 10_000_000;
                rows.push(format!(r#"{{"name":"{name}","value":{value}}}"#));
                all.push((name, value));
            }
            parts.push(array(&rows));
        }
        let refs: Vec<&[u8]> = parts.iter().map(Vec::as_slice).collect();
        let count = digest_across(&refs, "how many records are there?");
        let total = digest_across(&refs, "what is the sum of the value field?");
        if all.is_empty() {
            assert!(count.is_none() && total.is_none());
            continue;
        }
        let wanted: i64 = all.iter().map(|(_, v)| *v).sum();
        assert!(count.unwrap().contains(&format!("= {}", all.len())));
        assert!(total.unwrap().contains(&format!("= {wanted}")));
        let most = all.iter().map(|(_, v)| *v).max().unwrap();
        for part in &refs {
            if *part != b"[]" {
                let q = "what is the sum of the value field?";
                assert_eq!(digest_across(&[*part], q), digest(part, q));
            }
        }
        let winners: Vec<&String> = all.iter().filter(|(_, v)| *v == most).map(|(n, _)| n).collect();
        let found = digest_across(&refs, "which record has the largest value?").unwrap();
        assert!(
            found.contains(&format!("value={most}")) || found.contains(&format!("= {most}")),
            "argmax value ref={most}, got: {found}"
        );
        if winners.len() == 1 {
            assert!(found.contains(&format!("name=\"{}\"", winners[0])), "{found}");
        } else {
            assert!(found.contains("TIE"), "{found}");
        }
    }
}

#[test]
fn digest_ndjson_aggregates_line_delimited_json() {
    let nd = b"{\"name\":\"a\",\"value\":5,\"status\":\"ok\"}\n{\"name\":\"b\",\"value\":2,\"status\":\"error\"}\n{\"name\":\"c\",\"value\":10,\"status\":\"error\"}\n";
    // values 5,2,10 → sum 17; status=error {2,10} count 2; max value = c.
    assert!(digest_ndjson(nd, "what is the sum of the value field?")
        .unwrap()
        .contains("= 17"));
    assert!(digest_ndjson(nd, "how many records have status error?")
        .unwrap()
        .contains("= 2"));
    assert!(digest_ndjson(nd, "which record has the largest value?")
        .unwrap()
        .contains("name=\"c\""));
    // blank lines tolerated.
    assert!(
        digest_ndjson(b"{\"v\":1}\n\n{\"v\":2}\n", "how many records are there")
            .unwrap()
            .contains("= 2")
    );
    // prose is not NDJSON → None (no fabrication over a coincidental subset).
    assert!(digest_ndjson(
        b"hello world\nthis is prose\nnot json\n",
        "how many records"
    )
    .is_none());
}

#[test]
fn what_was_read_is_read_again_among_other_records() {
    let a: &[u8] = br#"[{"v":1E2,"s":"tab\there"},{"v":-0},{"v":1.50}]"#;
    let b: &[u8] = "[{\"v\":12345678901234567890123,\"s\":\"na\u{ef}ve \\u0001\"},[[[]]],7]".as_bytes();
    let joined: &[u8] = "[{\"v\":1E2,\"s\":\"tab\\there\"},{\"v\":-0},{\"v\":1.50},{\"v\":12345678901234567890123,\"s\":\"na\u{ef}ve \\u0001\"},[[[]]],7]".as_bytes();
    for q in [
        "sum of v",
        "what is the largest v?",
        "median of v",
        "how many records are there?",
    ] {
        let across = digest_across(&[a, b], q);
        assert!(across.is_some(), "{q}");
        assert_eq!(across, digest(joined, q), "{q}");
    }
}

#[test]
fn ndjson_values_nest_as_deep_as_an_array_of_them_is_read() {
    let deep = |n: usize| format!("{}{}", "[".repeat(n), "]".repeat(n));
    let lines = |n: usize| format!("{{\"v\":1}}\n{{\"v\":2}}\n{}\n", deep(n));
    let q = "how many records are there?";
    assert!(Json::parse(deep(127).as_bytes()).is_some());
    assert!(Json::parse(deep(128).as_bytes()).is_none());
    assert_eq!(
        digest_ndjson(lines(126).as_bytes(), q).as_deref(),
        Some("[index] count over 3 records = 3")
    );
    assert_eq!(digest_ndjson(lines(127).as_bytes(), q), None);
}

#[test]
fn ndjson_eighty_percent_boundary() {
    let mut rng = Rng::new(17);
    for j in 1..20usize {
        for p in 0..20usize {
            let base = rng.below(2000) as i64 - 1000;
            let mut s = String::new();
            for i in 0..j {
                s.push_str(&format!(
                    "{{\"name\":\"r{i}\",\"value\":{}}}\n",
                    base + i as i64
                ));
            }
            for k in 0..p {
                s.push_str(&format!("this is prose line {k}, not json at all\n"));
            }
            let got = digest_ndjson(s.as_bytes(), "how many records are there?");
            if j * 5 >= (j + p) * 4 {
                assert!(got.unwrap().contains(&format!("= {j}")));
            } else {
                assert!(got.is_none(), "{j} {p}");
            }
        }
    }
}

#[test]
fn ndjson_aggregates_match_brute_force_reference() {
    const STATUS: [&str; 3] = ["ok", "warn", "error"];
    let mut rng = Rng::new(23);
    for _ in 0..200 {
        let recs: Vec<(i64, usize)> = (0..1 + rng.below(23))
            .map(|_| {
                (
                    rng.below(2_000_001) as i64 - 1_000_000,
                    rng.below(3) as usize,
                )
            })
            .collect();
        let mut s = String::new();
        for (i, (value, st)) in recs.iter().enumerate() {
            if rng.below(2) == 0 {
                s.push('\n');
            }
            s.push_str(&format!(
                "{{\"name\":\"item-{i}\",\"value\":{value},\"status\":\"{}\"}}\n",
                STATUS[*st]
            ));
        }
        let nd = s.into_bytes();
        let n = recs.len();
        let ref_sum: i64 = recs.iter().map(|(v, _)| *v).sum();
        let ref_max: i64 = recs.iter().map(|(v, _)| *v).max().unwrap();
        let winners: Vec<usize> = (0..n).filter(|i| recs[*i].0 == ref_max).collect();
        let ref_err_count = recs.iter().filter(|(_, st)| STATUS[*st] == "error").count();

        let c = digest_ndjson(&nd, "how many records are there?").unwrap();
        assert!(c.contains(&format!("= {n}")), "{c}");

        let sum_line = digest_ndjson(&nd, "what is the sum of the value field?").unwrap();
        assert!(
            sum_line.contains(&format!("= {}", ref_sum as f64)),
            "{sum_line}"
        );

        let argmax = digest_ndjson(&nd, "which record has the largest value?").unwrap();
        if winners.len() == 1 {
            let w = format!("name=\"item-{}\"", winners[0]);
            assert!(argmax.contains(&w), "{argmax}");
        } else {
            assert!(argmax.contains("TIE"), "{argmax}");
            for i in &winners {
                assert!(argmax.contains(&format!("\"item-{i}\"")), "{argmax}");
            }
        }

        if ref_err_count > 0 {
            let g = digest_ndjson(&nd, "how many records have status error?").unwrap();
            assert!(
                g.contains("count(status=\"error\")")
                    && g.contains(&format!("= {ref_err_count}")),
                "{g}"
            );
        }

        let wrong = (ref_sum + 1) as f64;
        assert!(!sum_line.contains(&format!("= {wrong}")), "{sum_line}");
    }
}

#[test]
fn prose_only_is_never_ndjson() {
    let letters: Vec<char> = "abcdefghijklmnopqrstuvwxyz".chars().collect();
    let mut rng = Rng::new(29);
    for _ in 0..200 {
        let mut s = String::new();
        for _ in 0..1 + rng.below(11) {
            s.push(letters[rng.below(26) as usize]);
            for _ in 0..rng.below(41) {
                s.push(if rng.below(6) == 0 {
                    ' '
                } else {
                    letters[rng.below(26) as usize]
                });
            }
            s.push('\n');
        }
        assert!(
            digest_ndjson(s.as_bytes(), "how many records are there?").is_none(),
            "{s:?}"
        );
    }
}

#[test]
fn multi_column_group_by_composes_named_categories() {
    // status × region totals: us+ok=5, eu+ok=3, us+err=10, eu+err=2 → max is (us, err)=10.
    let x = br#"[
          {"name":"a","value":5,"status":"ok","region":"us"},
          {"name":"b","value":3,"status":"ok","region":"eu"},
          {"name":"c","value":10,"status":"err","region":"us"},
          {"name":"d","value":2,"status":"err","region":"eu"}
        ]"#;
    let d = digest(x, "which status and region has the highest total value?").unwrap();
    assert!(d.contains("by region,status"), "composite key fields: {d}");
    assert!(
        d.contains("us") && d.contains("err") && d.contains("10"),
        "winner group + total: {d}"
    );
    // determinism across runs (composite key is order-stable, not HashMap-order dependent).
    for _ in 0..8 {
        assert_eq!(
            digest(x, "which status and region has the highest total value?").unwrap(),
            d
        );
    }
    // naming ONE category still groups by one — no regression to the single-column path.
    let one = digest(x, "which status has the highest total value?").unwrap();
    assert!(
        one.contains("by status") && !one.contains("region"),
        "single column: {one}"
    );
}

#[test]
fn a_group_of_negative_zeros_totals_zero() {
    let x = br#"[{"s":"a","v":-0.0},{"s":"a","v":-0.0},{"s":"b","v":-3}]"#;
    assert_eq!(
        digest(x, "which s has the highest total v?").as_deref(),
        Some("[index] max sum(v) by s = \"a\" (0)")
    );
}

#[test]
fn digest_edge_cases_never_panic() {
    // empty / non-array / non-JSON / single-record / empty-object — all must be graceful None
    // or a correct value, never a panic.
    assert!(digest(b"[]", "how many records").is_none());
    assert!(digest(b"{}", "how many records").is_none());
    assert!(digest(b"not json", "how many records").is_none());
    assert!(digest(b"[1,2,3]", "what is the sum of the value field").is_none()); // not objects
    assert!(
        digest(br#"[{"name":"a","value":7}]"#, "how many records are there")
            .unwrap()
            .contains("= 1")
    );
    assert!(digest(br#"[{"x":1}]"#, "how many distinct status values").is_none()); // no such field
}

#[test]
fn refuses_mixed_type_field_instead_of_fabricating() {
    // the true max is STRING-encoded — the falsification case. We must REFUSE, not skip it
    // and report a wrong numeric max (was: a confident falsehood with no recovery).
    let mixed =
        br#"[{"name":"a","value":5},{"name":"b","value":"9999999999"},{"name":"c","value":3}]"#;
    assert!(aggregate_index(mixed, "which record has the largest value?").is_none());
    assert!(digest(mixed, "what is the sum of the value field?").is_none());
    // a clean numeric field still works.
    let clean = br#"[{"name":"a","value":5},{"name":"b","value":10},{"name":"c","value":3}]"#;
    assert!(digest(clean, "what is the sum of the value field?")
        .unwrap()
        .contains("= 18"));
}

#[test]
fn refuses_out_of_f64_range_number_instead_of_fabricating() {
    // `arbitrary_precision` keeps 1e400 as a JSON *number* (is_number()==true) whose `as_f64()`
    // is None. Silently dropping it would report a max/sum over the surviving subset under an
    // all-records label — exactly the fabrication this module promises not to do.
    let oob = br#"[{"name":"a","value":1},{"name":"b","value":1e400},{"name":"c","value":3}]"#;
    assert!(aggregate_index(oob, "which record has the largest value?").is_none());
    assert!(digest(oob, "what is the sum of the value field?").is_none());
    assert!(digest(oob, "what is the max of the value field?").is_none());
    // in-f64-range values are still accepted — the guard must not over-refuse.
    let ok = br#"[{"name":"a","value":5},{"name":"b","value":10},{"name":"c","value":3}]"#;
    assert!(digest(ok, "what is the sum of the value field?")
        .unwrap()
        .contains("= 18"));
}

/// FALSIFICATION control: the correct reference matches `digest_across`, but an off-by-one
/// reference (sum+1 / count+1 / max+1) does NOT.
#[test]
fn off_by_one_reference_would_fail() {
    let a = br#"[{"name":"a","value":5},{"name":"b","value":2}]"#;
    let b = br#"[{"name":"c","value":10},{"name":"d","value":1}]"#;
    let parts: &[&[u8]] = &[a, b];
    let sum_out = digest_across(parts, "what is the sum of the value field?").unwrap();
    assert!(sum_out.contains("= 18"), "true sum is 18: {sum_out}");
    let count_out = digest_across(parts, "how many records are there?").unwrap();
    assert!(count_out.contains("= 4"), "true count is 4: {count_out}");
    let max_out = digest_across(parts, "which record has the largest value?").unwrap();
    assert!(max_out.contains("name=\"c\"") && max_out.contains("value=10"));
    assert!(
        !sum_out.contains("= 19"),
        "off-by-one sum must not match: {sum_out}"
    );
    assert!(
        !count_out.contains("= 5"),
        "off-by-one count must not match: {count_out}"
    );
    assert!(
        !max_out.contains("value=11"),
        "off-by-one max must not match: {max_out}"
    );
}

// ---------------------------------------------------------------------------
// Groups
// ---------------------------------------------------------------------------

#[test]
fn join_group_aggregate_groups_by_right_attribute_and_refuses_ambiguous() {
    let customers = br#"[{"id":1,"region":"us"},{"id":2,"region":"eu"},{"id":3,"region":"us"}]"#;
    let orders =
        br#"[{"cid":1,"amt":100},{"cid":2,"amt":50},{"cid":3,"amt":30},{"cid":1,"amt":20}]"#;
    let r = join_group_aggregate(
        orders,
        customers,
        "cid",
        "id",
        "region",
        &Agg::Sum("amt".into()),
    )
    .unwrap();
    // eu: cid 2 -> 50 ; us: cid 1,3,1 -> 100+30+20 = 150. Ordered by key ("eu" < "us").
    assert_eq!(r.groups.len(), 2);
    assert_eq!(r.groups[0].key, "\"eu\"");
    assert_eq!(num(r.groups[0].value) as i64, 50);
    assert_eq!(r.groups[1].key, "\"us\"");
    assert_eq!(num(r.groups[1].value) as i64, 150);
    assert_eq!(r.groups[1].matched, vec![0, 2, 3]);

    // an ambiguous key (id 1 maps to two different regions) refuses rather than guessing.
    let ambiguous = br#"[{"id":1,"region":"us"},{"id":1,"region":"eu"}]"#;
    assert!(join_group_aggregate(orders, ambiguous, "cid", "id", "region", &Agg::Count).is_none());
}

#[test]
fn bucket_aggregate_histograms_a_numeric_field() {
    let input = br#"[{"v":5},{"v":15},{"v":25},{"v":105},{"v":12}]"#;
    // width 10: bucket 0 -> {5} , 10 -> {15,12}, 20 -> {25}, 100 -> {105}
    let r = bucket_aggregate(input, "v", 10.0, &Agg::Count).unwrap();
    assert_eq!(r.groups.len(), 4);
    assert_eq!(r.groups[0].key, "0");
    assert_eq!(num(r.groups[0].value) as i64, 1);
    assert_eq!(r.groups[1].key, "10");
    assert_eq!(num(r.groups[1].value) as i64, 2);
    assert_eq!(r.groups[1].matched, vec![1, 4]);
    assert_eq!(r.groups[3].key, "100");
    assert_eq!(r.display, "[index] count bucketed by v width 10 -> 4 buckets");
    // width <= 0 refuses; a non-numeric bucket field refuses.
    assert!(bucket_aggregate(input, "v", 0.0, &Agg::Count).is_none());
    assert!(bucket_aggregate(br#"[{"v":"x"}]"#, "v", 10.0, &Agg::Count).is_none());
}

#[test]
fn bucket_aggregate_signed_zero_is_one_bucket() {
    // Regression: a JSON `-0.0` (and any tiny-negative value whose quotient underflows to -0.0)
    // must NOT split the zero bucket into "0" and "-0". Both belong to a single "0" bucket.
    let r = bucket_aggregate(br#"[{"v":0},{"v":-0.0},{"v":5}]"#, "v", 10.0, &Agg::Count).unwrap();
    assert_eq!(r.groups.len(), 1);
    assert_eq!(r.groups[0].key, "0");
    assert_eq!(num(r.groups[0].value) as i64, 3);
    // underflow path: -1e-300 / 1e300 floors to a -0.0 lower bound; still the single "0" bucket.
    let u = bucket_aggregate(br#"[{"v":1e-300},{"v":-1e-300}]"#, "v", 1e300, &Agg::Count).unwrap();
    assert_eq!(u.groups.len(), 1);
    assert_eq!(u.groups[0].key, "0");
}

#[test]
fn bucket_aggregate_matches_brute_force() {
    let mut rng = Rng::new(5);
    for _ in 0..40 {
        let n = 1 + rng.below(29) as usize;
        let vs: Vec<i64> = (0..n).map(|_| rng.below(1000) as i64 - 500).collect();
        let width = 1 + rng.below(49) as i64;
        let rows: Vec<String> = vs.iter().map(|v| format!(r#"{{"v":{v}}}"#)).collect();
        let r = bucket_aggregate(&array(&rows), "v", width as f64, &Agg::Count).unwrap();
        let mut want: std::collections::BTreeMap<i64, i64> = std::collections::BTreeMap::new();
        for v in &vs {
            *want.entry(v.div_euclid(width) * width).or_default() += 1;
        }
        let got: Vec<(i64, i64)> = r
            .groups
            .iter()
            .map(|g| (g.key.parse::<f64>().unwrap() as i64, num(g.value) as i64))
            .collect();
        assert_eq!(got, want.into_iter().collect::<Vec<_>>());
        let total: usize = r.groups.iter().map(|g| g.matched.len()).sum();
        assert_eq!(total, vs.len());
    }
}

#[test]
fn join_group_aggregate_single_group_equals_semi_join() {
    // Cross-invariant: when every right row shares ONE group value, the lone group's aggregate
    // equals the semi-join aggregate (join_aggregate) over the same left/right/keys.
    let right = br#"[{"id":1,"region":"us"},{"id":2,"region":"us"},{"id":3,"region":"us"}]"#;
    let left = br#"[{"cid":1,"amt":100},{"cid":2,"amt":50},{"cid":9,"amt":999}]"#;
    let grouped =
        join_group_aggregate(left, right, "cid", "id", "region", &Agg::Sum("amt".into())).unwrap();
    assert_eq!(grouped.groups.len(), 1);
    let semi = join_aggregate(left, right, "cid", "id", &[], &Agg::Sum("amt".into())).unwrap();
    // cid 9 has no right match → excluded by both; us group = 100 + 50 = 150.
    assert_eq!(num(grouped.groups[0].value) as i64, semi.value as i64);
    assert_eq!(num(grouped.groups[0].value) as i64, 150);
}

#[test]
fn join_group_aggregate_one_to_many_same_group_does_not_refuse() {
    // A join key appearing on MULTIPLE right rows with the SAME group value is not ambiguous.
    let right = br#"[{"id":1,"region":"us"},{"id":1,"region":"us"}]"#;
    let left = br#"[{"cid":1,"amt":100},{"cid":1,"amt":40}]"#;
    let r =
        join_group_aggregate(left, right, "cid", "id", "region", &Agg::Sum("amt".into())).unwrap();
    assert_eq!(r.groups.len(), 1);
    assert_eq!(num(r.groups[0].value) as i64, 140); // each LEFT row counted once
    assert_eq!(r.groups[0].matched, vec![0, 1]);
}

#[test]
fn join_group_aggregate_matches_brute_force() {
    const REGION: [&str; 3] = ["us", "eu", "ap"];
    let mut rng = Rng::new(9);
    for _ in 0..40 {
        let n = 1 + rng.below(11) as usize;
        let regions: Vec<usize> = (0..n).map(|_| rng.below(3) as usize).collect();
        let lefts: Vec<(usize, i64)> = (0..1 + rng.below(24))
            .map(|_| (rng.below(n as u64) as usize, rng.below(1000) as i64))
            .collect();
        let right: Vec<String> = regions
            .iter()
            .enumerate()
            .map(|(i, r)| format!(r#"{{"id":{i},"region":"{}"}}"#, REGION[*r]))
            .collect();
        let left: Vec<String> = lefts
            .iter()
            .map(|(cid, amt)| format!(r#"{{"cid":{cid},"amt":{amt}}}"#))
            .collect();
        let mut want: std::collections::BTreeMap<String, i64> = std::collections::BTreeMap::new();
        for (cid, amt) in &lefts {
            *want
                .entry(format!("\"{}\"", REGION[regions[*cid]]))
                .or_default() += amt;
        }
        let got = join_group_aggregate(
            &array(&left),
            &array(&right),
            "cid",
            "id",
            "region",
            &Agg::Sum("amt".into()),
        )
        .unwrap();
        let got: Vec<(String, i64)> = got
            .groups
            .iter()
            .map(|g| (g.key.clone(), num(g.value) as i64))
            .collect();
        assert_eq!(got, want.into_iter().collect::<Vec<_>>());
    }
}

#[test]
fn describe_summarizes_records_generically() {
    let input = br#"[{"a":10,"status":"ok"},{"a":20,"status":"error"},{"a":30,"status":"error"},{"a":40,"status":"error"}]"#;
    let d = describe(input).unwrap();
    assert!(d.contains("4 records"), "{d}");
    // numeric field a: exact stats, no per-tool code.
    assert!(
        d.contains("sum=100") && d.contains("min=10") && d.contains("max=40"),
        "{d}"
    );
    // categorical status: count-by-value, most frequent first (error:3 before ok:1).
    let s = d.lines().find(|l| l.contains("status:")).unwrap();
    assert!(s.contains(r#""error":3"#) && s.contains(r#""ok":1"#), "{s}");
    assert!(
        s.find(r#""error":3"#).unwrap() < s.find(r#""ok":1"#).unwrap(),
        "most-frequent first: {s}"
    );
    // non-array / non-record inputs are refused.
    assert!(describe(b"{\"a\":1}").is_none());
    assert!(describe(b"[1,2,3]").is_none());
}

#[test]
fn describe_counts_and_sums_are_exact() {
    const ST: [&str; 3] = ["ok", "warn", "error"];
    let mut rng = Rng::new(13);
    for _ in 0..30 {
        let recs: Vec<(u64, usize)> = (0..5 + rng.below(35))
            .map(|_| (rng.below(100), rng.below(3) as usize))
            .collect();
        let rows: Vec<String> = recs
            .iter()
            .map(|(a, s)| format!(r#"{{"a":{a},"status":"{}"}}"#, ST[*s]))
            .collect();
        let d = describe(&array(&rows)).unwrap();
        let sum: u64 = recs.iter().map(|(a, _)| a).sum();
        assert!(d.contains(&format!("sum={sum}")), "{d}");
        for (i, name) in ST.iter().enumerate() {
            let c = recs.iter().filter(|(_, s)| *s == i).count();
            if c > 0 {
                assert!(d.contains(&format!("\"{name}\":{c}")), "{d}");
            }
        }
    }
}

#[test]
fn count_matches_per_window_clusters_log_events() {
    let log = b"INFO start\nERROR a\nINFO ok\nERROR b\nINFO ok\nINFO ok\nerror c\nINFO done";
    // window 3: lines 1-3 -> ERROR a (1 match, line 2); 4-6 -> ERROR b (line 4); 7-9 -> error c (line 7).
    let r = count_matches_per_window(log, "error", 3).unwrap();
    assert_eq!(r.groups.len(), 3);
    assert_eq!(r.groups[0].key, "lines 1-3");
    assert_eq!(num(r.groups[0].value) as i64, 1);
    assert_eq!(r.groups[0].matched, vec![2]); // 1-based line number, case-insensitive
    assert_eq!(r.groups[1].matched, vec![4]);
    assert_eq!(r.groups[2].matched, vec![7]); // "error c" matched case-insensitively
    // empty pattern / zero window refuse.
    assert!(count_matches_per_window(log, "", 3).is_none());
    assert!(count_matches_per_window(log, "error", 0).is_none());
}

#[test]
fn count_matches_per_window_matches_brute_force() {
    let mut rng = Rng::new(37);
    for _ in 0..200 {
        let flags: Vec<bool> = (0..1 + rng.below(59)).map(|_| rng.below(2) == 0).collect();
        let window = 1 + rng.below(7) as usize;
        // Line i has "ERR" exactly if its flag is set.
        let text: String = flags
            .iter()
            .enumerate()
            .map(|(i, f)| {
                if *f {
                    format!("line {i} ERR\n")
                } else {
                    format!("line {i} ok\n")
                }
            })
            .collect();
        let r = count_matches_per_window(text.as_bytes(), "err", window).unwrap();

        let mut want: BTreeMap<usize, i64> = BTreeMap::new();
        for (i, f) in flags.iter().enumerate() {
            if *f {
                *want.entry(i / window).or_default() += 1;
            }
        }
        let got: BTreeMap<usize, i64> = r
            .groups
            .iter()
            .map(|g| {
                let lo: usize = g
                    .key
                    .trim_start_matches("lines ")
                    .split('-')
                    .next()
                    .unwrap()
                    .parse()
                    .unwrap();
                ((lo - 1) / window, num(g.value) as i64)
            })
            .collect();
        assert_eq!(got, want);
        let total: usize = r.groups.iter().map(|g| g.matched.len()).sum();
        assert_eq!(total, flags.iter().filter(|f| **f).count());
        for g in &r.groups {
            for ln in &g.matched {
                assert!(flags[*ln - 1], "line {ln}");
            }
        }
    }
}

#[test]
fn matching_lines_ignore_case_beyond_ascii() {
    let r = count_matches_per_window("straße ÄRGER\nok\n".as_bytes(), "ärger", 5).unwrap();
    assert_eq!(r.groups.len(), 1);
    assert_eq!(r.groups[0].matched, vec![1]);
}

// ---------------------------------------------------------------------------
// Joins and subsets
// ---------------------------------------------------------------------------

#[test]
fn join_aggregate_semi_joins_two_handles() {
    let customers = br#"[{"id":1,"tier":"gold"},{"id":2,"tier":"silver"},{"id":3,"tier":"gold"}]"#;
    let orders =
        br#"[{"cid":1,"amount":100},{"cid":2,"amount":50},{"cid":3,"amount":30},{"cid":1,"amount":20}]"#;
    let gold = text("tier", Op::Eq, "gold");

    // sum order.amount for orders whose customer is gold-tier (ids 1, 3): 100 + 30 + 20 = 150.
    let sum = join_aggregate(
        orders,
        customers,
        "cid",
        "id",
        std::slice::from_ref(&gold),
        &Agg::Sum("amount".into()),
    )
    .unwrap();
    assert_eq!(sum.value as i64, 150);
    assert_eq!(sum.matched, vec![0, 2, 3]);
    assert_eq!(
        sum.display,
        "[index] sum(amount) over left ⋉ right on cid=id where right.tier == \"gold\" (3 matched left records) = 150"
    );

    // count of qualifying orders = 3 (a right key seen twice does not double-count a left row).
    let count = join_aggregate(
        orders,
        customers,
        "cid",
        "id",
        std::slice::from_ref(&gold),
        &Agg::Count,
    )
    .unwrap();
    assert_eq!(count.value as i64, 3);

    // type-sensitive keys: the string "1" must not join the numeric id 1.
    let str_orders = br#"[{"cid":"1","amount":100}]"#;
    let r = join_aggregate(
        str_orders,
        customers,
        "cid",
        "id",
        std::slice::from_ref(&gold),
        &Agg::Count,
    )
    .unwrap();
    assert_eq!(r.value as i64, 0);
}

#[test]
fn join_aggregate_matches_brute_force_semi_join() {
    const TIER: [&str; 2] = ["gold", "silver"];
    let mut rng = Rng::new(17);
    for _ in 0..40 {
        let rights: Vec<(u64, usize)> = (0..1 + rng.below(14))
            .map(|_| (rng.below(5), rng.below(2) as usize))
            .collect();
        let lefts: Vec<(u64, u64)> = (0..1 + rng.below(19))
            .map(|_| (rng.below(5), rng.below(1000)))
            .collect();
        let right: Vec<String> = rights
            .iter()
            .map(|(id, t)| format!(r#"{{"id":{id},"tier":"{}"}}"#, TIER[*t]))
            .collect();
        let left: Vec<String> = lefts
            .iter()
            .map(|(cid, amt)| format!(r#"{{"cid":{cid},"amount":{amt}}}"#))
            .collect();
        let want: Vec<usize> = (0..lefts.len())
            .filter(|i| rights.iter().any(|(id, t)| *t == 0 && *id == lefts[*i].0))
            .collect();
        let gold = [text("tier", Op::Eq, "gold")];
        let (l, r) = (array(&left), array(&right));
        let count = join_aggregate(&l, &r, "cid", "id", &gold, &Agg::Count).unwrap();
        assert_eq!(count.value as usize, want.len());
        assert_eq!(count.matched, want);
        let sum = join_aggregate(&l, &r, "cid", "id", &gold, &Agg::Sum("amount".into()));
        if want.is_empty() {
            assert!(sum.is_none());
        } else {
            let wanted: u64 = want.iter().map(|i| lefts[*i].1).sum();
            assert_eq!(sum.unwrap().value as u64, wanted);
        }
    }
}

#[test]
fn pick_rows_preserves_order_and_refuses_out_of_range() {
    let input = br#"[{"a":1},{"a":2},{"a":3}]"#;
    assert_eq!(
        pick_rows(input, &[1, 0]).unwrap(),
        br#"[{"a":2},{"a":1}]"#.to_vec()
    );
    assert_eq!(pick_rows(input, &[]).unwrap(), b"[]".to_vec());
    assert!(pick_rows(input, &[0, 3]).is_none()); // index 3 is out of range → refuse
}

#[test]
fn query_subset_is_byte_exact_and_chains() {
    let input = br#"[{"a":5,"status":"ok"},{"a":20,"status":"error"},{"a":30,"status":"error"}]"#;
    let p_a = number("a", Op::Gt, 10);
    let p_s = text("status", Op::Eq, "error");
    // a > 10 → rows 1,2; the kept rows are byte-identical to the original element bytes.
    let sub = query_subset(input, std::slice::from_ref(&p_a)).unwrap();
    assert_eq!(
        sub,
        br#"[{"a":20,"status":"error"},{"a":30,"status":"error"}]"#.to_vec()
    );
    // chaining (status==error on the subset) EQUALS the conjunction, byte-for-byte.
    let chained = query_subset(&sub, std::slice::from_ref(&p_s)).unwrap();
    let conj = query_subset(input, &[p_a, p_s]).unwrap();
    assert_eq!(chained, conj);
    // aggregates compose over the derived subset.
    assert_eq!(
        query_aggregate(&sub, &[], &Agg::Sum("a".into()))
            .unwrap()
            .value as i64,
        50
    );
}

#[test]
fn query_subset_composes_and_rows_are_byte_exact() {
    const STATUS: [&str; 3] = ["ok", "warn", "error"];
    let mut rng = Rng::new(19);
    for _ in 0..40 {
        let recs: Vec<(i64, usize)> = (0..1 + rng.below(29))
            .map(|_| (rng.below(2000) as i64 - 1000, rng.below(3) as usize))
            .collect();
        let thr = rng.below(2000) as i64 - 1000;
        // Spaces in odd places: the kept rows are slices of the input, not written anew.
        let rows: Vec<String> = recs
            .iter()
            .map(|(a, s)| format!(r#" {{ "a" : {a},"status":"{}" }} "#, STATUS[*s]))
            .collect();
        let input = array(&rows);
        let p_a = || number("a", Op::Gt, thr);
        let p_s = || text("status", Op::Eq, "error");
        let sub = query_subset(&input, &[p_a()]).unwrap();
        let in_ranges = scan_top_level_array_elements(&input).unwrap();
        let sub_ranges = scan_top_level_array_elements(&sub).unwrap();
        let want: Vec<&[u8]> = (0..recs.len())
            .filter(|i| recs[*i].0 > thr)
            .map(|i| &input[in_ranges[i].clone()])
            .collect();
        let got: Vec<&[u8]> = sub_ranges.iter().map(|r| &sub[r.clone()]).collect();
        assert_eq!(got, want);

        let direct = query_aggregate(&input, &[p_a()], &Agg::Count).unwrap();
        let via = query_aggregate(&sub, &[], &Agg::Count).unwrap();
        assert_eq!(direct.value, via.value);
        assert_eq!(pick_rows(&input, &direct.matched).unwrap(), sub);

        let chained = query_subset(&sub, &[p_s()]).unwrap();
        assert_eq!(chained, query_subset(&input, &[p_a(), p_s()]).unwrap());
    }
}

#[test]
fn query_aggregate_conjunction_count_sum_and_refusal() {
    let input = br#"[{"a":5,"status":"ok"},{"a":20,"status":"error"},{"a":30,"status":"error"},{"a":1,"status":"error"}]"#;
    // a > 10 AND status == "error" → rows 1,2 (a=20,30): the 2-predicate conjunction the NL digest cannot express.
    let preds = vec![number("a", Op::Gt, 10), text("status", Op::Eq, "error")];
    let s = query_aggregate(input, &preds, &Agg::Sum("a".into())).unwrap();
    assert_eq!(s.value as i64, 50);
    assert_eq!(s.matched, vec![1, 2]); // provenance: exact backing rows
    assert_eq!(
        s.display,
        "[index] sum(a) where a > 10 AND status == \"error\" over 2 matched records = 50"
    );
    assert_eq!(
        query_aggregate(input, &preds, &Agg::Count).unwrap().value as i64,
        2
    );
    assert_eq!(
        query_aggregate(input, &preds, &Agg::Max("a".into()))
            .unwrap()
            .value as i64,
        30
    );
    // refuse-rather-than-guess: a present-but-non-numeric aggregated value over the matched set.
    let mixed = br#"[{"a":5,"status":"error"},{"a":"NaN","status":"error"}]"#;
    let only_err = vec![text("status", Op::Eq, "error")];
    assert!(query_aggregate(mixed, &only_err, &Agg::Sum("a".into())).is_none());
    // non-array input → None (never fabricates).
    assert!(query_aggregate(b"{}", &[], &Agg::Count).is_none());
}

#[test]
fn query_aggregate_matches_brute_force_reference() {
    const STATUS: [&str; 3] = ["ok", "warn", "error"];
    let mut rng = Rng::new(23);
    for _ in 0..40 {
        let recs: Vec<(i64, usize)> = (0..1 + rng.below(29))
            .map(|_| (rng.below(2000) as i64 - 1000, rng.below(3) as usize))
            .collect();
        let thr = rng.below(2000) as i64 - 1000;
        let rows: Vec<String> = recs
            .iter()
            .map(|(a, s)| format!(r#"{{"a":{a},"status":"{}"}}"#, STATUS[*s]))
            .collect();
        let input = array(&rows);
        let preds = vec![number("a", Op::Gt, thr), text("status", Op::Eq, "error")];
        let want: Vec<usize> = (0..recs.len())
            .filter(|i| recs[*i].0 > thr && recs[*i].1 == 2)
            .collect();
        let vals: Vec<i64> = want.iter().map(|i| recs[*i].0).collect();
        let c = query_aggregate(&input, &preds, &Agg::Count).unwrap();
        assert_eq!(c.matched, want);
        assert_eq!(c.value as usize, want.len());
        let ask = |agg: Agg| query_aggregate(&input, &preds, &agg);
        if want.is_empty() {
            assert!(ask(Agg::Sum("a".into())).is_none());
            continue;
        }
        let total: i64 = vals.iter().sum();
        assert_eq!(ask(Agg::Sum("a".into())).unwrap().value as i64, total);
        let m = ask(Agg::Mean("a".into())).unwrap().value;
        assert!((m - total as f64 / vals.len() as f64).abs() < 1e-9);
        assert_eq!(
            ask(Agg::Min("a".into())).unwrap().value as i64,
            *vals.iter().min().unwrap()
        );
        assert_eq!(
            ask(Agg::Max("a".into())).unwrap().value as i64,
            *vals.iter().max().unwrap()
        );
    }
}

#[test]
fn comparisons_are_by_type() {
    let j = |s: &str| Json::parse(s.as_bytes()).unwrap();
    assert!(value_passes(&j("2"), Op::Lt, &j("10")));
    assert!(value_passes(&j("2.0"), Op::Eq, &j("2")));
    assert!(value_passes(&j("-0.0"), Op::Eq, &j("0")));
    assert!(value_passes(&j("\"b\""), Op::Gt, &j("\"a\"")));
    assert!(!value_passes(&j("\"10\""), Op::Gt, &j("2")));
    assert!(value_passes(&j("\"10\""), Op::Ne, &j("10")));
    assert!(value_passes(&j("null"), Op::Eq, &j("null")));
    assert!(value_passes(&j("[1,{\"a\":2}]"), Op::Eq, &j("[1,{\"a\":2}]")));
    assert!(!value_passes(&j("true"), Op::Ge, &j("true")));
    assert!(value_passes(&j("-3.5"), Op::Lt, &j("-3.25")));
    assert!(value_passes(&j("1e308"), Op::Gt, &j("-1e308")));
}

#[test]
fn a_compact_text_is_what_the_writer_gives() {
    for s in [
        "null",
        "[1,2.50,-3e2]",
        r#"{"a":"x\"y\\z\n","b":[],"c":{}}"#,
        "\"\\u0001\u{e9}\u{1f600}\"",
        r#"[true,false,{"k":[null]}]"#,
    ] {
        let ours = Json::parse(s.as_bytes()).unwrap().compact();
        let theirs: serde_json::Value = serde_json::from_str(s).unwrap();
        assert_eq!(ours, theirs.to_string());
        assert!(Json::parse(ours.as_bytes())
            .unwrap()
            .same(&Json::parse(s.as_bytes()).unwrap()));
    }
}
