//! Parsed datasets, descriptions, receipts, redaction and the evaluation's data.
use std::collections::{BTreeMap, HashSet};
use std::sync::Arc;

use coffer::budget::{compress_to_budget, Budget};
use coffer::cas::MemoryCas;
use coffer::dataset::{Dataset, DatasetCache};
use coffer::describe::{describe as describe_plan, DescribeLine, Description, Totals};
use coffer::digest::digest;
use coffer::eval::{eq, make_dump, pick_status, truncation_window, Phase, Rng};
use coffer::groups::GroupPlan;
use coffer::histogram::{bucket_aggregate, bucket_aggregate_rows, Low};
use coffer::json::{canonical_string_text, Json};
use coffer::op::Op;
use coffer::query::{query_aggregate, Agg, Predicate, QueryPlan, Reduction};
use coffer::receipt::{
    agg_from_parts, agg_to_parts, issue_receipt, op_from_str, op_to_str, verify_receipt, Receipt,
    ReceiptPredicate, ReceiptVerdict, Recheck,
};
use coffer::redact::{looks_secret, redact_secrets};
use coffer::tokens::{HeuristicCounter, TokenCounter};
use serde_json::Value;

// ---------------------------------------------------------------------------
// The floating-point half
// ---------------------------------------------------------------------------

fn sum(values: &[u64]) -> f64 {
    values.iter().map(|b| f64::from_bits(*b)).sum()
}

fn mean(values: &[u64]) -> f64 {
    sum(values) / values.len() as f64
}

fn value_of(r: &Reduction) -> f64 {
    match r {
        Reduction::Count(n) => *n as f64,
        Reduction::Sum(v) => sum(v),
        Reduction::Mean(v) => mean(v),
        Reduction::Value(b) => f64::from_bits(*b),
    }
}

type Shown = Option<(String, u64, Vec<usize>)>;

fn shown(plan: Option<QueryPlan>) -> Shown {
    plan.map(|p| {
        let value = value_of(&p.reduction);
        let r = p.finish(value.to_bits(), &format!("{value}"));
        (r.display, r.value, r.matched)
    })
}

fn told(d: Option<Description>) -> Option<String> {
    d.map(|d| {
        let totals: Vec<Totals> = d
            .lines
            .iter()
            .map(|line| match line {
                DescribeLine::Text(_) => Totals {
                    mean: String::new(),
                    sum: String::new(),
                },
                DescribeLine::Numeric { values, .. } => Totals {
                    mean: format!("{}", mean(values)),
                    sum: format!("{}", sum(values)),
                },
            })
            .collect();
        d.finish(&totals)
    })
}

fn describe(input: &[u8]) -> Option<String> {
    told(describe_plan(input))
}

fn groups_of(plan: Option<GroupPlan>) -> Option<Vec<(String, usize, u64)>> {
    plan.map(|p| {
        p.groups
            .iter()
            .map(|g| (g.key.clone(), g.matched.len(), value_of(&g.reduction).to_bits()))
            .collect()
    })
}

fn lows(values: &[Option<u64>], width: f64) -> Vec<Option<Low>> {
    values
        .iter()
        .map(|v| {
            v.map(|bits| {
                let low = (f64::from_bits(bits) / width).floor() * width + 0.0;
                Low {
                    bits: low.to_bits(),
                    key: format!("{low}"),
                }
            })
        })
        .collect()
}

// ---------------------------------------------------------------------------
// Datasets
// ---------------------------------------------------------------------------

/// A value of every kind that a column tells apart, or none.
fn random_field(rng: &mut Rng) -> Option<String> {
    Some(match rng.below(12) {
        0 | 1 | 2 => format!("{}", rng.below(2000) as i64 - 1000),
        3 | 4 => format!("{}.25", rng.below(100)),
        5 | 6 | 7 => {
            let letters = ["a", "b", "c"];
            let n = 1 + rng.below(3);
            let s: String = (0..n).map(|_| letters[rng.below(3) as usize]).collect();
            format!("\"{s}\"")
        }
        8 => (if rng.below(2) == 0 { "true" } else { "false" }).to_string(),
        9 => "null".to_string(),
        10 => "[1,2]".to_string(),
        _ => return None,
    })
}

fn random_rows(rng: &mut Rng) -> Vec<u8> {
    let rows: Vec<String> = (0..rng.below(40))
        .map(|_| {
            let fields: Vec<String> = ["x", "y", "z"]
                .iter()
                .filter_map(|f| random_field(rng).map(|v| format!("\"{f}\":{v}")))
                .collect();
            format!("{{{}}}", fields.join(","))
        })
        .collect();
    format!("[{}]", rows.join(",")).into_bytes()
}

fn random_predicate(rng: &mut Rng) -> Predicate {
    let field = ["x", "y", "z", "w"][rng.below(4) as usize];
    let op = [Op::Eq, Op::Ne, Op::Gt, Op::Ge, Op::Lt, Op::Le][rng.below(6) as usize];
    let value = match rng.below(6) {
        0 | 1 => Json::number(rng.below(2000) as i64 - 1000),
        2 | 3 => Json::text(["a", "ab", "cc"][rng.below(3) as usize]),
        4 => Json::Bool(rng.below(2) == 0),
        _ => Json::Null,
    };
    Predicate {
        field: field.to_string(),
        op,
        value,
    }
}

fn random_agg(rng: &mut Rng) -> Agg {
    let field = ["x", "y", "z"][rng.below(3) as usize].to_string();
    match rng.below(5) {
        0 => Agg::Count,
        1 => Agg::Sum(field),
        2 => Agg::Mean(field),
        3 => Agg::Min(field),
        _ => Agg::Max(field),
    }
}

#[test]
fn query_aggregate_equivalence() {
    let mut rng = Rng::new(101);
    for _ in 0..400 {
        let bytes = random_rows(&mut rng);
        let preds: Vec<Predicate> = (0..rng.below(3)).map(|_| random_predicate(&mut rng)).collect();
        let agg = random_agg(&mut rng);
        let via_bytes = shown(query_aggregate(&bytes, &preds, &agg));
        let ds = Dataset::parse(&bytes).expect("top-level array parses");
        assert_eq!(via_bytes, shown(ds.query_aggregate(&preds, &agg)));
        assert_eq!(via_bytes, shown(ds.query_aggregate(&preds, &agg)));
    }
}

#[test]
fn describe_and_digest_equivalence() {
    let mut rng = Rng::new(102);
    for _ in 0..100 {
        let bytes = random_rows(&mut rng);
        let ds = Dataset::parse(&bytes).expect("top-level array parses");
        assert_eq!(describe(&bytes), told(ds.describe()));
        assert_eq!(describe(&bytes), told(ds.describe()));
        for q in ["max x", "how many rows have y", "mean z", "count distinct x"] {
            let cold = ds.digest(q).map(|d| d.finish("7"));
            assert_eq!(digest(&bytes, q).map(|d| d.finish("7")), cold);
            assert_eq!(cold, ds.digest(q).map(|d| d.finish("7")));
        }
    }
}

#[test]
fn bucket_equivalence() {
    let mut rng = Rng::new(103);
    for _ in 0..100 {
        let bytes = random_rows(&mut rng);
        let ds = Dataset::parse(&bytes).expect("top-level array parses");
        for width in [1.0f64, 10.0, 0.5] {
            let plan = bucket_aggregate(&bytes, "x", width.to_bits());
            let values = ds.bucket_values("x", width.to_bits());
            assert_eq!(plan.is_some(), values.is_some());
            if let (Some(plan), Some(values)) = (plan, values) {
                assert_eq!(plan.values, values);
                let w = format!("{width}");
                let at = lows(&values, width);
                assert_eq!(
                    groups_of(bucket_aggregate_rows(&plan.rows, "x", &w, &at, &Agg::Count)),
                    groups_of(ds.bucket_aggregate("x", &w, &at, &Agg::Count))
                );
            }
        }
    }
}

#[test]
fn non_f64_number_refuses_on_both_paths() {
    let bytes = br#"[{"x":1,"s":"a"},{"x":1e400,"s":"b"},{"x":3,"s":"a"}]"#;
    let ds = Dataset::parse(bytes).unwrap();
    let sum = Agg::Sum("x".to_string());

    assert!(query_aggregate(bytes, &[], &sum).is_none());
    assert!(ds.query_aggregate(&[], &sum).is_none());

    let pred = [eq("s", "a")];
    let via_bytes = shown(query_aggregate(bytes, &pred, &sum)).expect("clean subset aggregates");
    let via_ds = shown(ds.query_aggregate(&pred, &sum)).expect("clean subset aggregates");
    assert_eq!(via_bytes, via_ds);
    assert_eq!(f64::from_bits(via_bytes.1), 4.0);

    for op in [Op::Eq, Op::Ne, Op::Gt, Op::Le] {
        let p = [Predicate {
            field: "x".to_string(),
            op,
            value: Json::number(1),
        }];
        assert_eq!(
            shown(query_aggregate(bytes, &p, &Agg::Count)),
            shown(ds.query_aggregate(&p, &Agg::Count)),
            "op {op:?} diverged"
        );
    }
}

#[test]
fn parse_acceptance_matches_entry_points() {
    assert!(Dataset::parse(b"[]").is_some());
    assert!(Dataset::parse(br#"[{"a":1}]"#).is_some());
    assert!(Dataset::parse(br#"{"a":1}"#).is_none());
    assert!(Dataset::parse(b"42").is_none());
    assert!(Dataset::parse(b"not json").is_none());
}

#[test]
fn a_dataset_joins_as_the_bytes_do() {
    let left = br#"[{"k":"a","v":1},{"k":"b","v":2},{"k":"a","v":4},{"k":"c","v":8}]"#;
    let right = br#"[{"id":"a","team":"red"},{"id":"b","team":"blue"}]"#;
    let l = Dataset::parse(left).unwrap();
    let r = Dataset::parse(right).unwrap();
    let agg = Agg::Sum("v".to_string());
    let red = [eq("team", "red")];
    assert_eq!(
        shown(l.join_aggregate(&r, "k", "id", &red, &agg)),
        shown(coffer::join::join_aggregate(left, right, "k", "id", &red, &agg))
    );
    let joined = groups_of(l.join_group_aggregate(&r, "k", "id", "team", &agg)).unwrap();
    assert_eq!(
        joined,
        groups_of(coffer::join::join_group_aggregate(
            left, right, "k", "id", "team", &agg
        ))
        .unwrap()
    );
    let values: Vec<f64> = joined.iter().map(|g| f64::from_bits(g.2)).collect();
    assert_eq!(values.iter().sum::<f64>(), 7.0);
}

#[test]
fn a_cache_holds_the_latest_datasets() {
    let mut cache = DatasetCache::new(2);
    let one = cache.get_or_parse("one", b"[1]").unwrap();
    let two = cache.get_or_parse("two", b"[1,2]").unwrap();
    assert!(Arc::ptr_eq(&one, &cache.get_or_parse("one", b"[9,9,9]").unwrap()));
    // "two" was asked for less recently than "one", so it makes room.
    assert_eq!(cache.get_or_parse("three", b"[1,2,3]").unwrap().len(), 3);
    assert_eq!(cache.get_or_parse("one", b"[]").unwrap().len(), 1);
    assert_eq!(cache.get_or_parse("two", b"[]").unwrap().len(), 0);
    assert_eq!(two.len(), 2);
    assert!(cache.get_or_parse("four", b"{}").is_none());
}

// ---------------------------------------------------------------------------
// Descriptions
// ---------------------------------------------------------------------------

/// A plain way to describe records, field by field.
fn plain_describe(input: &[u8]) -> Option<String> {
    let v: Value = serde_json::from_slice(input).ok()?;
    let arr = v.as_array()?;
    let n = arr.len();
    if n == 0 {
        return Some("[describe] 0 records".to_string());
    }
    if !arr.iter().any(Value::is_object) {
        return None;
    }
    let mut fields: Vec<String> = Vec::new();
    let mut seen: HashSet<String> = HashSet::new();
    for o in arr.iter().filter_map(Value::as_object) {
        for k in o.keys() {
            if seen.insert(k.clone()) {
                fields.push(k.clone());
            }
        }
    }
    let mut lines = vec![format!("[describe] {n} records, {} fields", fields.len())];
    for f in &fields {
        let held: Vec<&Value> = arr
            .iter()
            .filter_map(Value::as_object)
            .filter_map(|o| o.get(f))
            .collect();
        let mut counts: BTreeMap<String, usize> = BTreeMap::new();
        for val in held.iter().filter(|v| !v.is_null()) {
            *counts.entry(val.to_string()).or_default() += 1;
        }
        let present: usize = counts.values().sum();
        let distinct = counts.len();
        let numbers: Option<Vec<f64>> = held.iter().map(|v| v.as_f64()).collect();
        match numbers {
            Some(vals) if !vals.is_empty() => {
                let sum: f64 = vals.iter().sum();
                let mean = sum / vals.len() as f64;
                let min = vals.iter().copied().fold(f64::INFINITY, f64::min);
                let max = vals.iter().copied().fold(f64::NEG_INFINITY, f64::max);
                lines.push(format!(
                    "  {f}: number present={present} distinct={distinct} min={min} max={max} mean={mean} sum={sum}"
                ));
            }
            _ if distinct <= 12 && distinct < present => {
                let mut pairs: Vec<(String, usize)> = counts.into_iter().collect();
                pairs.sort_by(|a, b| b.1.cmp(&a.1).then_with(|| a.0.cmp(&b.0)));
                let breakdown: Vec<String> =
                    pairs.iter().map(|(k, c)| format!("{k}:{c}")).collect();
                lines.push(format!(
                    "  {f}: present={present} distinct={distinct} — {}",
                    breakdown.join(", ")
                ));
            }
            _ => lines.push(format!("  {f}: present={present} distinct={distinct}")),
        }
    }
    Some(lines.join("\n"))
}

fn hostile_field(rng: &mut Rng) -> Option<String> {
    let texts = [
        r#""say \"hi\"""#,
        r#""back\\slash""#,
        r#""tab\there""#,
        r#""newline\nhere""#,
        "\"naïve — 日本語 ✓\"",
        r#""""#,
        r#""\u0001""#,
    ];
    let floats = ["0.5", "-0.0", "1e-9", "123456.789"];
    Some(match rng.below(15) {
        0 | 1 | 2 => format!("\"{}\"", "abc".chars().nth(rng.below(3) as usize).unwrap()),
        3 | 4 => texts[rng.below(7) as usize].to_string(),
        5 | 6 | 7 => format!("{}", rng.below(100) as i64 - 50),
        8 | 9 => floats[rng.below(4) as usize].to_string(),
        10 => (if rng.below(2) == 0 { "true" } else { "false" }).to_string(),
        11 => "null".to_string(),
        12 => r#"[1,"two"]"#.to_string(),
        13 => r#"{"nested":true}"#.to_string(),
        _ => return None,
    })
}

#[test]
fn describe_matches_a_plain_reading() {
    let mut rng = Rng::new(111);
    for _ in 0..300 {
        let keep_numbers = rng.below(3) == 0;
        let rows: Vec<String> = (0..rng.below(30))
            .map(|_| {
                let fields: Vec<String> = ["a", "b", "c"]
                    .iter()
                    .filter_map(|f| {
                        let v = if keep_numbers && *f == "a" {
                            Some(format!("{}.5", rng.below(9)))
                        } else {
                            hostile_field(&mut rng)
                        };
                        v.map(|v| format!("\"{f}\":{v}"))
                    })
                    .collect();
                format!("{{{}}}", fields.join(","))
            })
            .collect();
        let bytes = format!("[{}]", rows.join(",")).into_bytes();
        assert_eq!(plain_describe(&bytes), describe(&bytes));
    }
}

#[test]
fn describe_matches_reference_on_edge_shapes() {
    let ids: Vec<String> = (0..40).map(|i| format!("{{\"id\":\"u-{i}\"}}")).collect();
    let cases: Vec<String> = vec![
        r#"[{"x":1},{"x":1e400}]"#.to_string(),
        r#"[{"x":1},{"x":null},{"x":3}]"#.to_string(),
        r#"[{"x":1.0},{"x":1}]"#.to_string(),
        r#"[{"s":"a"},{"s":"a"},{"s":"b"},42,"not-an-object"]"#.to_string(),
        format!("[{}]", ids.join(",")),
        "[{}]".to_string(),
        "[]".to_string(),
        "[1,2]".to_string(),
    ];
    for case in cases {
        assert_eq!(
            plain_describe(case.as_bytes()),
            describe(case.as_bytes()),
            "diverged on {case}"
        );
    }
}

// ---------------------------------------------------------------------------
// Receipts
// ---------------------------------------------------------------------------

fn dataset() -> Vec<u8> {
    br#"[{"status":"ok","cost":10},{"status":"error","cost":40},{"status":"ok","cost":20},{"status":"error","cost":60}]"#.to_vec()
}

fn err_sum() -> (Vec<Predicate>, Agg) {
    (vec![eq("status", "error")], Agg::Sum("cost".into()))
}

fn issued(input: &[u8], preds: &[Predicate], agg: &Agg) -> Option<Receipt> {
    issue_receipt(input, preds, agg).map(|plan| {
        let value = value_of(&plan.reduction);
        plan.finish(value.to_bits())
    })
}

fn checked(receipt: &Receipt, input: &[u8]) -> ReceiptVerdict {
    let check = verify_receipt(receipt, input);
    let actual = match &check {
        Recheck::Compare { reduction, .. } => value_of(reduction),
        Recheck::Decided(_) => 0.0,
    };
    let attested = f64::from_bits(receipt.value);
    let close = (actual - attested).abs() <= 1e-9 + 1e-9 * attested.abs();
    check.finish(receipt.value, actual.to_bits(), close)
}

/// The receipt as JSON text.
fn written(r: &Receipt) -> String {
    let mut out = serde_json::Map::new();
    let query: Vec<Value> = r
        .query
        .iter()
        .map(|p| {
            let mut o = serde_json::Map::new();
            o.insert("field".into(), Value::from(p.field.clone()));
            o.insert("op".into(), Value::from(p.op.clone()));
            o.insert(
                "value".into(),
                serde_json::from_str(&p.value.compact()).unwrap(),
            );
            Value::Object(o)
        })
        .collect();
    out.insert("query".into(), Value::Array(query));
    out.insert("agg".into(), Value::from(r.agg.clone()));
    out.insert("agg_field".into(), Value::from(r.agg_field.clone()));
    out.insert("value".into(), Value::from(f64::from_bits(r.value)));
    out.insert("matched".into(), Value::from(r.matched.clone()));
    out.insert("backing_sha256".into(), Value::from(r.backing_sha256.clone()));
    out.insert("input_len".into(), Value::from(r.input_len));
    out.insert("input_sha256".into(), Value::from(r.input_sha256.clone()));
    out.insert("issued_unix".into(), Value::from(r.issued_unix));
    serde_json::to_string(&Value::Object(out)).unwrap()
}

/// The receipt that the JSON text holds.
fn read_back(text: &str) -> Receipt {
    let v: Value = serde_json::from_str(text).unwrap();
    let text_at = |name: &str| v[name].as_str().unwrap().to_string();
    Receipt {
        query: v["query"]
            .as_array()
            .unwrap()
            .iter()
            .map(|p| ReceiptPredicate {
                field: p["field"].as_str().unwrap().to_string(),
                op: p["op"].as_str().unwrap().to_string(),
                value: Json::parse(p["value"].to_string().as_bytes()).unwrap(),
            })
            .collect(),
        agg: text_at("agg"),
        agg_field: v["agg_field"].as_str().map(str::to_string),
        value: v["value"].as_f64().unwrap().to_bits(),
        matched: v["matched"]
            .as_array()
            .unwrap()
            .iter()
            .map(|n| n.as_u64().unwrap() as usize)
            .collect(),
        backing_sha256: text_at("backing_sha256"),
        input_len: v["input_len"].as_u64().unwrap() as usize,
        input_sha256: text_at("input_sha256"),
        issued_unix: v["issued_unix"].as_u64(),
    }
}

#[test]
fn receipt_survives_serialize_then_fresh_verify() {
    let data = dataset();
    let (preds, agg) = err_sum();
    let receipt = issued(&data, &preds, &agg).expect("issue");
    assert!(
        (f64::from_bits(receipt.value) - 100.0).abs() < 1e-9,
        "sum cost where error = 100"
    );
    assert_eq!(receipt.matched, vec![1, 3]);
    assert_eq!(receipt.input_len, data.len());

    let wire = written(&receipt);
    let reloaded = read_back(&wire);
    assert_eq!(reloaded, receipt);

    assert_eq!(checked(&reloaded, &data), ReceiptVerdict::Valid);
}

#[test]
fn tamper_to_a_backing_row_is_caught() {
    let data = dataset();
    let (preds, agg) = err_sum();
    let receipt = issued(&data, &preds, &agg).expect("issue");
    let tampered = br#"[{"status":"ok","cost":10},{"status":"error","cost":999},{"status":"ok","cost":20},{"status":"error","cost":60}]"#;
    match checked(&receipt, tampered) {
        ReceiptVerdict::ValueMismatch { expected, actual } => {
            assert!((f64::from_bits(expected) - 100.0).abs() < 1e-9);
            assert!((f64::from_bits(actual) - 1059.0).abs() < 1e-9);
        }
        other => panic!("expected ValueMismatch, got {other:?}"),
    }
}

#[test]
fn tamper_that_changes_backing_rows_without_changing_value_is_caught() {
    let data = dataset();
    let (preds, agg) = err_sum();
    let receipt = issued(&data, &preds, &agg).expect("issue");
    let reshaped = br#"[{"status":"ok","cost":10},{"status":"error","cost":1},{"status":"ok","cost":20},{"status":"error","cost":99}]"#;
    assert_eq!(checked(&receipt, reshaped), ReceiptVerdict::BackingTampered);
}

#[test]
fn non_array_input_refuses_to_issue() {
    let (preds, agg) = err_sum();
    assert!(issue_receipt(b"not json", &preds, &agg).is_none());
}

#[test]
fn receipts_are_refused_or_malformed_where_nothing_can_be_checked() {
    let data = dataset();
    let (preds, agg) = err_sum();
    let receipt = issued(&data, &preds, &agg).expect("issue");
    assert_eq!(checked(&receipt, b"not json"), ReceiptVerdict::Refused);
    let mixed = br#"[{"status":"error","cost":"lots"}]"#;
    assert_eq!(checked(&receipt, mixed), ReceiptVerdict::Refused);
    let mut bad = issued(&data, &preds, &agg).expect("issue");
    bad.agg = "median".to_string();
    assert_eq!(checked(&bad, &data), ReceiptVerdict::MalformedReceipt);
    let mut bad = issued(&data, &preds, &agg).expect("issue");
    bad.query[0].op = "~".to_string();
    assert_eq!(checked(&bad, &data), ReceiptVerdict::MalformedReceipt);
}

#[test]
fn names_of_operators_and_aggregates_come_back() {
    for op in [Op::Eq, Op::Ne, Op::Gt, Op::Ge, Op::Lt, Op::Le] {
        assert_eq!(op_from_str(op_to_str(op)), Some(op));
    }
    assert_eq!(op_from_str("="), None);
    for agg in [
        Agg::Count,
        Agg::Sum("f".into()),
        Agg::Mean("f".into()),
        Agg::Min("f".into()),
        Agg::Max("f".into()),
    ] {
        let (kind, field) = agg_to_parts(&agg);
        assert_eq!(agg_from_parts(&kind, &field), Some(agg));
    }
    assert_eq!(agg_from_parts("sum", &None), None);
}

// ---------------------------------------------------------------------------
// Redaction
// ---------------------------------------------------------------------------

const SECRET_PREFIXES: [&str; 18] = [
    "sk-",
    "sk_live_",
    "pk_live_",
    "rk_live_",
    "ghp_",
    "gho_",
    "ghs_",
    "ghu_",
    "github_pat_",
    "glpat-",
    "xoxb-",
    "xoxp-",
    "xoxa-",
    "AKIA",
    "ASIA",
    "AIza",
    "ya29.",
    "AGPA",
];

#[test]
fn redacts_known_secret_tokens_and_round_trips() {
    let text = "export OPENAI_API_KEY=sk-abc123def456ghi789 and token ghp_0123456789abcdefABCDEF; normal=value";
    let r = redact_secrets(text);
    assert!(!r.masked.contains("sk-abc123def456ghi789"), "{}", r.masked);
    assert!(!r.masked.contains("ghp_0123456789abcdefABCDEF"));
    assert!(r.masked.contains("<<cof-redacted:"));
    assert_eq!(r.secrets.len(), 2);
    assert!(r.masked.contains("normal=value") && r.masked.contains("export"));
    let mut restored = r.masked.clone();
    for s in &r.secrets {
        restored = restored.replace(&s.marker, &s.value);
    }
    assert_eq!(restored, text);
}

#[test]
fn leaves_secret_free_text_unchanged() {
    let text = "just some normal prose with numbers 12345 and ordinary-words";
    let r = redact_secrets(text);
    assert_eq!(r.masked, text);
    assert!(r.secrets.is_empty());
}

fn corpus_tokens() -> Vec<String> {
    let body = "abcdefABCDEF0123456789-_.";
    SECRET_PREFIXES
        .iter()
        .map(|p| {
            let mut t = (*p).to_string();
            let mut i = 0;
            while t.len() < 24 {
                let b = body.as_bytes()[i % body.len()] as char;
                t.push(b);
                i += 1;
            }
            t
        })
        .collect()
}

#[test]
fn recall_every_known_prefix_is_masked() {
    let tokens = corpus_tokens();
    for t in &tokens {
        assert!(looks_secret(t), "constructed token not seen as secret: {t}");
    }
    let text = format!(
        "line0: secret={} end\nexport KEY=\"{}\" ; another({}) [{}] <{}> {}/{}|{}&{}?{}\n{} {} {} {} {} {} {} {}",
        tokens[0],
        tokens[1],
        tokens[2],
        tokens[3],
        tokens[4],
        tokens[5],
        tokens[6],
        tokens[7],
        tokens[8],
        tokens[9],
        tokens[10],
        tokens[11],
        tokens[12],
        tokens[13],
        tokens[14],
        tokens[15],
        tokens[16],
        tokens[17],
    );
    let r = redact_secrets(&text);
    for t in &tokens {
        assert!(
            !r.masked.contains(t.as_str()),
            "secret survived in masked text: {t}\nmasked: {}",
            r.masked
        );
    }
    assert_eq!(r.secrets.len(), tokens.len(), "one secret per prefix");
    let mut got: Vec<&str> = r.secrets.iter().map(|s| s.value.as_str()).collect();
    let mut want: Vec<&str> = tokens.iter().map(String::as_str).collect();
    got.sort_unstable();
    want.sort_unstable();
    assert_eq!(got, want, "recovered secret set differs from corpus");
    let mut restored = r.masked.clone();
    for s in &r.secrets {
        restored = restored.replacen(&s.marker, &s.value, 1);
    }
    assert_eq!(restored, text, "recall corpus failed byte-exact round-trip");
}

#[test]
fn precision_benign_tokens_not_masked() {
    let benign = [
        "550e8400-e29b-41d4-a716-446655440000",
        "da39a3ee5e6b4b0d3255bfef95601890afd80709",
        "/usr/local/share/some/config/path.toml",
        "supercalifragilisticexpialidocious",
        "Authorization",
        "antidisestablishmentarianism",
        "0123456789abcdef0123456789abcdef",
        "package-lock-resolver-internal-token",
    ];
    for b in &benign {
        assert!(!looks_secret(b), "benign token misclassified: {b}");
    }
    let text = format!(
        "uuid={} sha={} path={} word={} hdr={} word2={} hex={} name={}",
        benign[0], benign[1], benign[2], benign[3], benign[4], benign[5], benign[6], benign[7],
    );
    let r = redact_secrets(&text);
    assert!(r.secrets.is_empty(), "false positives: {:?}", r.secrets);
    assert_eq!(r.masked, text, "benign text must pass through unchanged");
}

#[test]
fn falsification_unknown_prefix_is_not_masked() {
    let unknown = "notakey_0123456789abcdefABCDEF";
    assert!(!looks_secret(unknown));
    let r = redact_secrets(&format!("token={unknown} done"));
    assert!(
        r.masked.contains(unknown),
        "control: unknown-prefix unexpectedly masked"
    );
    assert!(r.secrets.is_empty());

    let short = "sk-abc";
    assert!(!looks_secret(short));
    let r2 = redact_secrets(&format!("k={short} x"));
    assert!(
        r2.secrets.is_empty(),
        "short known-prefix token must not mask"
    );
}

#[test]
fn round_trip_and_count_match_reference() {
    let separators = [' ', '\n', '=', ',', ';', ':', '"', '(', ')', '/', '|'];
    let letters: Vec<char> = "abcXYZ0189._-".chars().collect();
    let mut rng = Rng::new(121);
    for _ in 0..300 {
        let mut text = String::from(" ");
        let mut expected: Vec<String> = Vec::new();
        for _ in 0..rng.below(24) {
            let mut token = String::new();
            let secret = rng.below(2) == 0;
            if secret {
                token.push_str(SECRET_PREFIXES[rng.below(18) as usize]);
            }
            for _ in 0..12 + rng.below(8) {
                token.push(letters[rng.below(if secret { 10 } else { 13 }) as usize]);
            }
            if looks_secret(&token) {
                expected.push(token.clone());
            }
            text.push_str(&token);
            text.push(separators[rng.below(11) as usize]);
        }
        let r = redact_secrets(&text);
        let got: Vec<&str> = r.secrets.iter().map(|s| s.value.as_str()).collect();
        let want: Vec<&str> = expected.iter().map(String::as_str).collect();
        assert_eq!(got, want);
        for v in &expected {
            assert!(!r.masked.contains(v.as_str()));
        }
        let mut restored = r.masked.clone();
        for s in &r.secrets {
            let found = restored.replacen(&s.marker, &s.value, 1);
            assert_ne!(found, restored, "marker not found for {:?}", s.marker);
            restored = found;
        }
        assert_eq!(restored, text, "round-trip not byte-exact");
        // Masking again finds nothing.
        let again = redact_secrets(&r.masked);
        assert_eq!(again.masked, r.masked);
        assert!(again.secrets.is_empty());
    }
}

// ---------------------------------------------------------------------------
// The evaluation's data
// ---------------------------------------------------------------------------

fn restarts(row: &Json) -> f64 {
    f64::from_bits(row.get("restarts").and_then(|v| v.double()).unwrap())
}

#[test]
fn digest_is_exact_roundtrip_holds_and_truncation_misses_the_needle() {
    let (rows, bytes) = make_dump(400, 0xABCD);
    let mut cas = MemoryCas::new();
    let tok = HeuristicCounter;

    let truth_count = rows
        .iter()
        .filter(|r| r.get("status").and_then(|s| s.as_str()) == Some("CrashLoopBackOff"))
        .count() as f64;
    let truth_max = rows.iter().map(restarts).fold(f64::MIN, f64::max);
    assert_eq!(truth_max, 99_999.0, "the buried needle must be present");

    let c = shown(query_aggregate(
        &bytes,
        &[eq("status", "CrashLoopBackOff")],
        &Agg::Count,
    ))
    .expect("count");
    assert!((f64::from_bits(c.1) - truth_count).abs() < 1e-9);
    let m = shown(query_aggregate(
        &bytes,
        &[Predicate {
            field: "restarts".into(),
            op: Op::Ge,
            value: Json::number(0),
        }],
        &Agg::Max("restarts".into()),
    ))
    .expect("max");
    assert!((f64::from_bits(m.1) - truth_max).abs() < 1e-9);

    let raw_tok = tok.count(&String::from_utf8_lossy(&bytes));
    for f in [0.5_f64, 0.1, 0.02] {
        let target = ((raw_tok as f64) * f) as usize;
        let doc = compress_to_budget(&bytes, &mut cas, Budget::Tokens(target), &tok);
        assert_eq!(
            doc.reconstruct(&cas).expect("reconstruct"),
            bytes,
            "byte-exact at {f}"
        );
    }

    let per_row: Vec<usize> = rows.iter().map(|r| tok.count(&r.compact())).collect();
    let visible = truncation_window(&per_row, raw_tok / 20);
    assert!(!visible.is_empty());
    let t_max = visible
        .iter()
        .map(|&i| restarts(&rows[i]))
        .fold(f64::MIN, f64::max);
    assert!(
        t_max < truth_max,
        "head/tail truncation must miss the buried needle"
    );
}

#[test]
fn a_dump_is_its_records() {
    let (rows, bytes) = make_dump(9, 7);
    assert_eq!(rows.len(), 9);
    let parsed: Value = serde_json::from_slice(&bytes).unwrap();
    assert_eq!(parsed.as_array().unwrap().len(), 9);
    assert_eq!(parsed.to_string().as_bytes(), bytes.as_slice());
    assert_eq!(restarts(&rows[4]), 99_999.0);
}

#[test]
fn a_truncation_window_takes_head_and_tail_in_turn() {
    assert_eq!(truncation_window(&[1, 1, 1, 1, 1], 8), vec![0, 4, 1]);
    assert_eq!(truncation_window(&[1, 1, 1, 1, 1], 7), vec![0, 4]);
    assert_eq!(truncation_window(&[5, 5], 4), Vec::<usize>::new());
    assert_eq!(truncation_window(&[1, 2], 7), vec![0, 1]);
}

#[test]
fn statuses_follow_the_roll() {
    let mut rng = Rng::new(9);
    let mut seen: BTreeMap<&'static str, usize> = BTreeMap::new();
    for _ in 0..2000 {
        *seen.entry(pick_status(&mut rng).name()).or_default() += 1;
    }
    assert_eq!(seen.len(), 5);
    assert!(seen["Running"] > 1200);
    assert_eq!(Phase::CrashLoop.name(), "CrashLoopBackOff");
}

#[test]
fn a_string_literal_escapes_quotes_backslashes_and_control_characters() {
    let text = "a\u{0}\u{1}\u{8}\t\n\u{b}\u{c}\r\u{1f} \"\\/\u{7f}\u{e9}\u{2028}";
    assert_eq!(
        canonical_string_text(text),
        "\"a\\u0000\\u0001\\b\\t\\n\\u000b\\f\\r\\u001f \\\"\\\\/\u{7f}\u{e9}\u{2028}\""
    );
    assert_eq!(canonical_string_text("plain"), "\"plain\"");
    assert_eq!(
        Json::Object(vec![("k\n".to_string(), Json::text("v\u{2}"))]).compact(),
        r#"{"k\n":"v\u0002"}"#
    );
}

#[test]
fn a_number_is_read_and_printed_as_a_double() {
    let number = |text: &str| Json::Number(text.to_string());
    assert_eq!(number("1e2").double(), Some(100f64.to_bits()));
    assert_eq!(number("1e2").printed(), "100");
    assert_eq!(number("-0.0").printed(), "-0");
    assert_eq!(number("0.10").printed(), "0.1");
    assert_eq!(number("1e400").double(), None);
    assert_eq!(number("1e400").printed(), "");
}
