//! Requests of a server that holds data: arguments, limits, windows, answers.
use coffer::args::{parse_agg, parse_op, parse_value_arg, PredicateArg};
use coffer::cas::{Cas, MemoryCas};
use coffer::dataset::DatasetCache;
use coffer::describe::{DescribeLine, Totals};
use coffer::digest::Digest;
use coffer::groups::GroupPlan;
use coffer::hash::ContentHash;
use coffer::histogram::Low;
use coffer::ingest::{
    fact_card, ingest_view, ingested_text, ingested_text_with_view, summarize, IngestView, Ingested,
};
use coffer::json::Json;
use coffer::limits::{
    dataset_cache_entries_from_value, max_rows_from_value, positive_u64_from_value,
    positive_usize_from_value, retrieve_limits_from_values, run_limits_from_values, RetrieveLimits,
    RunLimits, DEFAULT_MAX_ROWS, DEFAULT_MAX_RUN_OUTPUT_BYTES, DEFAULT_RUN_TIMEOUT_SECONDS, MIB,
};
use coffer::op::Op;
use coffer::path::render_json_path;
use coffer::policy::{
    run_policy_from_values, run_text, shell_line, truthy, RunAction, RunCapture, RunEnd, RunEvent,
};
use coffer::query::{Agg, QueryResult, Reduction};
use coffer::receipt::verify_receipt;
use coffer::render::{
    byte_window, render_json_rows, render_retrieved_bytes, render_text_lines, render_text_search,
};
use coffer::tools::{
    aggregate_reply, claim_reply, coffer_aggregate, coffer_bucket, coffer_check_claim,
    coffer_describe, coffer_digest, coffer_join, coffer_json, coffer_lines, coffer_pick,
    coffer_query, coffer_receipt, coffer_retrieve, coffer_rows, coffer_search, coffer_select,
    coffer_window, digest_reply, groups_reply, join_reply, unfold_shared_cas_result, verdict_reply,
    AggregateArgs, Asked, BucketArgs, JoinArgs, Joined, Reply,
};

// ---------------------------------------------------------------------------
// The floating-point half
// ---------------------------------------------------------------------------

fn sum(values: &[u64]) -> f64 {
    values.iter().map(|b| f64::from_bits(*b)).sum()
}

fn mean(values: &[u64]) -> f64 {
    sum(values) / values.len() as f64
}

fn value_of(r: &Reduction) -> f64 {
    match r {
        Reduction::Count(n) => *n as f64,
        Reduction::Sum(v) => sum(v),
        Reduction::Mean(v) => mean(v),
        Reduction::Value(b) => f64::from_bits(*b),
    }
}

fn fmt_group_value(v: f64) -> String {
    if v.is_finite() && v.fract() == 0.0 && v.abs() < 1e15 {
        format!("{v:.0}")
    } else {
        format!("{v}")
    }
}

fn groups_text(plan: GroupPlan) -> Reply {
    let values: Vec<f64> = plan.groups.iter().map(|g| value_of(&g.reduction)).collect();
    let shown: Vec<String> = values.iter().map(|v| fmt_group_value(*v)).collect();
    let bits: Vec<u64> = values.iter().map(|v| v.to_bits()).collect();
    groups_reply(&plan.finish(&bits), &shown)
}

fn told(ingested: &Ingested) -> String {
    let means: Vec<String> = match &ingested.card {
        Some(card) => means_of(&card.lines),
        None => Vec::new(),
    };
    ingested.finish(&means)
}

fn means_of(lines: &[DescribeLine]) -> Vec<String> {
    lines
        .iter()
        .map(|line| match line {
            DescribeLine::Text(_) => String::new(),
            DescribeLine::Numeric { values, .. } => format!("{:.4}", mean(values)),
        })
        .collect()
}

fn left<T>(asked: Asked<T>) -> T {
    match asked {
        Asked::Left(t) => t,
        Asked::Reply(r) => panic!("{}", r.text),
    }
}

fn refused<T>(asked: Asked<T>) -> String {
    match asked {
        Asked::Left(_) => panic!("expected a refusal"),
        Asked::Reply(r) => {
            assert!(!r.ok);
            r.text
        }
    }
}

fn result_of(plan: coffer::query::QueryPlan) -> (f64, QueryResult) {
    let v = value_of(&plan.reduction);
    (v, plan.finish(v.to_bits(), &format!("{v}")))
}

fn arg(field: &str, op: &str, value: &str) -> PredicateArg {
    PredicateArg {
        field: field.to_string(),
        op: op.to_string(),
        value: value.to_string(),
    }
}

fn handle_of(card: &str) -> String {
    card.lines()
        .next()
        .unwrap()
        .strip_prefix("handle: ")
        .unwrap()
        .to_string()
}

/// A server in memory.
struct Server {
    cas: MemoryCas,
    cache: DatasetCache,
}

impl Server {
    fn in_memory() -> Self {
        Server {
            cas: MemoryCas::new(),
            cache: DatasetCache::new(8),
        }
    }

    fn put_bytes(&mut self, bytes: &[u8]) -> String {
        self.cas.put(bytes).as_str().to_string()
    }

    fn get_handle(&self, handle: &str) -> Option<Vec<u8>> {
        self.cas.get(&ContentHash::from_hex(handle)?)
    }
}

fn rows_json(n: usize, row: impl Fn(usize) -> String) -> Vec<u8> {
    let rows: Vec<String> = (0..n).map(row).collect();
    format!("[{}]", rows.join(",")).into_bytes()
}

// ---------------------------------------------------------------------------
// Taking in
// ---------------------------------------------------------------------------

#[test]
fn ingest_view_rejects_unknown_values() {
    let err = ingest_view(Some("whole_repo_map")).unwrap_err();
    assert!(err.contains("supported values: structural_code"), "{err}");
    assert_eq!(
        err,
        "unknown ingest view \"whole_repo_map\"; supported values: structural_code"
    );
}

#[test]
fn ingest_view_reads_known_values() {
    assert_eq!(ingest_view(None), Ok(IngestView::Summary));
    assert_eq!(ingest_view(Some("  ")), Ok(IngestView::Summary));
    assert_eq!(
        ingest_view(Some(" structural_code ")),
        Ok(IngestView::StructuralCode)
    );
}

#[test]
fn structural_code_ingest_view_keeps_outline_and_retrieval_sentinel() {
    let input = br#"
use std::collections::HashMap;

pub struct Widget {
    value: usize,
}

impl Widget {
    pub fn compute(&self, items: &[usize]) -> usize {
        let mut total = self.value;
        for item in items {
            total += item;
        }
        total
    }
}
"#;
    let handle = ContentHash::of(input).as_str().to_string();
    let mut cas = MemoryCas::new();
    let mut text = told(&ingested_text(&handle, input));
    text.push_str(&ingested_text_with_view(
        input,
        IngestView::StructuralCode,
        Some(120),
        &mut cas,
    ));
    assert!(text.contains(&format!("handle: {handle}")), "{text}");
    assert!(text.contains(&format!("<<cof:{}", &handle[..12])), "{text}");
    assert!(text.contains("view: structural_code"), "{text}");
    assert!(text.contains("pub struct Widget"), "{text}");
    assert!(text.contains("pub fn compute"), "{text}");
    assert!(!text.contains("total += item"), "{text}");
    assert_eq!(
        ingested_text_with_view(input, IngestView::Summary, None, &mut cas),
        ""
    );
}

#[test]
fn summaries_name_what_is_there() {
    assert_eq!(
        summarize(br#"[{"b":1,"a":2},{"c":3}]"#),
        "json array, 2 items, fields: [b,a]"
    );
    assert_eq!(summarize(br#"{"z":1,"y":[]}"#), "json object, keys: [z,y]");
    assert_eq!(summarize(b"plain"), "text, 5 bytes");
    assert_eq!(summarize(b"[1,2]"), "json array, 2 items, fields: []");
    let log: String = (0..10)
        .map(|i| format!("2024-01-01T00:00:0{i}Z INFO step {i}\n"))
        .collect();
    assert_eq!(summarize(log.as_bytes()), "log, 10 lines");
}

#[test]
fn fact_card_includes_fields_absent_from_first_row() {
    let bytes = br#"[
            {"id": 1, "status": "seed"},
            {"id": 2, "latency_ms": 120, "status": "ok"},
            {"id": 3, "latency_ms": 240, "error_code": "E42"}
        ]"#;

    let card = fact_card(bytes).expect("JSON rows should produce field stats");
    let card = card.finish(&means_of(&card.lines));

    assert!(
        card.contains("id: numeric present=3/3 min=1 max=3 mean=2.0000"),
        "{card}"
    );
    assert!(card.contains("status: present=2/3 2 distinct"), "{card}");
    assert!(
        card.contains("latency_ms: numeric present=2/3 min=120 max=240 mean=180.0000"),
        "{card}"
    );
    assert!(
        card.contains("error_code: present=1/3 1 distinct"),
        "{card}"
    );
}

#[test]
fn fact_card_needs_records_with_fields() {
    assert!(fact_card(b"[]").is_none());
    assert!(fact_card(b"[1,2]").is_none());
    assert!(fact_card(b"{\"a\":1}").is_none());
    assert!(fact_card(b"not json").is_none());
    let card = fact_card(br#"[{"n":1e400},{"n":1}]"#).unwrap();
    assert_eq!(
        card.finish(&means_of(&card.lines)),
        "field stats:\n  n: present=2/2 2 distinct"
    );
}

#[test]
fn ingested_text_tells_handle_summary_and_size() {
    let text = told(&ingested_text("abc", br#"[{"n":1},{"n":3}]"#));
    assert!(
        text.starts_with(
            "handle: abc\nsummary: json array, 2 items, fields: [n]\nbytes: 17\nfield stats:\n  n: numeric present=2/2 min=1 max=3 mean=2.0000\n\nThe full output is held server-side"
        ),
        "{text}"
    );
    let text = told(&ingested_text("abc", b"hello"));
    assert!(
        text.starts_with("handle: abc\nsummary: text, 5 bytes\nbytes: 5\n\nThe full output"),
        "{text}"
    );
}

// ---------------------------------------------------------------------------
// Windows
// ---------------------------------------------------------------------------

#[test]
fn byte_window_defaults_to_full_payload() {
    let window = byte_window(b"abcdef", None, None);
    assert_eq!(window.start, 0);
    assert_eq!(window.end, 6);
    assert_eq!(window.total, 6);
    assert_eq!(window.bytes, b"abcdef");
}

#[test]
fn byte_window_applies_start_and_max_bytes() {
    let window = byte_window(b"abcdef", Some(2), Some(3));
    assert_eq!(window.start, 2);
    assert_eq!(window.end, 5);
    assert_eq!(window.total, 6);
    assert_eq!(window.bytes, b"cde");
}

#[test]
fn byte_window_clamps_out_of_range_start() {
    let window = byte_window(b"abc", Some(99), Some(10));
    assert_eq!(window.start, 3);
    assert_eq!(window.end, 3);
    assert_eq!(window.total, 3);
    assert_eq!(window.bytes, b"");
}

#[test]
fn adjoining_byte_windows_tile() {
    let bytes = b"0123456789";
    let mut all: Vec<u8> = Vec::new();
    for start in (0..12).step_by(4) {
        all.extend_from_slice(byte_window(bytes, Some(start), Some(4)).bytes);
    }
    assert_eq!(all, bytes);
    assert_eq!(byte_window(bytes, Some(3), Some(usize::MAX)).end, 10);
}

#[test]
fn render_full_payload_preserves_legacy_no_header_shape() {
    let limits = RetrieveLimits {
        default_bytes: 64,
        max_bytes: 64,
    };
    assert_eq!(
        render_retrieved_bytes(b"abcdef", None, None, false, limits).unwrap(),
        "abcdef"
    );
}

#[test]
fn render_window_includes_offsets_and_omission_counts() {
    let limits = RetrieveLimits {
        default_bytes: 64,
        max_bytes: 64,
    };
    assert_eq!(
        render_retrieved_bytes(b"abcdef", Some(1), Some(2), false, limits).unwrap(),
        "bytes 1..3 of 6 (1 before, 3 after)\nbc"
    );
}

#[test]
fn render_default_retrieve_is_bounded_window() {
    let limits = RetrieveLimits {
        default_bytes: 3,
        max_bytes: 10,
    };
    assert_eq!(
        render_retrieved_bytes(b"abcdef", None, None, false, limits).unwrap(),
        "bytes 0..3 of 6 (0 before, 3 after)\nabc"
    );
}

#[test]
fn render_full_retrieve_requires_payload_under_hard_cap() {
    let limits = RetrieveLimits {
        default_bytes: 3,
        max_bytes: 6,
    };
    assert_eq!(
        render_retrieved_bytes(b"abcdef", None, None, true, limits).unwrap(),
        "abcdef"
    );
    let err = render_retrieved_bytes(b"abcdefg", None, None, true, limits).unwrap_err();
    assert!(err.contains("COFFER_MCP_MAX_RETRIEVE_BYTES=6"), "{err}");
}

#[test]
fn render_rejects_window_over_hard_cap() {
    let limits = RetrieveLimits {
        default_bytes: 3,
        max_bytes: 4,
    };
    let err = render_retrieved_bytes(b"abcdef", Some(0), Some(5), false, limits).unwrap_err();
    assert_eq!(
        err,
        "requested max_bytes=5 exceeds COFFER_MCP_MAX_RETRIEVE_BYTES=4"
    );
}

#[test]
fn render_full_rejects_window_arguments() {
    let limits = RetrieveLimits {
        default_bytes: 3,
        max_bytes: 10,
    };
    let err = render_retrieved_bytes(b"abcdef", Some(1), None, true, limits).unwrap_err();
    assert_eq!(err, "full=true cannot be combined with start or max_bytes");
}

#[test]
fn bytes_that_are_no_text_are_shown_lossily() {
    let limits = RetrieveLimits {
        default_bytes: 64,
        max_bytes: 64,
    };
    assert_eq!(
        render_retrieved_bytes(b"a\xffb", None, None, true, limits).unwrap(),
        "a\u{fffd}b"
    );
}

#[test]
fn render_json_rows_returns_a_small_window_with_offsets() {
    let rows = br#"[{"id":0},{"id":1},{"id":2},{"id":3}]"#;
    let got = render_json_rows(rows, Some(1), Some(2), DEFAULT_MAX_ROWS).unwrap();
    assert!(got.starts_with("rows 1..3 of 4 (1 before, 1 after)\n"));
    assert!(got.contains(r#""id": 1"#), "{got}");
    assert!(got.contains(r#""id": 2"#), "{got}");
    assert!(!got.contains(r#""id": 0"#), "{got}");
    assert!(!got.contains(r#""id": 3"#), "{got}");
}

#[test]
fn render_json_rows_rejects_non_arrays() {
    let err = render_json_rows(br#"{"id":1}"#, None, None, DEFAULT_MAX_ROWS).unwrap_err();
    assert_eq!(err, "held data is JSON but not an array");
    let err = render_json_rows(b"[1,", None, None, DEFAULT_MAX_ROWS).unwrap_err();
    assert_eq!(
        err,
        "not valid JSON: EOF while parsing a value at line 1 column 3"
    );
}

#[test]
fn render_json_rows_clamps_oversized_limit_to_max_rows() {
    // A 50-element array with a deliberately huge requested limit: the page must be clamped to
    // max_rows so coffer_rows cannot re-bloat the model context, while `total` still reports 50.
    let items: Vec<String> = (0..50).map(|i| format!(r#"{{"id":{i}}}"#)).collect();
    let array = format!("[{}]", items.join(","));
    let got = render_json_rows(array.as_bytes(), None, Some(usize::MAX), 10).unwrap();
    assert!(
        got.starts_with("rows 0..10 of 50 (0 before, 40 after)\n"),
        "{got}"
    );
    assert!(got.contains(r#""id": 9"#), "{got}");
    assert!(!got.contains(r#""id": 10"#), "{got}");
    let got = render_json_rows(array.as_bytes(), Some(49), Some(5), 0).unwrap();
    assert_eq!(
        got,
        "rows 49..50 of 50 (49 before, 0 after)\n[\n  {\n    \"id\": 49\n  }\n]"
    );
}

#[test]
fn render_json_path_selects_nested_value() {
    let json = br#"{"items":[{"name":"alpha"},{"name":"beta"}],"count":2}"#;
    let got = render_json_path(json, "$.items[1].name").unwrap();
    assert_eq!(got, "json path $.items[1].name\n\"beta\"");
}

#[test]
fn render_json_path_reports_missing_field() {
    let err = render_json_path(br#"{"items":[]}"#, "$.missing").unwrap_err();
    assert_eq!(err, "path field not found: missing");
}

#[test]
fn render_json_path_reports_each_fault() {
    let json = br#"{"items":[1,2],"name":"n"}"#;
    let err = |path: &str| render_json_path(json, path).unwrap_err();
    assert_eq!(err("$."), "empty field in JSON path");
    assert_eq!(err(".name.x"), "path field x needs an object");
    assert_eq!(err(".items[0"), "unterminated array index in JSON path");
    assert_eq!(err(".items[one]"), "invalid array index: one");
    assert_eq!(err(".items[]"), "invalid array index: ");
    assert_eq!(err(".name[0]"), "array index 0 needs an array");
    assert_eq!(err(".items[2]"), "array index out of range: 2");
    assert_eq!(err("items"), "JSON path must use .field and [index] steps");
    assert_eq!(
        render_json_path(b"nope", "$").unwrap_err(),
        "not valid JSON: expected ident at line 1 column 2"
    );
    assert_eq!(
        render_json_path(b"[1]", " $ ").unwrap(),
        "json path  $ \n[\n  1\n]"
    );
    assert_eq!(render_json_path(json, ".items[+1]").unwrap(), "json path .items[+1]\n2");
}

#[test]
fn render_text_lines_returns_numbered_range() {
    let got = render_text_lines(b"one\ntwo\nthree\nfour\n", Some(2), Some(3), None, None).unwrap();
    assert_eq!(
        got,
        "lines 2..3 of 4 (1 before, 1 after)\n     2|two\n     3|three"
    );
}

#[test]
fn render_text_lines_returns_tail() {
    let got = render_text_lines(b"one\ntwo\nthree\nfour\n", None, None, None, Some(2)).unwrap();
    assert_eq!(
        got,
        "lines 3..4 of 4 (2 before, 0 after)\n     3|three\n     4|four"
    );
}

#[test]
fn render_text_lines_rejects_conflicting_selectors() {
    let err = render_text_lines(b"one\n", Some(1), None, Some(1), None).unwrap_err();
    assert_eq!(err, "choose head/tail or start_line/end_line, not both");
    let err = render_text_lines(b"one\n", None, None, Some(1), Some(1)).unwrap_err();
    assert_eq!(err, "choose either head or tail, not both");
}

#[test]
fn render_text_lines_handles_the_edges() {
    let text = b"one\ntwo\n";
    let show = |s, e, h, t| render_text_lines(text, s, e, h, t).unwrap();
    assert_eq!(
        show(None, None, Some(1), None),
        "lines 1..1 of 2 (0 before, 1 after)\n     1|one"
    );
    assert_eq!(
        show(Some(0), None, None, None),
        "lines 1..2 of 2 (0 before, 0 after)\n     1|one\n     2|two"
    );
    assert_eq!(
        show(Some(9), None, None, None),
        "lines 2..2 of 2 (2 before, 0 after)\n"
    );
    assert_eq!(
        show(Some(2), Some(1), None, None),
        "lines 1..1 of 2 (1 before, 1 after)\n"
    );
    assert_eq!(
        show(None, None, None, Some(99)),
        "lines 1..2 of 2 (0 before, 0 after)\n     1|one\n     2|two"
    );
    let many: String = (1..=200).map(|i| format!("l{i}\n")).collect();
    let got = render_text_lines(many.as_bytes(), None, None, None, None).unwrap();
    assert!(got.starts_with("lines 1..80 of 200 (0 before, 120 after)\n"));
    assert!(got.ends_with("    80|l80"));
}

#[test]
fn render_text_search_returns_matching_line_numbers() {
    let got = render_text_search(b"INFO start\nError failed\ninfo retry\n", "error", None).unwrap();
    assert_eq!(
        got,
        "1 matches for \"error\" in 3 lines (showing 1, 0 omitted)\n     2|Error failed"
    );
}

#[test]
fn render_text_search_limits_and_reports_omitted_matches() {
    let got = render_text_search(b"error a\nok\nerror b\nerror c\n", "error", Some(2)).unwrap();
    assert_eq!(
        got,
        "3 matches for \"error\" in 4 lines (showing 2, 1 omitted)\n     1|error a\n     3|error b"
    );
}

#[test]
fn render_text_search_reports_no_matches() {
    let got = render_text_search(b"alpha\nbeta\n", "gamma", None).unwrap();
    assert_eq!(got, "0 matches for \"gamma\" in 2 lines");
    assert_eq!(
        render_text_search(b"alpha\n", "", None).unwrap_err(),
        "pattern must not be empty"
    );
}

// ---------------------------------------------------------------------------
// Settings
// ---------------------------------------------------------------------------

#[test]
fn positive_usize_parser_ignores_zero_or_bad_values() {
    assert_eq!(positive_usize_from_value(Some("1")), Some(1));
    assert_eq!(positive_usize_from_value(Some(" 4096 ")), Some(4096));
    assert_eq!(positive_usize_from_value(Some("0")), None);
    assert_eq!(positive_usize_from_value(Some("bad")), None);
    assert_eq!(positive_usize_from_value(None), None);
}

#[test]
fn numbers_are_read_as_the_standard_parser_does() {
    for raw in [
        "", "+", "-", "+0", "+7", "-1", "007", "1_000", "18446744073709551615",
        "18446744073709551616", "99999999999999999999999", "1 2", "\u{661}", "0x10", "1.0",
    ] {
        let wanted = raw.parse::<u64>().ok().filter(|v| *v > 0);
        assert_eq!(positive_u64_from_value(Some(raw)), wanted, "{raw:?}");
    }
}

#[test]
fn run_policy_disabled_by_default_and_enables_on_truthy() {
    // Off unless explicitly enabled — the kill-switch.
    assert!(run_policy_from_values(None, None).permits("ls").is_err());
    assert!(run_policy_from_values(Some("0"), None)
        .permits("ls")
        .is_err());
    assert!(run_policy_from_values(Some("false"), None)
        .permits("ls")
        .is_err());
    assert!(run_policy_from_values(Some("1"), None)
        .permits("ls")
        .is_ok());
    assert!(run_policy_from_values(Some("YES"), None)
        .permits("anything goes")
        .is_ok());
    assert!(truthy(Some(" On ")) && truthy(Some("true")) && !truthy(Some("y")));
}

#[test]
fn run_policy_allowlist_restricts_to_prefixes() {
    let p = run_policy_from_values(Some("1"), Some("kubectl, git "));
    assert!(p.permits("kubectl get pods").is_ok());
    assert!(p.permits("  git status").is_ok()); // leading whitespace trimmed before matching
    assert!(p.permits("rm -rf /").is_err()); // not on the allowlist
    assert!(p.permits("github --help").is_err()); // prefix must end at a word boundary
    assert!(p.permits("git status; cat ~/.ssh/id_rsa").is_err());
    assert!(p.permits("git status && cat ~/.ssh/id_rsa").is_err());
    assert!(p.permits("git status | cat").is_err());
    let subcommand = run_policy_from_values(Some("1"), Some("git status"));
    assert!(subcommand.permits("git status --short").is_ok());
    assert!(subcommand.permits("git statusx").is_err());
    // an allowlist that is only separators/space imposes no restriction (enabled still required)
    let empty = run_policy_from_values(Some("1"), Some(" , "));
    assert!(empty.permits("rm -rf /").is_ok());
    // allowlist without enable is still refused (enable is the primary guard)
    assert!(run_policy_from_values(None, Some("kubectl"))
        .permits("kubectl get pods")
        .is_err());
}

#[test]
fn run_policy_says_why() {
    let p = run_policy_from_values(Some("1"), Some("kubectl,git"));
    assert_eq!(
        p.permits("rm x").unwrap_err(),
        "command refused: COFFER_MCP_RUN_ALLOWLIST permits only commands beginning with one of [kubectl, git]"
    );
    assert_eq!(
        p.permits("git a > b").unwrap_err(),
        "command refused: COFFER_MCP_RUN_ALLOWLIST accepts only simple command lines; shell control syntax is not allowed"
    );
    assert!(p.permits("git\tstatus").is_ok());
    assert!(p.permits("git").is_ok());
}

#[test]
fn run_limit_parser_uses_defaults_and_positive_overrides() {
    assert_eq!(
        run_limits_from_values(Some("7"), Some("2")),
        RunLimits {
            timeout_seconds: 7,
            max_output_bytes: 2 * MIB,
        }
    );
    assert_eq!(
        run_limits_from_values(Some("0"), Some("bad")),
        RunLimits {
            timeout_seconds: DEFAULT_RUN_TIMEOUT_SECONDS,
            max_output_bytes: DEFAULT_MAX_RUN_OUTPUT_BYTES,
        }
    );
    assert_eq!(
        run_limits_from_values(None, Some("18446744073709551615")).max_output_bytes,
        usize::MAX
    );
}

#[test]
fn retrieve_limits_parser_uses_defaults_and_caps_default_to_max() {
    assert_eq!(
        retrieve_limits_from_values(None, None),
        RetrieveLimits {
            default_bytes: 64 * 1024,
            max_bytes: 1024 * 1024
        }
    );
    assert_eq!(
        retrieve_limits_from_values(Some("20"), Some("10")),
        RetrieveLimits {
            default_bytes: 10,
            max_bytes: 10
        }
    );
    assert_eq!(
        retrieve_limits_from_values(Some("bad"), Some("30")),
        RetrieveLimits {
            default_bytes: 30,
            max_bytes: 30
        }
    );
}

#[test]
fn the_other_settings_have_defaults() {
    assert_eq!(max_rows_from_value(None), 200);
    assert_eq!(max_rows_from_value(Some("0")), 200);
    assert_eq!(max_rows_from_value(Some("5")), 5);
    assert_eq!(dataset_cache_entries_from_value(None), 8);
    assert_eq!(dataset_cache_entries_from_value(Some("x")), 8);
    assert_eq!(dataset_cache_entries_from_value(Some(" 0 ")), 0);
}

// ---------------------------------------------------------------------------
// Commands
// ---------------------------------------------------------------------------

#[test]
fn run_shell_command_times_out_and_returns_partial_capture() {
    let limits = RunLimits {
        timeout_seconds: 1,
        max_output_bytes: 1024,
    };
    let mut capture = RunCapture::new();
    assert_eq!(
        capture.step(RunEvent::Output(b"before".to_vec()), limits),
        RunAction::Read
    );
    assert_eq!(capture.step(RunEvent::TimedOut, limits), RunAction::Kill);
    assert!(matches!(capture.end, Some(RunEnd::TimedOut)));
    assert_eq!(String::from_utf8_lossy(&capture.bytes), "before");
    assert_eq!(
        run_text(&capture, limits, "TOLD"),
        "command timed out after 1 seconds; captured 6 bytes before termination (partial output)\nTOLD"
    );
}

#[test]
fn run_shell_command_enforces_output_cap() {
    let limits = RunLimits {
        timeout_seconds: 10,
        max_output_bytes: 64,
    };
    let mut capture = RunCapture::new();
    let mut action = RunAction::Read;
    let mut pieces = 0;
    while action == RunAction::Read {
        action = capture.step(RunEvent::Output(b"0123456789".to_vec()), limits);
        pieces += 1;
    }
    assert_eq!(action, RunAction::Kill);
    assert_eq!(pieces, 7);
    assert!(matches!(capture.end, Some(RunEnd::OutputLimit)));
    assert_eq!(capture.bytes.len(), 64);
    assert_eq!(&capture.bytes[60..], b"0123");
    assert_eq!(
        run_text(&capture, limits, "TOLD"),
        "command output exceeded COFFER_MCP_MAX_RUN_OUTPUT_MB-derived limit (64 bytes); captured first 64 bytes and terminated the process (partial output)\nTOLD"
    );
}

#[test]
fn a_command_that_ends_is_told_by_its_status() {
    let limits = run_limits_from_values(None, None);
    let mut capture = RunCapture::new();
    assert_eq!(
        run_text(&capture, limits, "TOLD"),
        "command ended without an exit status\nTOLD"
    );
    assert_eq!(
        capture.step(RunEvent::Output(b"out".to_vec()), limits),
        RunAction::Read
    );
    assert_eq!(
        capture.step(RunEvent::Output(Vec::new()), limits),
        RunAction::Wait
    );
    assert_eq!(
        capture.step(RunEvent::Exited(false, "exit status: 2".to_string()), limits),
        RunAction::Finished
    );
    assert_eq!(
        run_text(&capture, limits, "TOLD"),
        "command exited exit status: 2\nTOLD"
    );
    capture.step(RunEvent::Exited(true, "exit status: 0".to_string()), limits);
    assert_eq!(run_text(&capture, limits, "TOLD"), "TOLD");
    assert_eq!(shell_line("ls -l"), "exec 2>&1; ls -l");
}

// ---------------------------------------------------------------------------
// Arguments
// ---------------------------------------------------------------------------

#[test]
fn arguments_are_read_by_name_or_sign() {
    assert_eq!(parse_op("ne"), Op::Ne);
    assert_eq!(parse_op("!="), Op::Ne);
    assert_eq!(parse_op("gt"), Op::Gt);
    assert_eq!(parse_op(">="), Op::Ge);
    assert_eq!(parse_op("<"), Op::Lt);
    assert_eq!(parse_op("le"), Op::Le);
    assert_eq!(parse_op("anything"), Op::Eq);
    assert_eq!(parse_agg("count", None), Some(Agg::Count));
    assert_eq!(
        parse_agg("avg", Some("x")),
        Some(Agg::Mean("x".to_string()))
    );
    assert_eq!(parse_agg("sum", None), None);
    assert_eq!(parse_agg("median", Some("x")), None);
    assert_eq!(parse_value_arg("17"), Json::Number("17".to_string()));
    assert_eq!(parse_value_arg("error"), Json::Text("error".to_string()));
    assert_eq!(
        parse_value_arg("\"17\""),
        Json::Text("17".to_string())
    );
}

// ---------------------------------------------------------------------------
// Requests
// ---------------------------------------------------------------------------

#[test]
fn coffer_select_chains_handles_server_side() {
    let mut server = Server::in_memory();
    let row = |i: usize| {
        format!(
            r#"{{"a":{i},"status":"{}"}}"#,
            if i % 2 == 0 { "error" } else { "ok" }
        )
    };
    let input = rows_json(20, row);
    let handle = server.put_bytes(&input);

    // select a > 10 → a NEW handle (the derived subset lives in the shared CAS).
    let held = server.get_handle(&handle);
    let r1 = told(&left(coffer_select(
        &mut server.cas,
        held.as_deref(),
        &[arg("a", "gt", "10")],
    )));
    let h1 = handle_of(&r1);

    // chain: select status == "error" on the DERIVED handle, server-side.
    let held = server.get_handle(&h1);
    let r2 = told(&left(coffer_select(
        &mut server.cas,
        held.as_deref(),
        &[arg("status", "eq", "error")],
    )));
    let h2 = handle_of(&r2);

    // the chained handle equals applying both predicates at once (composition holds across handles).
    let got = server.get_handle(&h2).unwrap();
    let want: Vec<String> = (0..20).filter(|i| *i > 10 && i % 2 == 0).map(row).collect();
    assert_eq!(got, format!("[{}]", want.join(",")).into_bytes());
    // a > 10 and even: 12, 14, 16, 18 → 4 rows.
    assert_eq!(want.len(), 4);
    assert_eq!(
        refused(coffer_select(&mut server.cas, Some(b"{}"), &[])),
        "coffer_select needs a handle over a top-level JSON array"
    );
}

fn described(lines: &coffer::describe::Description) -> String {
    let totals: Vec<Totals> = lines
        .lines
        .iter()
        .map(|line| match line {
            DescribeLine::Text(_) => Totals {
                mean: String::new(),
                sum: String::new(),
            },
            DescribeLine::Numeric { values, .. } => Totals {
                mean: format!("{}", mean(values)),
                sum: format!("{}", sum(values)),
            },
        })
        .collect();
    lines.finish(&totals)
}

#[test]
fn coffer_describe_summarizes_a_records_handle() {
    let mut server = Server::in_memory();
    let input = rows_json(20, |i| {
        format!(
            r#"{{"v":{i},"status":"{}"}}"#,
            if i % 4 == 0 { "error" } else { "ok" }
        )
    });
    let handle = server.put_bytes(&input);

    let t = described(&left(coffer_describe(
        &mut server.cache,
        &handle,
        Some(&input),
    )));
    assert!(t.contains("20 records"), "{t}");
    assert!(t.contains("sum=190"), "{t}"); // 0+1+..+19
    assert!(
        t.contains(r#""error":5"#) && t.contains(r#""ok":15"#),
        "{t}"
    ); // exact count-by

    // non-array handle is refused.
    let h2 = server.put_bytes(b"not json");
    assert_eq!(
        refused(coffer_describe(&mut server.cache, &h2, Some(b"not json"))),
        "coffer_describe needs a handle over a JSON array of records"
    );
}

fn bucket(
    server: &mut Server,
    handle: &str,
    held: &[u8],
    width: f64,
) -> Result<String, String> {
    let args = BucketArgs {
        field: "latency_ms".to_string(),
        width: width.to_bits(),
        agg: None,
        value_field: None,
    };
    let banding = match coffer_bucket(&mut server.cache, handle, Some(held), &args) {
        Asked::Left(b) => b,
        Asked::Reply(r) => return Err(r.text),
    };
    let lows: Vec<Option<Low>> = banding
        .values
        .iter()
        .map(|v| {
            v.map(|bits| {
                let low = (f64::from_bits(bits) / width).floor() * width;
                Low {
                    bits: low.to_bits(),
                    key: format!("{low}"),
                }
            })
        })
        .collect();
    match banding.bands("latency_ms", &format!("{width}"), &lows) {
        Asked::Left(plan) => Ok(groups_text(plan).text),
        Asked::Reply(r) => Err(r.text),
    }
}

#[test]
fn coffer_bucket_and_window_histograms_wire_through() {
    let mut server = Server::in_memory();
    // latencies 0,50,100,…,450 → width-100 bands: [0,2) [100,2) [200,2) [300,2) [400,2).
    let input = rows_json(10, |i| format!(r#"{{"latency_ms":{}}}"#, i * 50));
    let handle = server.put_bytes(&input);
    let r = bucket(&mut server, &handle, &input, 100.0).unwrap();
    // Five bands, each with two rows.
    assert_eq!(r.matches('→').count(), 5, "{r}");
    assert!(r.contains("  200 → 2 (2 rows)\n"), "{r}");

    // width <= 0 refuses rather than guessing.
    let bad = bucket(&mut server, &handle, &input, 0.0).unwrap_err();
    assert!(bad.starts_with("no exact histogram"), "{bad}");
    assert!(bucket(&mut server, &handle, &input, -1.0).is_err());
    assert!(bucket(&mut server, &handle, &input, f64::NAN).is_err());
    assert!(bucket(&mut server, &handle, &input, f64::INFINITY).is_err());

    // Windowed log histogram: 2 ERROR lines, one per 2-line block.
    let log = b"INFO ok\nERROR boom\nINFO ok\nERROR again\nINFO fine\n";
    let w = groups_text(left(coffer_window(Some(log), "error", 2))).text;
    assert_eq!(w.matches('→').count(), 2, "{w}");
    assert_eq!(
        refused(coffer_window(Some(log), "error", 0)),
        "no histogram: window must be >= 1 and pattern must be non-empty"
    );
}

#[test]
fn coffer_join_semi_join_and_project_group() {
    let mut server = Server::in_memory();
    let orders = br#"[{"customer_id":1,"amount":100},{"customer_id":2,"amount":50},{"customer_id":1,"amount":25},{"customer_id":3,"amount":999}]"#;
    let customers = br#"[{"id":1,"tier":"gold","region":"us"},{"id":2,"tier":"silver","region":"us"},{"id":3,"tier":"gold","region":"eu"}]"#;
    let args = |right_where: Vec<PredicateArg>, group_by: Option<&str>| JoinArgs {
        left: ContentHash::of(orders).as_str().to_string(),
        right: ContentHash::of(customers).as_str().to_string(),
        left_key: "customer_id".to_string(),
        right_key: "id".to_string(),
        agg: Some("sum".to_string()),
        field: Some("amount".to_string()),
        right_where,
        group_by: group_by.map(str::to_string),
    };

    // sum order.amount for orders whose customer is gold-tier → customers 1,3 → 100+25+999 = 1124.
    let r = match left(coffer_join(
        &mut server.cache,
        Some(orders),
        Some(customers),
        &args(vec![arg("tier", "eq", "gold")], None),
    )) {
        Joined::Rows(plan) => join_reply(&result_of(plan).1),
        Joined::Groups(_) => panic!("no groups were asked for"),
    };
    assert!(r.ok);
    assert!(r.text.contains("1124"), "{}", r.text);
    assert!(
        r.text.contains("joined LEFT row indices: [0, 2, 3]"),
        "{}",
        r.text
    );

    // project-join group-by: revenue BY customer.region → us 100+50+25=175, eu 999.
    let g = match left(coffer_join(
        &mut server.cache,
        Some(orders),
        Some(customers),
        &args(vec![], Some("region")),
    )) {
        Joined::Groups(plan) => groups_text(plan),
        Joined::Rows(_) => panic!("groups were asked for"),
    };
    assert!(g.ok);
    assert!(
        g.text.contains("175") && g.text.contains("999"),
        "{}",
        g.text
    );

    // an empty group_by is none; a handle that is no array refuses.
    assert!(matches!(
        left(coffer_join(
            &mut server.cache,
            Some(orders),
            Some(customers),
            &args(vec![], Some(""))
        )),
        Joined::Rows(_)
    ));
    let other = JoinArgs {
        right: "other".to_string(),
        ..args(vec![], None)
    };
    assert_eq!(
        refused(coffer_join(
            &mut server.cache,
            Some(orders),
            Some(b"{}"),
            &other
        )),
        "no exact join: both handles must be JSON arrays"
    );
    let unknown = JoinArgs {
        agg: Some("median".to_string()),
        ..args(vec![], None)
    };
    assert_eq!(
        refused(coffer_join(
            &mut server.cache,
            Some(orders),
            Some(customers),
            &unknown
        )),
        "agg must be count|sum|mean|min|max, and sum/mean/min/max require a field"
    );
    assert!(refused(coffer_join(
        &mut server.cache,
        Some(orders),
        None,
        &args(vec![], None)
    ))
    .starts_with("unknown handle"));
}

#[test]
fn a_join_that_cannot_be_exact_is_refused() {
    let mut cache = DatasetCache::new(2);
    let lefts = br#"[{"k":1,"v":"x"}]"#;
    let rights = br#"[{"id":1,"g":"a"},{"id":1,"g":"b"}]"#;
    let args = |group_by: Option<&str>| JoinArgs {
        left: "l".to_string(),
        right: "r".to_string(),
        left_key: "k".to_string(),
        right_key: "id".to_string(),
        agg: Some("sum".to_string()),
        field: Some("v".to_string()),
        right_where: vec![],
        group_by: group_by.map(str::to_string),
    };
    assert!(refused(coffer_join(&mut cache, Some(lefts), Some(rights), &args(None)))
        .starts_with("no exact semi-join"));
    assert!(refused(coffer_join(
        &mut cache,
        Some(lefts),
        Some(rights),
        &args(Some("g"))
    ))
    .starts_with("no exact project-join"));
}

#[test]
fn coffer_check_claim_agrees_and_disagrees() {
    let mut server = Server::in_memory();
    let input = br#"[{"status":"ok"},{"status":"error"},{"status":"error"}]"#;
    let handle = server.put_bytes(input);
    let args = AggregateArgs {
        predicates: vec![arg("status", "eq", "error")],
        agg: "count".to_string(),
        field: None,
    };
    let mut check = |expected: f64| {
        let (value, result) = result_of(left(coffer_check_claim(
            &mut server.cache,
            &handle,
            Some(input),
            &args,
        )));
        let agree = (value - expected).abs() <= 1e-9 + 1e-9 * value.abs();
        claim_reply(
            agree,
            &format!("{expected}"),
            &format!("{value}"),
            &result.matched,
        )
    };

    // The true count of error rows is 2.
    let agree = check(2.0);
    assert!(agree.ok && agree.text.starts_with("AGREE"), "{}", agree.text);
    assert!(agree.text.contains("provenance row indices: [1, 2]"));

    let disagree = check(9.0);
    assert!(
        disagree.text.contains("DISAGREE") && disagree.text.contains("exact value: 2"),
        "{}",
        disagree.text
    );
    assert!(refused(coffer_check_claim(
        &mut server.cache,
        "t",
        Some(b"text"),
        &args
    ))
    .starts_with("cannot check:"));
}

#[test]
fn coffer_receipt_round_trips_and_detects_tamper() {
    let rows = br#"[{"status":"ok","cost":10},{"status":"error","cost":40},{"status":"error","cost":60}]"#;
    let args = AggregateArgs {
        predicates: vec![arg("status", "eq", "error")],
        agg: "sum".to_string(),
        field: Some("cost".to_string()),
    };
    // Issue a receipt for sum(cost) where status == error (= 100).
    let plan = left(coffer_receipt(Some(rows), &args));
    let value = value_of(&plan.reduction);
    assert_eq!(value, 100.0);
    let receipt = plan.finish(value.to_bits());

    let check = |bytes: &[u8]| {
        let recheck = verify_receipt(&receipt, bytes);
        let actual = match &recheck {
            coffer::receipt::Recheck::Compare { reduction, .. } => value_of(reduction),
            coffer::receipt::Recheck::Decided(_) => 0.0,
        };
        let close = (actual - value).abs() <= 1e-9 + 1e-9 * value.abs();
        let verdict = recheck.finish(receipt.value, actual.to_bits(), close);
        verdict_reply(verdict, &format!("{value}"), &format!("{actual}"))
    };
    // Verify against the original data -> VALID.
    assert!(check(rows).text.starts_with("VALID"));

    // Verify the SAME receipt against tampered data -> VALUE_MISMATCH.
    let tampered = br#"[{"status":"ok","cost":10},{"status":"error","cost":999},{"status":"error","cost":60}]"#;
    assert_eq!(
        check(tampered).text,
        "VALUE_MISMATCH — the receipt attests 100, but the data now yields 1059."
    );
    assert!(check(b"not json").text.starts_with("REFUSED"));
    assert!(refused(coffer_receipt(Some(b"not json"), &args)).starts_with("no receipt:"));
}

#[test]
fn coffer_aggregate_reports_value_and_provenance() {
    let mut server = Server::in_memory();
    let input = rows_json(10, |i| format!(r#"{{"a":{i},"b":{}}}"#, i * 2));
    let handle = server.put_bytes(&input);

    // sum b where a >= 7  -> rows 7,8,9 -> b = 14+16+18 = 48
    let args = AggregateArgs {
        predicates: vec![arg("a", "ge", "7")],
        agg: "sum".to_string(),
        field: Some("b".to_string()),
    };
    let (_, result) = result_of(left(coffer_aggregate(
        &mut server.cache,
        &handle,
        Some(&input),
        &args,
    )));
    let text = aggregate_reply(&result).text;
    assert!(text.contains("= 48"), "{text}");
    // provenance indices (7,8,9) are reported so they can feed coffer_pick.
    assert!(text.contains("provenance row indices: [7, 8, 9]"), "{text}");

    // a non-numeric aggregated field refuses rather than guessing.
    let strs = br#"[{"a":1,"b":"x"}]"#;
    let h2 = server.put_bytes(strs);
    let args = AggregateArgs {
        predicates: vec![],
        agg: "sum".to_string(),
        field: Some("b".to_string()),
    };
    assert!(
        refused(coffer_aggregate(&mut server.cache, &h2, Some(strs), &args))
            .starts_with("no exact aggregate")
    );
}

#[test]
fn coffer_aggregate_wiring_edges_and_pick_roundtrip() {
    let mut server = Server::in_memory();
    let row = |i: usize| format!(r#"{{"a":{i}}}"#);
    let input = rows_json(6, row);
    let handle = server.put_bytes(&input);
    let agg = |op: &str, field: Option<&str>| AggregateArgs {
        predicates: vec![arg("a", "ge", "3")],
        agg: op.to_string(),
        field: field.map(str::to_string),
    };

    // sum/mean/min/max WITHOUT a field error (never silently count); unknown agg errors.
    for op in ["sum", "mean", "min", "max", "bogus"] {
        refused(coffer_aggregate(
            &mut server.cache,
            &handle,
            Some(&input),
            &agg(op, None),
        ));
    }
    // count needs no field.
    left(coffer_aggregate(
        &mut server.cache,
        &handle,
        Some(&input),
        &agg("count", None),
    ));

    // "avg" aliases mean: mean of a in {3,4,5} = 4.
    let (_, m) = result_of(left(coffer_aggregate(
        &mut server.cache,
        &handle,
        Some(&input),
        &agg("avg", Some("a")),
    )));
    assert!(aggregate_reply(&m).text.contains("= 4"), "{}", m.display);

    // provenance round-trip: the reported indices, fed to coffer_pick, return exactly those rows.
    let (_, prov) = result_of(left(coffer_aggregate(
        &mut server.cache,
        &handle,
        Some(&input),
        &agg("count", None),
    )));
    let text = aggregate_reply(&prov).text;
    assert!(text.contains("provenance row indices: [3, 4, 5]"), "{text}");
    let picked = told(&left(coffer_pick(
        &mut server.cas,
        Some(&input),
        &[3, 4, 5],
    )));
    let bytes = server.get_handle(&handle_of(&picked)).unwrap();
    assert_eq!(
        bytes,
        format!("[{},{},{}]", row(3), row(4), row(5)).into_bytes()
    );
}

#[test]
fn coffer_pick_pulls_provenance_rows() {
    let mut server = Server::in_memory();
    let row = |i: usize| format!(r#"{{"id":{i},"v":{}}}"#, i * 10);
    let input = rows_json(6, row);

    // pull records 1 and 4 (e.g. a digest's provenance), as a NEW handle.
    let r = told(&left(coffer_pick(&mut server.cas, Some(&input), &[1, 4])));
    let picked = server.get_handle(&handle_of(&r)).unwrap();
    assert_eq!(picked, format!("[{},{}]", row(1), row(4)).into_bytes());
    assert_eq!(
        refused(coffer_pick(&mut server.cas, Some(&input), &[6])),
        "coffer_pick needs a JSON-array handle and in-range indices"
    );
}

#[test]
fn long_lists_are_cut() {
    let mut server = Server::in_memory();
    let input = rows_json(100, |i| format!(r#"{{"a":{i}}}"#));
    let args = AggregateArgs {
        predicates: vec![],
        agg: "count".to_string(),
        field: None,
    };
    let (_, r) = result_of(left(coffer_aggregate(
        &mut server.cache,
        "h",
        Some(&input),
        &args,
    )));
    let text = aggregate_reply(&r).text;
    assert!(text.contains(", 62, 63] … (100 total)\n"), "{text}");
    let log: String = (0..100).map(|_| "hit\n").collect();
    let w = groups_text(left(coffer_window(Some(log.as_bytes()), "hit", 1))).text;
    assert_eq!(w.matches('→').count(), 64);
    assert!(w.contains("  … (100 groups total)\n"), "{w}");
}

#[test]
fn coffer_digest_answers_or_refuses() {
    let mut server = Server::in_memory();
    let input = rows_json(5, |i| format!(r#"{{"n":{i}}}"#));
    let d = left(coffer_digest(
        &mut server.cache,
        "h",
        Some(&input),
        "how many records are there",
    ));
    assert!(matches!(d, Digest::Line(_)));
    let r = digest_reply(&d.finish("").unwrap());
    assert!(r.ok);
    assert_eq!(
        r.text,
        "[index] count over 5 records = 5  (computed exactly over the whole dataset)"
    );
    assert_eq!(
        refused(coffer_digest(&mut server.cache, "h", Some(&input), "why?")),
        "no deterministic aggregate matched this query over this data"
    );
}

#[test]
fn requests_with_unknown_handles_say_so() {
    let mut server = Server::in_memory();
    let limits = retrieve_limits_from_values(None, None);
    let unknown = "unknown handle or sentinel hash prefix (ingest/run it first, or use a prefix from a shared-CAS <<cof:...>> sentinel)";
    let args = AggregateArgs {
        predicates: vec![],
        agg: "count".to_string(),
        field: None,
    };
    assert_eq!(refused(coffer_digest(&mut server.cache, "h", None, "q")), unknown);
    assert_eq!(refused(coffer_describe(&mut server.cache, "h", None)), unknown);
    assert_eq!(refused(coffer_aggregate(&mut server.cache, "h", None, &args)), unknown);
    assert_eq!(refused(coffer_receipt(None, &args)), unknown);
    assert_eq!(refused(coffer_window(None, "p", 1)), unknown);
    assert_eq!(refused(coffer_select(&mut server.cas, None, &[])), unknown);
    assert_eq!(refused(coffer_pick(&mut server.cas, None, &[])), unknown);
    assert_eq!(coffer_query(&mut server.cas, None, "f", "eq", "1").text, unknown);
    assert_eq!(coffer_rows(None, None, None, 5).text, unknown);
    assert_eq!(coffer_json(None, "$").text, unknown);
    assert_eq!(coffer_lines(None, None, None, None, None).text, unknown);
    assert_eq!(coffer_search(None, "p", None).text, unknown);
    assert_eq!(coffer_retrieve(None, None, None, false, limits).text, unknown);
}

#[test]
fn window_requests_pass_through() {
    let limits = retrieve_limits_from_values(None, None);
    let r = coffer_rows(Some(b"[1]"), None, None, 5);
    assert!(r.ok);
    assert_eq!(r.text, "rows 0..1 of 1 (0 before, 0 after)\n[\n  1\n]");
    assert!(!coffer_rows(Some(b"1"), None, None, 5).ok);
    assert_eq!(coffer_json(Some(b"[1]"), "[0]").text, "json path [0]\n1");
    assert!(coffer_lines(Some(b"a\n"), None, None, None, None).ok);
    assert!(!coffer_search(Some(b"a\n"), "", None).ok);
    assert_eq!(
        coffer_retrieve(Some(b"abc"), None, None, false, limits).text,
        "abc"
    );
}
