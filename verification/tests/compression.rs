//! Compression: what is kept, what is offloaded, and how it comes back.
use std::cell::Cell;
use std::ops::Range;

use coffer::attest::attest;
use coffer::budget::{
    compress_to_budget, search_keep_count_bisection, search_keep_count_interpolated, Budget, Probe,
};
use coffer::cas::{Cas, MemoryCas};
use coffer::charmodel::CharModel;
use coffer::compress::{compress, offload_whole_any_min, summarize_json, MIN_COMPRESS_BYTES};
use coffer::compressor::{CompressError, Compressor};
use coffer::detect::{detect, detect_with_value, ContentType};
use coffer::doc::{CompressedDoc, ReconstructError, Segment};
use coffer::emit::emit_kept;
use coffer::eval::Rng;
use coffer::hash::ContentHash;
use coffer::json::Json;
use coffer::op::Op;
use coffer::reduction::{apply_reduction, bits_of_percent, target_for_reduction};
use coffer::select::{compress_by_predicate, compress_dedup, compress_json_where, row_passes};
use coffer::tokens::{HeuristicCounter, TokenCounter};
use coffer::units::{
    dedup_survivor_mask, scan_log_lines, scan_top_level_array_elements, units_for,
};
use coffer::view::{compress_structural_code_to_budget, structural_code_view};
use coffer::window::{build_keep_window_over, render_keep_window_for_count};

fn reduction(fraction: f32) -> Budget {
    Budget::Reduction(fraction.to_bits())
}

fn plain() -> Compressor<'static, HeuristicCounter> {
    Compressor::new()
}

fn is_ref(s: &Segment) -> bool {
    matches!(s, Segment::Ref { .. })
}

fn refs(doc: &CompressedDoc) -> usize {
    doc.segments.iter().filter(|s| is_ref(s)).count()
}

fn took_ref(doc: &CompressedDoc) -> bool {
    matches!(doc.segments.as_slice(), [Segment::Ref { .. }])
}

fn one_verbatim(doc: &CompressedDoc) -> bool {
    matches!(doc.segments.as_slice(), [Segment::Verbatim(_)])
}

fn bloated_array(n: usize) -> Vec<u8> {
    let mut s = String::from("[");
    for i in 0..n {
        if i > 0 {
            s.push(',');
        }
        s.push_str(&format!(
            r#"{{"id":{i},"name":"item-{i}","status":"active"}}"#
        ));
    }
    s.push(']');
    s.into_bytes()
}

fn bloated_log(n: usize) -> Vec<u8> {
    (0..n)
        .map(|i| {
            format!(
                "2026-06-02T00:00:{:02} INFO event number {i} happened\n",
                i % 60
            )
        })
        .collect::<String>()
        .into_bytes()
}

/// A random JSON value, with delimiters and quotes inside its strings.
fn random_value(rng: &mut Rng, depth: usize) -> String {
    let kinds = if depth == 0 { 4 } else { 6 };
    match rng.below(kinds) {
        0 => "null".to_string(),
        1 => (if rng.below(2) == 0 { "true" } else { "false" }).to_string(),
        2 => format!("{}", rng.next() as i64),
        3 => {
            let alphabet = ["a", "z", ",", " ", "[", "]", "{", "}", "\\\"", "\u{e9}", "\\\\"];
            let mut s = String::from("\"");
            for _ in 0..rng.below(12) {
                s.push_str(alphabet[rng.below(alphabet.len() as u64) as usize]);
            }
            s.push('"');
            s
        }
        4 => {
            let parts: Vec<String> = (0..rng.below(4))
                .map(|_| random_value(rng, depth - 1))
                .collect();
            format!("[{}]", parts.join(","))
        }
        _ => {
            let parts: Vec<String> = (0..rng.below(4))
                .map(|i| format!("\"k{i}\":{}", random_value(rng, depth - 1)))
                .collect();
            format!("{{{}}}", parts.join(","))
        }
    }
}

fn random_array(rng: &mut Rng, most: u64) -> (Vec<u8>, usize) {
    let n = rng.below(most) as usize;
    let parts: Vec<String> = (0..n).map(|_| random_value(rng, 3)).collect();
    (format!("[{}]", parts.join(",")).into_bytes(), n)
}

/// A counter that looks at words as well as at characters.
struct Subwordish;

impl TokenCounter for Subwordish {
    fn count(&self, s: &str) -> usize {
        s.split(|c: char| !c.is_ascii_alphanumeric())
            .filter(|w| !w.is_empty())
            .count()
            + s.len() / 4
    }

    fn count_for_char_count(&self, _chars: usize) -> Option<usize> {
        None
    }

    fn model_label(&self) -> &'static str {
        "subwordish-test"
    }
}

/// A counter that must not be asked.
struct PanicCounter;

impl TokenCounter for PanicCounter {
    fn count(&self, _text: &str) -> usize {
        panic!("tokens must not be counted here")
    }

    fn count_for_char_count(&self, _chars: usize) -> Option<usize> {
        None
    }

    fn model_label(&self) -> &'static str {
        "panic-counter"
    }
}

// ---------------------------------------------------------------------------
// Scanning
// ---------------------------------------------------------------------------

#[test]
fn scanner_handles_pretty_and_in_string_delimiters() {
    let input = br#"[
            {"a": "x,y", "b": "]["},
            42,
            ["nested", "[,]"]
        ]"#;
    let spans = scan_top_level_array_elements(input).expect("scans");
    assert_eq!(spans.len(), 3);
    assert_eq!(&input[spans[1].clone()], b"42");
}

#[test]
fn scanner_rejects_non_array() {
    assert!(scan_top_level_array_elements(br#"{"a":1}"#).is_none());
    assert!(scan_top_level_array_elements(b"42").is_none());
}

#[test]
fn scanner_matches_serde() {
    let mut rng = Rng::new(11);
    for _ in 0..300 {
        let (bytes, n) = random_array(&mut rng, 20);
        let spans = scan_top_level_array_elements(&bytes).expect("valid array scans");
        assert_eq!(spans.len(), n);
        for span in &spans {
            assert!(span.start < span.end && span.end <= bytes.len());
            assert!(serde_json::from_slice::<serde_json::Value>(&bytes[span.clone()]).is_ok());
        }
    }
}

#[test]
fn log_lines_tile_exactly() {
    for input in [&b"a\nb\nc\n"[..], &b"a\nb\nc"[..], &b""[..], &b"\n"[..]] {
        let lines = scan_log_lines(input);
        let total: usize = lines.iter().map(|r| r.len()).sum();
        assert_eq!(total, input.len());
    }
}

// ---------------------------------------------------------------------------
// Classification
// ---------------------------------------------------------------------------

#[test]
fn detects_json_array() {
    assert_eq!(detect(br#"[{"a":1},{"a":2}]"#), ContentType::Json);
}

#[test]
fn detects_json_object() {
    assert_eq!(detect(br#"{"a":1}"#), ContentType::Json);
}

#[test]
fn detects_json_object_after_leading_whitespace() {
    assert_eq!(detect(b" \n\t{\"a\":1}"), ContentType::Json);
}

#[test]
fn bare_scalar_is_not_json_type() {
    assert_eq!(detect(b"42"), ContentType::Text);
}

#[test]
fn malformed_json_is_text() {
    assert_eq!(detect(br#"{"a":1"#), ContentType::Text);
    assert_eq!(detect(b""), ContentType::Text);
}

#[test]
fn detects_log() {
    let log = "2026-06-02 INFO start\n".repeat(10);
    assert_eq!(detect(log.as_bytes()), ContentType::Log);
}

#[test]
fn prose_is_text() {
    assert_eq!(detect(b"just some prose here"), ContentType::Text);
}

#[test]
fn non_utf8_is_text() {
    assert_eq!(detect(&[0xff, 0xfe, 0x00, 0x01]), ContentType::Text);
}

#[test]
fn detects_crlf_log() {
    let log = "2026-06-02 INFO start\r\n".repeat(10);
    assert_eq!(detect(log.as_bytes()), ContentType::Log);
}

#[test]
fn seven_lines_is_below_the_floor() {
    let log = "2026-06-02 INFO x\n".repeat(7);
    assert_eq!(detect(log.as_bytes()), ContentType::Text);
}

#[test]
fn detects_build_output_by_low_first_token_diversity() {
    let mut s = String::new();
    for i in 0..40 {
        s.push_str(&format!("   Compiling crate_{i} v0.1.0\n"));
    }
    for i in 0..6 {
        s.push_str(&format!("   Running test_{i}\n"));
    }
    s.push_str("    Finished dev profile\n");
    assert_eq!(detect(s.as_bytes()), ContentType::Log);
}

#[test]
fn detects_verbose_git_status() {
    let status = "\
On branch main
Changes not staged for commit:
  (use \"git add <file>...\" to update what will be committed)
  (use \"git restore <file>...\" to discard changes in working directory)
\tmodified:   README.md
\tmodified:   crates/coffer-core/src/detect.rs
\tmodified:   crates/coffer-core/src/compress.rs

Untracked files:
  (use \"git add <file>...\" to include in what will be committed)
\tdocs/deployment.md
\tscripts/package-smoke.sh
\tscripts/production-gate.sh

no changes added to commit (use \"git add\" and/or \"git commit -a\")
";
    assert_eq!(detect(status.as_bytes()), ContentType::Log);
}

#[test]
fn source_code_is_not_log() {
    let code = "use std::io;\nfn main() {\n    let x = 1;\n    let y = 2;\n    if x > y {\n        \
                    foo(x);\n    } else {\n        bar(y);\n    }\n    for i in 0..10 {\n        \
                    step(i);\n    }\n    return;\n}\nstruct Foo { a: u8 }\nimpl Foo {\n    fn m(&self) {}\n}\n\
                    enum E { A, B }\ntype T = u32;\n";
    assert_eq!(detect(code.as_bytes()), ContentType::Text);
}

// ---------------------------------------------------------------------------
// Summaries
// ---------------------------------------------------------------------------

fn summary_of(input: &[u8]) -> String {
    let (kind, parsed) = detect_with_value(input);
    assert_eq!(kind, ContentType::Json);
    summarize_json(&parsed.expect("a parsed value"), input.len())
}

#[test]
fn summarize_json_array_preserves_input_key_order() {
    let input = br#"[{"zebra":1,"apple":2,"mango":3}]"#;
    assert_eq!(
        summary_of(input),
        "json array, 1 items, keys: zebra,apple,mango"
    );
}

#[test]
fn summarize_json_object_preserves_input_key_order() {
    let input = br#"{"gamma":1,"alpha":2}"#;
    assert_eq!(summary_of(input), "json object, keys: gamma,alpha");
}

// ---------------------------------------------------------------------------
// Offloading whole inputs
// ---------------------------------------------------------------------------

/// The one-reference form is taken exactly for the compressible inputs that are
/// large enough.
fn round_trip_with_branch_check(bytes: &[u8]) {
    let mut cas = MemoryCas::new();
    let doc = compress(bytes, &mut cas);
    assert_eq!(doc.reconstruct(&cas).expect("reconstruct"), bytes.to_vec());
    let compressible = matches!(detect(bytes), ContentType::Json | ContentType::Log)
        && bytes.len() >= MIN_COMPRESS_BYTES;
    assert_eq!(took_ref(&doc), compressible);
    if compressible {
        assert!(!cas.is_empty(), "the original must be stored");
    }
}

#[test]
fn arbitrary_bytes_round_trip() {
    let mut rng = Rng::new(5);
    for _ in 0..100 {
        let bytes: Vec<u8> = (0..rng.below(2000)).map(|_| rng.next() as u8).collect();
        round_trip_with_branch_check(&bytes);
    }
}

#[test]
fn json_array_round_trip() {
    let mut rng = Rng::new(6);
    for _ in 0..100 {
        let (bytes, _) = random_array(&mut rng, 40);
        round_trip_with_branch_check(&bytes);
    }
}

#[test]
fn json_object_round_trip() {
    for n in 1..30 {
        let fields: Vec<String> = (0..n)
            .map(|i| format!("\"f{i}\":\"{}\"", "x".repeat(i * 2)))
            .collect();
        round_trip_with_branch_check(format!("{{{}}}", fields.join(",")).as_bytes());
    }
}

#[test]
fn log_round_trip() {
    for sep in ["\n", "\r\n"] {
        for n in 8..60 {
            let mut s = String::new();
            for i in 0..n {
                s.push_str(&format!("2026-06-02T00:00:{:02} INFO message._-", i % 60));
                s.push_str(sep);
            }
            round_trip_with_branch_check(s.as_bytes());
        }
    }
}

#[test]
fn threshold_boundary_255_passthrough_256_offload() {
    let make = |total: usize| format!("[\"{}\"]", "a".repeat(total - 4)).into_bytes();

    let b255 = make(255);
    assert_eq!(b255.len(), 255);
    let mut cas = MemoryCas::new();
    let doc = compress(&b255, &mut cas);
    assert!(one_verbatim(&doc));
    assert!(cas.is_empty());
    assert_eq!(doc.reconstruct(&cas).unwrap(), b255);

    let b256 = make(256);
    assert_eq!(b256.len(), 256);
    let mut cas2 = MemoryCas::new();
    let doc2 = compress(&b256, &mut cas2);
    assert!(took_ref(&doc2));
    assert_eq!(doc2.reconstruct(&cas2).unwrap(), b256);
}

#[test]
fn two_inputs_share_one_cas() {
    let a = format!(
        "[{}]",
        (0..60)
            .map(|i| format!("{{\"id\":{i},\"v\":\"x\"}}"))
            .collect::<Vec<_>>()
            .join(",")
    )
    .into_bytes();
    let b = "2026-06-02 ERROR boom\n".repeat(20).into_bytes();

    let mut cas = MemoryCas::new();
    let da = compress(&a, &mut cas);
    let db = compress(&b, &mut cas);
    assert!(took_ref(&da) && took_ref(&db), "both inputs should offload");
    assert_eq!(da.reconstruct(&cas).unwrap(), a);
    assert_eq!(db.reconstruct(&cas).unwrap(), b);
}

#[test]
fn ref_stores_exact_original_bytes() {
    let bytes = format!(
        "[{}]",
        (0..50)
            .map(|i| format!("{{\"id\":{i},\"v\":\"x\"}}"))
            .collect::<Vec<_>>()
            .join(",")
    )
    .into_bytes();
    let mut cas = MemoryCas::new();
    let doc = compress(&bytes, &mut cas);
    let Segment::Ref { hash, .. } = &doc.segments[0] else {
        panic!("expected a Ref segment");
    };
    let got = cas.get(hash);
    assert_eq!(
        got.as_deref(),
        Some(bytes.as_slice()),
        "the store must hold the raw input, not a re-serialization"
    );
}

#[test]
fn bloated_json_shrinks_model_view_but_stays_lossless() {
    let mut json = String::from("[");
    for i in 0..500 {
        if i > 0 {
            json.push(',');
        }
        json.push_str(&format!(
            r#"{{"id":{i},"name":"item-{i}","status":"active","score":{}}}"#,
            i * 7
        ));
    }
    json.push(']');
    let bytes = json.into_bytes();

    let mut cas = MemoryCas::new();
    let doc = compress(&bytes, &mut cas);
    assert!(
        doc.rendered_len() < bytes.len() / 10,
        "expected a >10x reduction in model-facing size, got {} vs {}",
        doc.rendered_len(),
        bytes.len()
    );
    assert_eq!(doc.reconstruct(&cas).expect("reconstruct"), bytes);
}

#[test]
fn text_can_be_offloaded_too() {
    let prose = b"nothing but prose, which the other ways leave alone".to_vec();
    let mut cas = MemoryCas::new();
    let doc = offload_whole_any_min(&prose, &mut cas, 0);
    assert!(took_ref(&doc));
    assert_eq!(doc.reconstruct(&cas).unwrap(), prose);
    let doc = offload_whole_any_min(&prose, &mut cas, prose.len() + 1);
    assert!(one_verbatim(&doc));
}

#[test]
fn rendered_len_is_faithful_for_non_utf8_passthrough() {
    let bytes = vec![0xff, 0xfe, b'h', b'i', 0x80, 0x81];
    let mut cas = MemoryCas::new();
    let doc = compress(&bytes, &mut cas);
    assert_eq!(doc.rendered_len(), bytes.len());
}

#[test]
fn rendering_replaces_broken_text_and_measures_as_stored() {
    let bytes = vec![b'a', 0xff, b'b'];
    let mut cas = MemoryCas::new();
    let doc = compress(&bytes, &mut cas);
    assert_eq!(doc.render_for_model(), "a\u{fffd}b");
    assert_eq!(doc.rendered_len(), 3);
}

#[test]
fn a_sentinel_is_worded_exactly() {
    let bytes = format!("[{}]", vec!["1"; 200].join(",")).into_bytes();
    let mut cas = MemoryCas::new();
    let doc = compress(&bytes, &mut cas);
    let key = ContentHash::of(&bytes);
    let text = doc.render_for_model();
    let digest: String = key.as_str().chars().take(12).collect();
    assert!(text.contains(&digest), "{text}");
    assert!(text.starts_with("<<cof:") && text.ends_with(">>"), "{text}");
    assert!(text.contains("json array, 200 items"), "{text}");
    assert_eq!(doc.rendered_len(), text.len());
}

#[test]
fn small_input_passes_through() {
    let bytes = br#"[{"a":1}]"#.to_vec();
    let mut cas = MemoryCas::new();
    let doc = compress(&bytes, &mut cas);
    assert!(cas.is_empty(), "small input should not be offloaded");
    assert_eq!(doc.reconstruct(&cas).unwrap(), bytes);
}

// ---------------------------------------------------------------------------
// Coming back
// ---------------------------------------------------------------------------

/// A store that gives other bytes than those of the key.
struct LyingCas {
    key: ContentHash,
    wrong: Vec<u8>,
}

impl Cas for LyingCas {
    fn put(&mut self, bytes: &[u8]) -> ContentHash {
        ContentHash::of(bytes)
    }

    fn get(&self, hash: &ContentHash) -> Option<Vec<u8>> {
        if hash.as_str() == self.key.as_str() {
            Some(self.wrong.clone())
        } else {
            None
        }
    }

    fn len(&self) -> usize {
        1
    }
}

fn one_ref(key: ContentHash, original_len: usize) -> CompressedDoc {
    CompressedDoc {
        segments: vec![Segment::Ref {
            hash: key,
            summary: "x".to_string(),
            original_len,
        }],
    }
}

#[test]
fn reconstruct_rejects_hash_mismatch() {
    let original = b"the real original bytes".to_vec();
    let wrong = vec![b'X'; original.len()];
    let doc = one_ref(ContentHash::of(&original), original.len());
    let cas = LyingCas {
        key: ContentHash::of(&original),
        wrong,
    };
    match doc.reconstruct(&cas) {
        Err(ReconstructError::HashMismatch(_)) => {}
        other => panic!("expected HashMismatch, got {other:?}"),
    }
}

#[test]
fn reconstruct_rejects_missing_original() {
    let doc = one_ref(ContentHash::of(b"never stored"), 12);
    let cas = LyingCas {
        key: ContentHash::of(b"other"),
        wrong: Vec::new(),
    };
    match doc.reconstruct(&cas) {
        Err(ReconstructError::MissingOriginal(_)) => {}
        other => panic!("expected MissingOriginal, got {other:?}"),
    }
}

#[test]
fn reconstruct_rejects_a_length_that_differs() {
    let mut cas = MemoryCas::new();
    let key = cas.put(b"abcdef");
    let doc = one_ref(key, 7);
    match doc.reconstruct(&cas) {
        Err(ReconstructError::LengthMismatch { .. }) => {}
        other => panic!("expected LengthMismatch, got {other:?}"),
    }
}

#[test]
fn verbatim_around_ref_survives_reconstruct_and_render() {
    let prefix = b"PREFIX-keep-exact\n".to_vec();
    let original = br#"{"big":"original tool output that got offloaded"}"#.to_vec();
    let suffix = b"\nSUFFIX-keep-exact".to_vec();

    let mut cas = MemoryCas::new();
    let hash = cas.put(&original);
    let doc = CompressedDoc {
        segments: vec![
            Segment::Verbatim(prefix.clone()),
            Segment::Ref {
                hash,
                summary: "json object".into(),
                original_len: original.len(),
            },
            Segment::Verbatim(suffix.clone()),
        ],
    };

    let mut expected = Vec::new();
    expected.extend_from_slice(&prefix);
    expected.extend_from_slice(&original);
    expected.extend_from_slice(&suffix);
    assert_eq!(doc.reconstruct(&cas).unwrap(), expected);

    let rendered = doc.render_for_model();
    assert!(
        rendered.starts_with("PREFIX-keep-exact\n"),
        "prefix mutated: {rendered:?}"
    );
    assert!(
        rendered.ends_with("\nSUFFIX-keep-exact"),
        "suffix mutated: {rendered:?}"
    );
    assert!(
        rendered.contains("<<cof:"),
        "sentinel missing: {rendered:?}"
    );
}

// ---------------------------------------------------------------------------
// Windows and the character model
// ---------------------------------------------------------------------------

fn survivors(log: &[u8], units: &[Range<usize>]) -> Vec<usize> {
    dedup_survivor_mask(log, units)
        .into_iter()
        .enumerate()
        .filter_map(|(i, survives)| survives.then_some(i))
        .collect()
}

fn assert_probe_render_matches_doc_render(
    input: &[u8],
    units: &[Range<usize>],
    candidates: &[usize],
    noun: &str,
) {
    for m in 0..=candidates.len() + 2 {
        let probe = render_keep_window_for_count(input, units, candidates, m, noun);
        let mut cas = MemoryCas::new();
        let doc = build_keep_window_over(input, units, candidates, m, noun, &mut cas);
        assert_eq!(probe, doc.render_for_model(), "m={m}");
        assert_eq!(doc.reconstruct(&cas).unwrap(), input, "m={m}");
    }
}

#[test]
fn budget_probe_render_matches_doc_render() {
    let json = br#"[{"id":0},{"id":1},{"id":2},{"id":3},{"id":4}]"#;
    let json_units = scan_top_level_array_elements(json).expect("json array scans");
    let json_candidates: Vec<usize> = (0..json_units.len()).collect();
    assert_probe_render_matches_doc_render(json, &json_units, &json_candidates, "items");

    let log = b"INFO boot\nINFO boot\nWARN retry\nERROR fail\nERROR fail\n";
    let log_units = scan_log_lines(log);
    let log_candidates = survivors(log, &log_units);
    assert_probe_render_matches_doc_render(log, &log_units, &log_candidates, "lines");
}

fn assert_char_model_matches_render(
    input: &[u8],
    units: &[Range<usize>],
    candidates: &[usize],
    noun: &str,
) {
    let model = CharModel::new(input, units, noun);
    for m in 0..=candidates.len() + 1 {
        let real = render_keep_window_for_count(input, units, candidates, m, noun)
            .chars()
            .count();
        assert_eq!(model.render_chars(candidates, m), real, "m={m}");
    }
}

#[test]
fn analytic_char_count_matches_render_for_json() {
    let mut rng = Rng::new(21);
    for _ in 0..100 {
        let (input, n) = random_array(&mut rng, 16);
        if n == 0 {
            continue;
        }
        let units = scan_top_level_array_elements(&input).expect("valid array scans");
        let candidates: Vec<usize> = (0..units.len()).collect();
        assert_char_model_matches_render(&input, &units, &candidates, "items");
    }
}

#[test]
fn analytic_char_count_matches_render_for_logs() {
    let log = b"INFO boot\nINFO boot\nWARN retry 3 times\nERROR fail\nERROR fail\nDEBUG ok\nINFO done\n";
    let units = scan_log_lines(log);
    let candidates = survivors(log, &units);
    assert_eq!(candidates, vec![0, 2, 3, 5, 6]);
    assert_char_model_matches_render(log, &units, &candidates, "lines");
}

#[test]
fn interpolated_matches_bisection_on_real_render() {
    let mut rng = Rng::new(31);
    for _ in 0..60 {
        let (input, n) = random_array(&mut rng, 20);
        if n == 0 {
            continue;
        }
        let target = rng.below(400) as usize;
        let units = scan_top_level_array_elements(&input).expect("array scans");
        let candidates: Vec<usize> = (0..units.len()).collect();
        let model = CharModel::new(&input, &units, "items");
        let probe = Probe {
            input: &input,
            units: &units,
            candidates: &candidates,
            noun: "items",
            model: &model,
            counter: &Subwordish,
            analytic: false,
        };
        let tokens = |m: usize| {
            Subwordish.count(&render_keep_window_for_count(
                &input,
                &units,
                &candidates,
                m,
                "items",
            ))
        };
        let n = candidates.len();
        let bisected = search_keep_count_bisection(n, target, &probe);
        let interpolated = search_keep_count_interpolated(n, target, &probe);
        assert_eq!(bisected, interpolated, "target={target}, n={n}");
        let largest = (0..=n).rev().find(|m| tokens(*m) <= target).unwrap_or(0);
        assert_eq!(bisected, largest, "target={target}, n={n}");
    }
}

/// A counter with a curve of its own: what it says depends on how many units of
/// the rendering are kept, each of which has one `#`.
struct Curve(Vec<usize>);

impl TokenCounter for Curve {
    fn count(&self, s: &str) -> usize {
        self.0[s.chars().filter(|c| *c == '#').count()]
    }

    fn count_for_char_count(&self, _chars: usize) -> Option<usize> {
        None
    }

    fn model_label(&self) -> &'static str {
        "curve-test"
    }
}

#[test]
fn interpolated_search_matches_bisection() {
    let mut rng = Rng::new(41);
    for _ in 0..200 {
        let n = rng.below(48) as usize;
        let target = rng.below(700) as usize;
        // What nothing at all takes is not 0, so that even that may not fit.
        let mut tok_cum = vec![3usize];
        let mut parts: Vec<String> = Vec::new();
        for i in 0..n {
            let d = rng.below(30) as usize;
            tok_cum.push(tok_cum[i] + d);
            parts.push(format!("\"#{}\"", "x".repeat(d * 4 + i % 3)));
        }
        let input = format!("[{}]", parts.join(",")).into_bytes();
        let units = scan_top_level_array_elements(&input).expect("array scans");
        assert_eq!(units.len(), n);
        let candidates: Vec<usize> = (0..n).collect();
        let model = CharModel::new(&input, &units, "items");
        let counter = Curve(tok_cum.clone());
        let probe = Probe {
            input: &input,
            units: &units,
            candidates: &candidates,
            noun: "items",
            model: &model,
            counter: &counter,
            analytic: false,
        };
        let a = search_keep_count_bisection(n, target, &probe);
        let b = search_keep_count_interpolated(n, target, &probe);
        assert_eq!(a, b, "target={target}, n={n}");
        let largest = (0..=n).rev().find(|m| tok_cum[*m] <= target).unwrap_or(0);
        assert_eq!(a, largest, "target={target}, n={n}");
    }
}

#[test]
fn all_that_fits_is_kept_though_a_smaller_window_does_not_fit() {
    // Of short items the whole takes fewer characters than any sentinel.
    let input = b"[1,2,3]";
    let units = scan_top_level_array_elements(input).unwrap();
    let candidates = vec![0, 1, 2];
    let model = CharModel::new(input, &units, "items");
    let probe = Probe {
        input,
        units: &units,
        candidates: &candidates,
        noun: "items",
        model: &model,
        counter: &Characters,
        analytic: false,
    };
    assert_eq!(search_keep_count_bisection(3, 7, &probe), 3);
    assert_eq!(search_keep_count_interpolated(3, 7, &probe), 3);
    assert_eq!(search_keep_count_bisection(3, 6, &probe), 0);
    assert_eq!(search_keep_count_interpolated(3, 6, &probe), 0);

    let mut cas = MemoryCas::new();
    let doc = compress_to_budget(input, &mut cas, Budget::Tokens(7), &Characters);
    assert_eq!(doc.render_for_model(), "[1,2,3]");
    assert!(one_verbatim(&doc));
    assert_eq!(cas.len(), 0);

    let floor = compress_to_budget(input, &mut cas, Budget::Tokens(6), &Characters);
    assert_eq!(floor.render_for_model().chars().count(), 31);
    assert_eq!(floor.reconstruct(&cas).unwrap(), input);
}

/// A counter that takes a token for every character, and does not say so.
struct Characters;

impl TokenCounter for Characters {
    fn count(&self, s: &str) -> usize {
        s.chars().count()
    }

    fn count_for_char_count(&self, _chars: usize) -> Option<usize> {
        None
    }

    fn model_label(&self) -> &'static str {
        "characters-test"
    }
}

#[test]
fn the_kept_window_is_the_largest_that_fits() {
    let counter = HeuristicCounter;
    let mut rng = Rng::new(53);
    for round in 0..60 {
        let (input, noun) = if round % 3 == 0 {
            let lines: Vec<String> = (0..8 + rng.below(20))
                .map(|_| format!("{} event\n", rng.below(4)))
                .collect();
            (lines.concat().into_bytes(), "lines")
        } else {
            (random_array(&mut rng, 20).0, "items")
        };
        let (units, found_noun) = units_for(&input);
        assert_eq!(found_noun, noun);
        if units.is_empty() {
            continue;
        }
        let candidates = if noun == "lines" {
            survivors(&input, &units)
        } else {
            (0..units.len()).collect()
        };
        let n = candidates.len();
        let render = |m: usize| render_keep_window_for_count(&input, &units, &candidates, m, noun);
        for m in 1..n {
            assert!(render(m - 1).chars().count() <= render(m).chars().count());
        }
        let mut cas = MemoryCas::new();
        let mut before = 0;
        for target in (0..200).step_by(7) {
            let doc = compress_to_budget(&input, &mut cas, Budget::Tokens(target), &counter);
            let largest = (0..=n)
                .rev()
                .find(|m| counter.count(&render(*m)) <= target)
                .unwrap_or(0);
            assert_eq!(doc.render_for_model(), render(largest), "target={target}");
            assert!(before <= largest);
            before = largest;
        }
    }
}

#[test]
fn a_view_of_blank_lines_is_cut_where_the_bisection_ends() {
    // All lines with plain line feeds would fit, the text as it is does not.
    let input = "\r\n".repeat(1000).into_bytes();
    let mut cas = MemoryCas::new();
    let doc = compress_structural_code_to_budget(&input, &mut cas, 266, &HeuristicCounter);
    let note = "... 42 compact-view lines omitted to fit budget ...\n";
    let (header, rest) = doc.model_text.split_once('\n').unwrap();
    assert!(header.starts_with("<<cof:"), "{header}");
    assert_eq!(
        rest,
        format!("{}{note}{}", "\n".repeat(479), "\n".repeat(479))
    );
    assert_eq!(HeuristicCounter.count(&doc.model_text), 266);
    assert_eq!(doc.reconstruct(&cas).unwrap(), input);
}

#[test]
fn a_view_keeps_the_most_lines_that_fit() {
    let source: String = (0..60)
        .map(|i| format!("pub fn item_{i}() {{}}\n"))
        .collect();
    let view = structural_code_view(source.as_bytes());
    assert_eq!(view.lines().count(), 60);
    let mut cas = MemoryCas::new();
    let mut before = 0;
    for target in (0..400).step_by(11) {
        let doc =
            compress_structural_code_to_budget(source.as_bytes(), &mut cas, target, &HeuristicCounter);
        let kept = doc
            .model_text
            .lines()
            .filter(|line| line.starts_with("pub fn"))
            .count();
        assert!(before <= kept);
        before = kept;
        if kept > 0 {
            assert!(HeuristicCounter.count(&doc.model_text) <= target);
        }
        if kept > 0 && kept < 59 {
            // One line more, of the shortest there is, would not fit.
            assert!(HeuristicCounter.count(&doc.model_text) + 7 > target);
        }
    }
    assert_eq!(before, 60);
}

#[test]
fn a_target_is_met_by_an_array_that_is_no_utf8() {
    let mut input: Vec<u8> = b"[".to_vec();
    for i in 0..40u8 {
        if i > 0 {
            input.push(b',');
        }
        input.extend_from_slice(b"\"a\x80\xe2\x82b\xff");
        input.push(b'0' + i % 10);
        input.push(b'"');
    }
    input.push(b']');
    assert_eq!(detect(&input), ContentType::Json);
    let counter = HeuristicCounter;
    let mut cas = MemoryCas::new();
    let floor = counter
        .count(&compress_to_budget(&input, &mut cas, Budget::Tokens(0), &counter).render_for_model());
    for target in [floor, floor + 1, floor + 5, floor + 30, 1000] {
        let doc = compress_to_budget(&input, &mut cas, Budget::Tokens(target), &counter);
        assert_eq!(doc.reconstruct(&cas).unwrap(), input);
        assert!(counter.count(&doc.render_for_model()) <= target, "{target}");
    }
}

#[test]
fn a_small_object_is_offloaded_where_it_does_not_fit() {
    let input = br#"{"a":1}"#;
    let mut cas = MemoryCas::new();
    let doc = compress_to_budget(input, &mut cas, Budget::Tokens(0), &Characters);
    match doc.segments.as_slice() {
        [Segment::Ref {
            hash, original_len, ..
        }] => {
            assert_eq!(*hash, ContentHash::of(input));
            assert_eq!(*original_len, 7);
        }
        other => panic!("{other:?}"),
    }
    assert_eq!(cas.len(), 1);
    assert_eq!(doc.reconstruct(&cas).unwrap(), input);

    let mut cas = MemoryCas::new();
    let doc = compress_to_budget(input, &mut cas, Budget::Tokens(7), &Characters);
    assert!(one_verbatim(&doc));
    assert_eq!(cas.len(), 0);
    // Without a target small inputs are left alone.
    assert!(one_verbatim(&compress_to_budget(
        input,
        &mut cas,
        Budget::MaxReduction,
        &Characters
    )));
}

#[test]
fn an_element_is_owed_after_a_comma() {
    assert_eq!(scan_top_level_array_elements(b"[1,]"), None);
    assert_eq!(scan_top_level_array_elements(b"[1, ]"), None);
    assert_eq!(scan_top_level_array_elements(b"[,1]"), None);
    assert_eq!(scan_top_level_array_elements(b"[,]"), None);
    assert_eq!(scan_top_level_array_elements(b"[1"), None);
    assert_eq!(scan_top_level_array_elements(b"[1] 2"), None);
    assert_eq!(scan_top_level_array_elements(b"[ ] "), Some(vec![]));
    assert_eq!(scan_top_level_array_elements(b"[] ]"), None);
    assert_eq!(scan_top_level_array_elements(b" [1 , 2 ]"), Some(vec![2..3, 6..7]));
}

#[test]
fn half_of_the_lines_is_no_majority() {
    assert_eq!(
        detect(b"1 a\n2 b\n3 c\n4 d\nw\nx\ny\nz\n"),
        ContentType::Text
    );
    assert_eq!(
        detect(b"1 a\n2 b\n3 c\n4 d\n[5]\nx\ny\nz\n"),
        ContentType::Log
    );
}

#[test]
fn the_size_is_at_most_that_of_the_rendering() {
    let odd = CompressedDoc {
        segments: vec![Segment::Verbatim(vec![0xff, 0xfe, b'h', b'i', 0x80, 0x81])],
    };
    assert_eq!(odd.rendered_len(), 6);
    assert_eq!(odd.render_for_model().len(), 14);
    let even = CompressedDoc {
        segments: vec![
            Segment::Verbatim("na\u{ef}ve ".as_bytes().to_vec()),
            Segment::Ref {
                hash: ContentHash::of(b"x"),
                summary: "+3 \u{e9}".to_string(),
                original_len: 1,
            },
        ],
    };
    assert_eq!(even.rendered_len(), 7 + 21 + 5);
    assert_eq!(even.render_for_model().len(), even.rendered_len());
}

#[test]
fn a_larger_percentage_leaves_no_more() {
    for raw in [0usize, 1, 7, 100, 12_345] {
        for pct in 0..=100u8 {
            assert!(target_for_reduction(raw, pct + 1) <= target_for_reduction(raw, pct));
        }
    }
    assert_eq!(target_for_reduction(200, 25), 150);
}

#[test]
fn attestation_of_many_samples_is_good() {
    let array = bloated_array(30);
    let log = bloated_log(40);
    let samples: Vec<&[u8]> = vec![&array, b"", b"plain text", &log, br#"{"a":1}"#, &array];
    let mut cas = MemoryCas::new();
    let r = attest(&samples, &mut cas, &HeuristicCounter);
    assert!(r.ok());
    assert_eq!((r.samples, r.passed, r.first_failure), (6, 6, None));
    assert_eq!(
        r.bytes_round_tripped,
        samples.iter().map(|s| s.len()).sum::<usize>()
    );
}

// ---------------------------------------------------------------------------
// Budgets
// ---------------------------------------------------------------------------

#[test]
fn budget_heuristic_fast_path_stays_byte_exact_across_targets() {
    let mut cas = MemoryCas::new();
    let counter = HeuristicCounter;
    let input = br#"[{"id":0,"v":"alpha"},{"id":1,"v":"bravo"},{"id":2,"v":"charlie"},{"id":3,"v":"delta"},{"id":4,"v":"echo"},{"id":5,"v":"foxtrot"}]"#;
    let floor = counter.count(
        &compress_to_budget(input, &mut cas, Budget::Tokens(0), &counter).render_for_model(),
    );
    for target in [1usize, 4, 8, 12, 20, 40, 80, 200] {
        let doc = compress_to_budget(input, &mut cas, Budget::Tokens(target), &counter);
        assert_eq!(
            doc.reconstruct(&cas).unwrap(),
            &input[..],
            "target={target}"
        );
        if target >= floor {
            assert!(
                counter.count(&doc.render_for_model()) <= target,
                "target={target} exceeded by render of {} tokens",
                counter.count(&doc.render_for_model())
            );
        }
    }
}

#[test]
fn budget_subword_path_byte_exact_and_in_target() {
    let mut cas = MemoryCas::new();
    let counter = Subwordish;
    let mut s = String::from("[");
    for i in 0..200 {
        if i > 0 {
            s.push(',');
        }
        s.push_str(&format!(r#"{{"id":{i},"v":"item-{i}-payload"}}"#));
    }
    s.push(']');
    let input = s.as_bytes();
    let floor = counter.count(
        &compress_to_budget(input, &mut cas, Budget::Tokens(0), &counter).render_for_model(),
    );
    for target in [1usize, 10, 50, 100, 300, 1000] {
        let doc = compress_to_budget(input, &mut cas, Budget::Tokens(target), &counter);
        assert_eq!(doc.reconstruct(&cas).unwrap(), input, "target={target}");
        if target >= floor {
            assert!(
                counter.count(&doc.render_for_model()) <= target,
                "target={target} exceeded: {} tokens",
                counter.count(&doc.render_for_model())
            );
        }
    }
}

#[test]
fn reconstruct_exact_at_any_budget() {
    for kind in 0..3 {
        for n in [0usize, 1, 3, 9, 25, 39] {
            for pct in [0u8, 1, 30, 50, 77, 99, 100] {
                let input = match kind {
                    0 => bloated_array(n),
                    1 => bloated_log(n),
                    _ => format!("just some prose, item {n}, nothing structured").into_bytes(),
                };
                let mut cas = MemoryCas::new();
                let budget = reduction(pct as f32 / 100.0);
                let doc = compress_to_budget(&input, &mut cas, budget, &HeuristicCounter);
                assert_eq!(doc.reconstruct(&cas).expect("reconstruct"), input);
            }
        }
    }
}

#[test]
fn lands_under_target_and_is_monotone() {
    let input = bloated_array(400);
    let mut cas = MemoryCas::new();
    let tok = HeuristicCounter;
    let raw = tok.count(&String::from_utf8_lossy(&input));

    let mut prev = usize::MAX;
    for pct in [0u8, 20, 40, 60, 80] {
        let target = (raw as f64 * (1.0 - pct as f64 / 100.0)).round() as usize;
        let doc = compress_to_budget(&input, &mut cas, reduction(pct as f32 / 100.0), &tok);
        let got = tok.count(&doc.render_for_model());
        assert!(
            got <= target,
            "pct {pct}: render {got} tokens exceeded target {target}"
        );
        assert!(
            got <= prev,
            "pct {pct}: not monotone non-increasing ({got} > {prev})"
        );
        assert_eq!(
            doc.reconstruct(&cas).unwrap(),
            input,
            "must stay reversible"
        );
        prev = got;
    }
}

#[test]
fn zero_reduction_is_passthrough() {
    let input = bloated_array(100);
    let mut cas = MemoryCas::new();
    let tok = HeuristicCounter;
    let doc = compress_to_budget(&input, &mut cas, reduction(0.0), &tok);
    assert!(cas.is_empty(), "0% reduction must not offload anything");
    assert_eq!(doc.segments.len(), 1);
    assert!(one_verbatim(&doc));
    assert_eq!(doc.reconstruct(&cas).unwrap(), input);
}

/// One token for every text, and a count of the questions.
struct CountingOneTokenCounter {
    calls: Cell<usize>,
}

impl TokenCounter for CountingOneTokenCounter {
    fn count(&self, _text: &str) -> usize {
        self.calls.set(self.calls.get() + 1);
        1
    }

    fn count_for_char_count(&self, _chars: usize) -> Option<usize> {
        None
    }

    fn model_label(&self) -> &'static str {
        "counting-one-token"
    }
}

#[test]
fn rounded_noop_reduction_skips_budget_probes() {
    let input = br#"[{"id":1},{"id":2}]"#;
    let mut cas = MemoryCas::new();
    let tok = CountingOneTokenCounter {
        calls: Cell::new(0),
    };
    let doc = compress_to_budget(input, &mut cas, reduction(0.1), &tok);

    assert_eq!(tok.calls.get(), 1, "raw count only; no budget probes");
    assert!(cas.is_empty(), "no-op reduction must not offload anything");
    assert_eq!(doc.segments.len(), 1);
    assert!(one_verbatim(&doc));
    assert_eq!(doc.reconstruct(&cas).unwrap(), input);
}

#[test]
fn non_positive_reduction_skips_token_counting() {
    let input = bloated_array(100);
    for budget in [reduction(0.0), reduction(-0.5), reduction(f32::NAN)] {
        let mut cas = MemoryCas::new();
        let doc = compress_to_budget(&input, &mut cas, budget, &PanicCounter);
        assert!(cas.is_empty(), "{budget:?} must not offload anything");
        assert_eq!(doc.segments.len(), 1);
        assert!(one_verbatim(&doc));
        assert_eq!(doc.reconstruct(&cas).unwrap(), input);
    }
}

#[test]
fn text_reduction_skips_token_counting() {
    let input = b"plain prose without enough line structure to be treated as logs";
    let mut cas = MemoryCas::new();
    let doc = compress_to_budget(input, &mut cas, reduction(0.8), &PanicCounter);
    assert!(cas.is_empty(), "text reduction must not offload anything");
    assert_eq!(doc.segments.len(), 1);
    assert!(one_verbatim(&doc));
    assert_eq!(doc.reconstruct(&cas).unwrap(), input);
}

#[test]
fn leading_keep_coalesces_to_one_ref() {
    let input = bloated_array(300);
    let mut cas = MemoryCas::new();
    let doc = compress_to_budget(&input, &mut cas, reduction(0.5), &HeuristicCounter);
    assert_eq!(
        refs(&doc),
        1,
        "the dropped tail must coalesce into exactly one Ref"
    );
    assert_eq!(doc.reconstruct(&cas).unwrap(), input);
}

#[test]
fn kept_prefix_is_byte_identical() {
    let input = bloated_array(200);
    let mut cas = MemoryCas::new();
    let doc = compress_to_budget(&input, &mut cas, reduction(0.6), &HeuristicCounter);
    match &doc.segments[0] {
        Segment::Verbatim(prefix) => {
            assert_eq!(prefix.as_slice(), &input[..prefix.len()], "prefix mutated");
        }
        other => panic!("expected a verbatim prefix, got {other:?}"),
    }
}

#[test]
fn json_object_offloads_whole_and_reconstructs() {
    let mut s = String::from("{");
    for i in 0..100 {
        if i > 0 {
            s.push(',');
        }
        s.push_str(&format!(r#""k{i}":"value number {i}""#));
    }
    s.push('}');
    let input = s.into_bytes();

    let mut cas = MemoryCas::new();
    let doc = compress_to_budget(&input, &mut cas, reduction(0.8), &HeuristicCounter);
    assert!(took_ref(&doc));
    assert_eq!(doc.reconstruct(&cas).unwrap(), input);
}

#[test]
fn max_reduction_matches_stage0_compress() {
    let input = bloated_array(100);
    let mut cas1 = MemoryCas::new();
    let mut cas2 = MemoryCas::new();
    let budgeted = compress_to_budget(&input, &mut cas1, Budget::MaxReduction, &HeuristicCounter);
    let whole = compress(&input, &mut cas2);
    assert_eq!(budgeted, whole, "MaxReduction must equal compress");
    assert_eq!(budgeted.reconstruct(&cas1).unwrap(), input);
}

#[test]
fn tiny_target_below_floor_stays_reversible_and_stable() {
    let input = bloated_array(200);
    let mut cas = MemoryCas::new();
    let tok = HeuristicCounter;
    for t in [0usize, 1, 5, 8] {
        let doc = compress_to_budget(&input, &mut cas, Budget::Tokens(t), &tok);
        assert_eq!(
            doc.reconstruct(&cas).unwrap(),
            input,
            "reversible at tiny target {t}"
        );
    }
    let a = compress_to_budget(&input, &mut cas, Budget::Tokens(0), &tok);
    let b = compress_to_budget(&input, &mut cas, Budget::Tokens(1), &tok);
    assert_eq!(
        a, b,
        "below the floor, tiny targets yield the same minimum doc"
    );
}

#[test]
fn reduction_fraction_and_percent_helper_agree() {
    let input = bloated_array(120);
    let mut cas = MemoryCas::new();
    let tok = HeuristicCounter;
    let raw = tok.count(&String::from_utf8_lossy(&input));
    let by_frac = compress_to_budget(&input, &mut cas, reduction(0.4), &tok);
    let by_pct = compress_to_budget(
        &input,
        &mut cas,
        Budget::Tokens(target_for_reduction(raw, 40)),
        &tok,
    );
    assert_eq!(by_frac, by_pct);
}

#[test]
fn reduced_counts_are_the_rounded_products() {
    for raw in [0usize, 1, 2, 3, 7, 10, 99, 1000, 12345] {
        for pct in 0u8..=100 {
            let fraction = pct as f32 / 100.0;
            let expected = (raw as f64 * (1.0 - fraction as f64)).round() as usize;
            assert_eq!(bits_of_percent(pct), fraction.to_bits(), "{pct}");
            assert_eq!(apply_reduction(raw, fraction.to_bits()), expected);
            assert_eq!(target_for_reduction(raw, pct), expected, "{raw} {pct}");
        }
    }
    assert_eq!(target_for_reduction(1000, 40), 600);
    assert_eq!(target_for_reduction(1000, 255), 0);
}

#[test]
fn a_larger_fraction_leaves_no_more() {
    for raw in [1usize, 17, 1000, 123_457] {
        let mut before = raw;
        for step in 0..=1000u32 {
            let left = apply_reduction(raw, (step as f32 / 1000.0).to_bits());
            assert!(left <= before, "{raw} {step}");
            before = left;
        }
        assert_eq!(before, 0);
    }
}

#[test]
fn a_larger_target_keeps_at_least_as_much() {
    let input = bloated_array(60);
    let mut kept = 0;
    for target in (0..1200).step_by(7) {
        let mut cas = MemoryCas::new();
        let budget = Budget::Tokens(target);
        let doc = compress_to_budget(&input, &mut cas, budget, &HeuristicCounter);
        let now: usize = doc
            .segments
            .iter()
            .map(|s| match s {
                Segment::Verbatim(bytes) => bytes.len(),
                Segment::Ref { .. } => 0,
            })
            .sum();
        assert!(now >= kept, "target {target}");
        kept = now;
    }
    assert_eq!(kept, input.len());
}

#[test]
fn log_budget_reconstructs_and_offloads() {
    let input = bloated_log(200);
    let mut cas = MemoryCas::new();
    let doc = compress_to_budget(&input, &mut cas, reduction(0.7), &HeuristicCounter);
    assert!(!cas.is_empty(), "a 70%-reduced log should offload");
    assert_eq!(doc.reconstruct(&cas).unwrap(), input);
}

// ---------------------------------------------------------------------------
// Selections
// ---------------------------------------------------------------------------

#[test]
fn emit_kept_reconstructs_for_any_selection() {
    let mut rng = Rng::new(41);
    for n in 0..40 {
        for input in [bloated_array(n), bloated_log(n)] {
            let (units, noun) = units_for(&input);
            let bits = rng.next();
            let kept: Vec<bool> = (0..units.len())
                .map(|i| (bits >> (i % 64)) & 1 == 1)
                .collect();
            let mut cas = MemoryCas::new();
            let doc = emit_kept(&input, &units, &kept, &mut cas, noun);
            assert_eq!(doc.reconstruct(&cas).expect("reconstruct"), input);
        }
    }
}

#[test]
fn scattered_selection_coalesces_per_run() {
    let input = format!(
        "[{}]",
        (0..6)
            .map(|i| format!("{{\"id\":{i}}}"))
            .collect::<Vec<_>>()
            .join(",")
    )
    .into_bytes();
    let (units, noun) = units_for(&input);
    assert_eq!(units.len(), 6);
    let kept: Vec<bool> = (0..6).map(|i| i % 2 == 0).collect();
    let mut cas = MemoryCas::new();
    let doc = emit_kept(&input, &units, &kept, &mut cas, noun);
    assert_eq!(
        refs(&doc),
        3,
        "three isolated dropped units are three references"
    );
    assert_eq!(doc.reconstruct(&cas).unwrap(), input);
}

#[test]
fn predicate_keeps_matching_and_reconstructs() {
    let mut cas = MemoryCas::new();
    let input = br#"[{"id":1,"keep":true},{"id":2,"keep":false},{"id":3,"keep":true}]"#;
    let doc = compress_by_predicate(input, &mut cas, |u| {
        serde_json::from_slice::<serde_json::Value>(u)
            .ok()
            .and_then(|v| v.get("keep").and_then(serde_json::Value::as_bool))
            .unwrap_or(false)
    });
    assert_eq!(
        doc.reconstruct(&cas).unwrap(),
        input,
        "byte-exact reversible"
    );
    assert!(doc.segments.iter().any(is_ref));
    let render = doc.render_for_model();
    assert!(render.contains(r#""id":1"#) && render.contains(r#""id":3"#));
    assert!(
        !render.contains(r#""id":2"#),
        "the non-matching row is offloaded, not rendered"
    );
}

#[test]
fn predicate_round_trips_for_any_predicate() {
    let mut rng = Rng::new(51);
    for _ in 0..100 {
        let (input, _) = random_array(&mut rng, 16);
        let bits = rng.next();
        let mut cas = MemoryCas::new();
        let at = Cell::new(0u32);
        let doc = compress_by_predicate(&input, &mut cas, |_unit| {
            let i = at.get();
            at.set(i + 1);
            (bits >> (i % 64)) & 1 == 1
        });
        assert_eq!(doc.reconstruct(&cas).expect("reconstruct"), input);
    }
}

#[test]
fn dedup_collapses_consecutive_duplicate_units() {
    let mut cas = MemoryCas::new();
    let input = br#"[{"x":1},{"x":1},{"x":1},{"x":2},{"x":1}]"#;
    let doc = compress_dedup(input, &mut cas);
    assert_eq!(
        doc.reconstruct(&cas).unwrap(),
        &input[..],
        "byte-exact reversible"
    );
    let r = doc.render_for_model();
    assert!(r.contains(r#"{"x":2}"#), "the distinct item survives: {r}");
    assert!(
        r.contains("cof:"),
        "the duplicate run is offloaded to a sentinel: {r}"
    );
    assert!(doc.segments.iter().any(is_ref));
}

#[test]
fn json_where_numeric_and_string_predicates() {
    let mut cas = MemoryCas::new();
    let input = br#"[{"name":"a","phase":"Running","restarts":0},{"name":"b","phase":"CrashLoopBackOff","restarts":12},{"name":"c","phase":"Running","restarts":3}]"#;
    let ten = Json::number(10);
    let hi = compress_json_where(input, &mut cas, "restarts", Op::Gt, &ten);
    assert_eq!(hi.reconstruct(&cas).unwrap(), input);
    let r = hi.render_for_model();
    assert!(r.contains(r#""name":"b""#));
    assert!(!r.contains(r#""name":"a""#) && !r.contains(r#""name":"c""#));

    let mut cas2 = MemoryCas::new();
    let phase = Json::text("Running");
    let running = compress_json_where(input, &mut cas2, "phase", Op::Eq, &phase);
    assert_eq!(running.reconstruct(&cas2).unwrap(), input);
    let r2 = running.render_for_model();
    assert!(r2.contains(r#""name":"a""#) && r2.contains(r#""name":"c""#));
    assert!(!r2.contains(r#""name":"b""#));

    assert!(!row_passes(br#"{"other":1}"#, "phase", Op::Ne, &phase));
    assert!(!row_passes(b"7", "phase", Op::Ne, &phase));
}

// ---------------------------------------------------------------------------
// The compressor's settings
// ---------------------------------------------------------------------------

fn big_json() -> Vec<u8> {
    let items: Vec<String> = (0..40)
        .map(|i| format!(r#"{{"id":{i},"v":"xxxxxxxx"}}"#))
        .collect();
    format!("[{}]", items.join(",")).into_bytes()
}

#[test]
fn default_is_max_reduction_and_round_trips() {
    let mut cas = MemoryCas::new();
    let input = big_json();
    let doc = plain().compress(&input, &mut cas).unwrap();
    assert_eq!(doc.reconstruct(&cas).unwrap(), input);
    assert!(doc.rendered_len() < input.len());
}

#[test]
fn token_budget_without_counter_is_an_error() {
    let mut cas = MemoryCas::new();
    let err = plain()
        .budget(Budget::Tokens(50))
        .compress(&big_json(), &mut cas)
        .unwrap_err();
    assert!(matches!(
        err,
        CompressError::CounterRequired {
            budget: Budget::Tokens(50)
        }
    ));
    assert!(cas.is_empty());
}

#[test]
fn reduction_budget_without_counter_is_an_error() {
    let mut cas = MemoryCas::new();
    let err = plain()
        .budget(reduction(0.8))
        .compress(&big_json(), &mut cas)
        .unwrap_err();
    assert!(matches!(err, CompressError::CounterRequired { .. }));
    assert_eq!(
        err.message("0.8"),
        "a Reduction(0.8) budget needs a token counter; set one with Compressor::counter"
    );
}

#[test]
fn the_default_compressor_is_a_new_one() {
    let input = big_json();
    let default: Compressor<'static, HeuristicCounter> = Compressor::default();
    assert_eq!(
        default.compress(&input, &mut MemoryCas::new()).unwrap(),
        plain().compress(&input, &mut MemoryCas::new()).unwrap()
    );
}

#[test]
fn token_budget_with_counter_round_trips() {
    let mut cas = MemoryCas::new();
    let counter = HeuristicCounter;
    let input = big_json();
    let doc = Compressor::new()
        .budget(Budget::Tokens(20))
        .counter(&counter)
        .compress(&input, &mut cas)
        .unwrap();
    assert_eq!(doc.reconstruct(&cas).unwrap(), input);
}

#[test]
fn min_bytes_controls_the_passthrough_threshold() {
    let mut cas = MemoryCas::new();
    let small = br#"[{"id":1},{"id":2}]"#;

    let passthrough = plain().compress(small, &mut cas).unwrap();
    assert_eq!(passthrough.segments.len(), 1);
    assert_eq!(passthrough.reconstruct(&cas).unwrap(), &small[..]);
    assert!(one_verbatim(&passthrough));

    let offloaded = plain().min_bytes(0).compress(small, &mut cas).unwrap();
    assert_eq!(offloaded.reconstruct(&cas).unwrap(), &small[..]);
    assert!(took_ref(&offloaded));
}

// ---------------------------------------------------------------------------
// What the settings give on longer inputs
// ---------------------------------------------------------------------------

const FRAC: f32 = 0.8;

fn savings_pct(raw: &[u8], rendered: &str) -> f64 {
    let r = HeuristicCounter.count(&String::from_utf8_lossy(raw));
    let o = HeuristicCounter.count(rendered);
    if r == 0 {
        0.0
    } else {
        100.0 * (r as f64 - o as f64) / r as f64
    }
}

fn reduced(input: &[u8], fraction: f32) -> CompressedDoc {
    let mut cas = MemoryCas::new();
    let doc = Compressor::new()
        .budget(reduction(fraction))
        .counter(&HeuristicCounter)
        .compress(input, &mut cas)
        .unwrap();
    assert_eq!(
        doc.reconstruct(&cas).unwrap(),
        input,
        "byte-exact reversible"
    );
    doc
}

#[test]
fn json_array_compresses_and_round_trips() {
    let items: Vec<String> = (0..200)
        .map(|i| format!(r#"{{"id":{i},"sub":"drivers","files":{}}}"#, i % 97))
        .collect();
    let input = format!("[{}]", items.join(",")).into_bytes();
    let doc = reduced(&input, FRAC);
    let saved = savings_pct(&input, &doc.render_for_model());
    assert!(
        saved > 50.0,
        "JSON array should compress substantially, got {saved:.1}%"
    );
}

#[test]
fn log_compresses_and_round_trips() {
    let input = "2026-06-07 12:00:00 INFO request handled ok\n"
        .repeat(40)
        .into_bytes();
    let doc = reduced(&input, FRAC);
    let saved = savings_pct(&input, &doc.render_for_model());
    assert!(
        saved > 50.0,
        "a repetitive log should compress substantially, got {saved:.1}%"
    );
}

#[test]
fn window_keeps_head_and_tail() {
    let items: Vec<String> = (0..60).map(|i| format!(r#"{{"id":{i}}}"#)).collect();
    let input = format!("[{}]", items.join(",")).into_bytes();
    let render = reduced(&input, 0.7).render_for_model();
    assert!(render.contains(r#""id":0"#), "head survives: {render}");
    assert!(render.contains(r#""id":59"#), "tail survives: {render}");
    assert!(
        render.contains("cof:"),
        "the middle run is offloaded to a sentinel: {render}"
    );
}

#[test]
fn build_log_compresses_and_round_trips() {
    let mut s = String::new();
    for i in 0..120 {
        s.push_str(&format!("   Compiling crate_{i} v0.1.{i}\n"));
    }
    s.push_str("    Finished `dev` profile [unoptimized] target(s) in 3.2s\n");
    let input = s.into_bytes();
    let doc = reduced(&input, FRAC);
    let saved = savings_pct(&input, &doc.render_for_model());
    assert!(
        saved > 50.0,
        "repetitive build output should compress, got {saved:.1}%"
    );
    assert!(
        doc.render_for_model().contains("Finished"),
        "the tail summary survives the window"
    );
}

#[test]
fn verbose_git_status_compresses_and_round_trips() {
    let mut s = String::from(
        "On branch main\n\
         Changes not staged for commit:\n\
           (use \"git add <file>...\" to update what will be committed)\n\
           (use \"git restore <file>...\" to discard changes in working directory)\n",
    );
    for i in 0..60 {
        s.push_str(&format!("\tmodified:   crates/example_{i}/src/lib.rs\n"));
    }
    s.push_str(
        "\n\
         Untracked files:\n\
           (use \"git add <file>...\" to include in what will be committed)\n",
    );
    for i in 0..20 {
        s.push_str(&format!("\tdocs/generated-{i}.md\n"));
    }
    s.push_str("\nno changes added to commit (use \"git add\" and/or \"git commit -a\")\n");
    let input = s.into_bytes();
    let render = reduced(&input, FRAC).render_for_model();
    let saved = savings_pct(&input, &render);
    assert!(
        saved > 50.0,
        "verbose git status should compress substantially, got {saved:.1}%"
    );
    assert!(
        render.contains("On branch main"),
        "the head status context survives: {render}"
    );
    assert!(
        render.contains("no changes added"),
        "the tail summary survives: {render}"
    );
}

#[test]
fn budget_dedups_logs_so_distinct_middle_events_survive() {
    let mut s = String::new();
    for _ in 0..50 {
        s.push_str("heartbeat ping ok\n");
    }
    s.push_str("EVENT_X the important middle thing\n");
    for _ in 0..50 {
        s.push_str("heartbeat ping ok\n");
    }
    s.push_str("EVENT_Y another middle thing\n");
    for _ in 0..50 {
        s.push_str("heartbeat ping ok\n");
    }
    let input = s.into_bytes();
    let render = reduced(&input, 0.9).render_for_model();
    assert!(
        render.contains("EVENT_X"),
        "dedup preserves the distinct middle event: {render}"
    );
    assert!(
        render.contains("EVENT_Y"),
        "and the second one a positional window would bury: {render}"
    );
}

#[test]
fn prose_passes_through_verbatim() {
    let input =
        b"The quick brown fox jumps over the lazy dog. This is ordinary prose, not a log or a JSON \
          array, so the engine should leave it exactly as-is rather than offload any of it."
            .to_vec();
    let doc = reduced(&input, FRAC);
    assert_eq!(
        doc.render_for_model().as_bytes(),
        &input[..],
        "prose is passed through verbatim"
    );
}

// ---------------------------------------------------------------------------
// The view of source code
// ---------------------------------------------------------------------------

fn code_fixture() -> Vec<u8> {
    br"
use std::collections::HashMap;

pub struct Widget {
    value: usize,
}

impl Widget {
    pub fn compute(&self, items: &[usize]) -> usize {
        let mut total = self.value;
        for item in items {
            total += item;
        }
        total
    }
}
"
    .to_vec()
}

#[test]
fn structural_code_view_keeps_signatures_not_bodies() {
    let view = structural_code_view(&code_fixture());
    assert!(view.contains("use std::collections::HashMap;"));
    assert!(view.contains("pub struct Widget"));
    assert!(view.contains("impl Widget"));
    assert!(view.contains("pub fn compute"));
    assert!(!view.contains("total += item"));
    assert!(view.contains("non-structural lines omitted"));
}

#[test]
fn structural_code_compact_view_has_sentinel_and_reconstructs() {
    let input = code_fixture();
    let mut cas = MemoryCas::new();
    let counter = HeuristicCounter;
    let doc = compress_structural_code_to_budget(&input, &mut cas, 120, &counter);
    assert!(doc.model_text.contains("<<cof:"));
    assert!(doc.model_text.contains("pub struct Widget"));
    assert!(doc.model_text.contains("pub fn compute"));
    assert!(!doc.model_text.contains("total += item"));
    assert_eq!(doc.reconstruct(&cas).unwrap(), input);
}

#[test]
fn structural_code_compact_view_fits_when_above_sentinel_floor() {
    let input = code_fixture();
    let mut cas = MemoryCas::new();
    let counter = HeuristicCounter;
    let target = 40;
    let doc = compress_structural_code_to_budget(&input, &mut cas, target, &counter);
    let tokens = counter.count(&doc.model_text);
    assert!(tokens <= target, "{tokens} > {target}\n{}", doc.model_text);
    assert!(doc.model_text.contains("<<cof:"));
    assert_eq!(doc.reconstruct(&cas).unwrap(), input);
}

// ---------------------------------------------------------------------------
// Attestation
// ---------------------------------------------------------------------------

#[test]
fn attest_round_trips_a_corpus_byte_exact() {
    let mut cas = MemoryCas::new();
    let tok = HeuristicCounter;
    let json =
        br#"[{"name":"a","value":1},{"name":"b","value":2},{"name":"c","value":3},{"name":"d","value":4}]"#
            .as_slice();
    let log = b"2026-01-01T00:00:00 INFO boot\n2026-01-01T00:00:01 ERROR x\n2026-01-01T00:00:02 INFO boot\n2026-01-01T00:00:03 WARN y\n2026-01-01T00:00:04 INFO z\n2026-01-01T00:00:05 ERROR x\n2026-01-01T00:00:06 INFO boot\n2026-01-01T00:00:07 INFO done\n".as_slice();
    let text = b"plain prose that simply passes through unchanged".as_slice();
    let report = attest(&[json, log, text], &mut cas, &tok);
    assert!(report.ok(), "{report:?}");
    assert_eq!(report.passed, 3);
    assert_eq!(report.first_failure, None);
    assert_eq!(
        report.bytes_round_tripped,
        json.len() + log.len() + text.len()
    );
}

#[test]
fn attest_empty_corpus_is_trivially_ok() {
    let report = attest(&[], &mut MemoryCas::new(), &HeuristicCounter);
    assert!(report.ok());
    assert_eq!(report.samples, 0);
}

/// A store that flips a bit of all that it gives back.
struct CorruptingCas {
    inner: MemoryCas,
}

impl Cas for CorruptingCas {
    fn put(&mut self, bytes: &[u8]) -> ContentHash {
        self.inner.put(bytes)
    }

    fn get(&self, hash: &ContentHash) -> Option<Vec<u8>> {
        self.inner.get(hash).map(|mut bytes| {
            if let Some(first) = bytes.first_mut() {
                *first ^= 0x80;
            }
            bytes
        })
    }

    fn contains(&self, hash: &ContentHash) -> bool {
        self.inner.contains(hash)
    }

    fn len(&self) -> usize {
        self.inner.len()
    }
}

fn json_array_bytes(values: &[i64]) -> Vec<u8> {
    let body: Vec<String> = values
        .iter()
        .enumerate()
        .map(|(i, v)| format!(r#"{{"k{i}":{v}}}"#))
        .collect();
    format!("[{}]", body.join(",")).into_bytes()
}

#[test]
fn attest_round_trips_a_fuzzed_corpus_byte_exact() {
    let mut rng = Rng::new(61);
    for _ in 0..60 {
        let values: Vec<i64> = (0..1 + rng.below(11)).map(|_| rng.next() as i64).collect();
        let json = json_array_bytes(&values);
        let raw: Vec<u8> = (0..rng.below(64)).map(|_| rng.next() as u8).collect();
        let mut log = String::new();
        for i in 0..1 + rng.below(9) {
            let words = "ab c ".repeat(rng.below(4) as usize);
            log.push_str(&format!("2026-01-01T00:00:{i:02} INFO {words}\n"));
        }
        let samples: Vec<&[u8]> = vec![&json, &raw, log.as_bytes()];
        let expected: usize = samples.iter().map(|s| s.len()).sum();
        let report = attest(&samples, &mut MemoryCas::new(), &HeuristicCounter);
        assert!(report.ok(), "{report:?}");
        assert_eq!(report.samples, 3);
        assert_eq!(report.passed, 3);
        assert_eq!(report.first_failure, None);
        assert_eq!(report.bytes_round_tripped, expected);
    }
}

#[test]
fn attest_detects_corrupted_offloaded_bytes() {
    let tok = HeuristicCounter;
    let json = json_array_bytes(&[1, 2, 3, 4, 5, 6, 7, 8]);
    let sample: &[u8] = json.as_slice();

    let mut clean = MemoryCas::new();
    let good = attest(&[sample], &mut clean, &tok);
    assert!(good.ok(), "a clean store must pass: {good:?}");
    assert!(
        clean.len() > 0,
        "sample must offload to be a real control"
    );

    let mut evil = CorruptingCas {
        inner: MemoryCas::new(),
    };
    let report = attest(&[sample], &mut evil, &tok);
    assert!(
        evil.len() > 0,
        "sample must have offloaded into the corrupting store"
    );
    assert!(!report.ok(), "corruption must be detected: {report:?}");
    assert_eq!(report.first_failure, Some(0), "{report:?}");
    assert_eq!(report.passed, 0, "{report:?}");
    assert_eq!(report.bytes_round_tripped, 0, "{report:?}");
}
