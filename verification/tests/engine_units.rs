//! Unit tests for the engine's pieces: score formatting against the JSON
//! serializer the rest of the world uses, tokenization, canonicalization,
//! fingerprints, fixtures, and exact golden outputs.

use context_engine::builder::{build_plan, fnv64_exec, SourceDoc};
use context_engine::fixture::{
    cache_path, canonicalize, documents_path, fixtures_root, parse_query_fixture, schemas_root,
    v0_root,
};
use context_engine::cli_runner::CliRunner;
use context_engine::inspect::inspect;
use context_engine::model::ReadOutcome;
use context_engine::protocol::list_caches_output;
use context_engine::resolve::resolve;
use context_engine::score::score_bytes;
use context_engine::text::tokenize;

fn src(id: &str, content: &str) -> SourceDoc {
    SourceDoc { id: id.as_bytes().to_vec(), content: content.as_bytes().to_vec() }
}

/// The rendered score text must agree byte for byte with what the JSON
/// serializer produces for the same 32-bit quotient.
#[test]
fn score_text_matches_json_serializer() {
    let mut cases: Vec<(u64, u64)> = Vec::new();
    for t in 1..=200u64 {
        for m in 0..=t {
            cases.push((m, t));
        }
    }
    for &t in &[997u64, 4096, 65537, 999983, 1048576] {
        for k in 0..50u64 {
            let m = (k * t) / 50;
            cases.push((m, t));
            if m + 1 <= t {
                cases.push((m + 1, t));
            }
        }
    }
    // Tiny quotients reach the exponent notation.
    for &t in &[2_000_000u64, 30_000_000, 400_000_000] {
        cases.push((1, t));
        cases.push((3, t));
    }
    for (m, t) in cases {
        let got = String::from_utf8(score_bytes(m, t)).unwrap();
        let expected_value: f32 = if m == 0 || t == 0 {
            0.0
        } else {
            ((m as f64) / (t as f64)) as f32
        };
        let expected = serde_json::to_string(&expected_value).unwrap();
        assert_eq!(got, expected, "score text differs for {m}/{t}");
    }
}

/// The exact frozen examples: 3/4, 1/3, 1/2, 0.
#[test]
fn score_text_frozen_examples() {
    assert_eq!(String::from_utf8(score_bytes(3, 4)).unwrap(), "0.75");
    assert_eq!(String::from_utf8(score_bytes(1, 3)).unwrap(), "0.33333334");
    assert_eq!(String::from_utf8(score_bytes(1, 2)).unwrap(), "0.5");
    assert_eq!(String::from_utf8(score_bytes(0, 0)).unwrap(), "0.0");
    assert_eq!(String::from_utf8(score_bytes(0, 7)).unwrap(), "0.0");
    assert_eq!(String::from_utf8(score_bytes(5, 5)).unwrap(), "1.0");
}

/// Tokenization folds case and splits on non-word bytes.
#[test]
fn tokenize_folds_and_splits() {
    let toks = tokenize(b"Hello, WORLD-42! guide_guide");
    let toks: Vec<String> = toks
        .into_iter()
        .map(|t| String::from_utf8(t).unwrap())
        .collect();
    assert_eq!(toks, vec!["hello", "world", "42", "guide", "guide"]);
    assert!(tokenize(b"").is_empty());
    assert!(tokenize(b" ,;- ").is_empty());
}

/// Canonicalization folds CRLF, trims line ends, drops a final line break.
#[test]
fn canonicalize_cases() {
    assert_eq!(canonicalize("a \r\nb  \n\n"), "a\nb\n");
    assert_eq!(canonicalize("plain"), "plain");
    assert_eq!(canonicalize("line\n"), "line");
    assert_eq!(canonicalize(""), "");
    assert_eq!(canonicalize("tab\t\r\n"), "tab");
}

/// The fixture path helpers join with forward slashes.
#[test]
fn fixture_paths() {
    assert_eq!(fixtures_root("/base"), "/base/fixtures");
    assert_eq!(v0_root("/base"), "/base/fixtures/v0");
    assert_eq!(cache_path("/base", "minimal"), "/base/fixtures/v0/caches/minimal");
    assert_eq!(documents_path("/base", "minimal"), "/base/fixtures/v0/documents/minimal");
    assert_eq!(schemas_root("/base"), "/base/schemas");
}

/// A query fixture parses to its query text and budget.
#[test]
fn query_fixture_parses() {
    let p = parse_query_fixture(b"{\"query\":\"hello world\",\"budget\":4000}").unwrap();
    assert_eq!(p.0, b"hello world".to_vec());
    assert_eq!(p.1, 4000);
    assert!(parse_query_fixture(b"{\"query\":3,\"budget\":4000}").is_none());
    assert!(parse_query_fixture(b"{\"query\":\"x\",\"budget\":-1}").is_none());
    assert!(parse_query_fixture(b"not json").is_none());
}

/// The runner type keeps the binary path it is given.
#[test]
fn cli_runner_new_keeps_bin() {
    let r = CliRunner::new(String::from("/usr/bin/ctx"));
    assert_eq!(r.bin, "/usr/bin/ctx");
}

/// FNV-1a 64 test vectors.
#[test]
fn fnv64_vectors() {
    assert_eq!(fnv64_exec(b""), 0xcbf29ce484222325);
    assert_eq!(fnv64_exec(b"a"), 0xaf63dc4c8601ec8c);
    assert_eq!(fnv64_exec(b"foobar"), 0x85944171f73967e8);
}

/// The whole resolve output, byte for byte.
#[test]
fn golden_resolve_output() {
    let plan = build_plan(
        vec![src("a.md", "deployment guide"), src("b.md", "deployment notes")],
        b"2024-01-01T00:00:00Z",
    )
    .unwrap();
    let out = resolve(
        &ReadOutcome::Content(plan.manifest.clone()),
        &ReadOutcome::Content(plan.index.clone()),
        b"deployment",
        4000,
    )
    .unwrap();
    let expected = "{\"documents\":[{\"id\":\"a.md\",\"score\":0.5},{\"id\":\"b.md\",\"score\":0.5}],\"selection\":{\"documents_considered\":2,\"documents_selected\":2,\"documents_excluded_by_budget\":0}}";
    assert_eq!(String::from_utf8(out).unwrap(), expected);
}

/// The whole inspect output, byte for byte.
#[test]
fn golden_inspect_output() {
    let plan = build_plan(
        vec![src("a.md", "deployment guide"), src("b.md", "deployment notes")],
        b"2024-01-01T00:00:00Z",
    )
    .unwrap();
    let out = inspect(&ReadOutcome::Content(plan.manifest)).unwrap();
    assert_eq!(
        String::from_utf8(out).unwrap(),
        "{\"cache_version\":\"1\",\"document_count\":2,\"valid\":true}"
    );
}

/// First-fit keeps scanning after an exclusion and a tight budget splits
/// the documents.
#[test]
fn tight_budget_first_fit() {
    // a.md and b.md both cost 16 bytes; c.md costs 4.
    let plan = build_plan(
        vec![
            src("a.md", "deployment guide"),
            src("b.md", "deployment notes"),
            src("c.md", "tiny"),
        ],
        b"2024-01-01T00:00:00Z",
    )
    .unwrap();
    let out = resolve(
        &ReadOutcome::Content(plan.manifest),
        &ReadOutcome::Content(plan.index),
        b"deployment",
        20,
    )
    .unwrap();
    let v: serde_json::Value = serde_json::from_slice(&out).unwrap();
    // a.md (16) fits; b.md (16) does not; c.md (4) still fits afterwards.
    let docs = v["documents"].as_array().unwrap();
    let ids: Vec<&str> = docs.iter().map(|d| d["id"].as_str().unwrap()).collect();
    assert_eq!(ids, vec!["a.md", "c.md"]);
    assert_eq!(v["selection"]["documents_considered"], 3);
    assert_eq!(v["selection"]["documents_selected"], 2);
    assert_eq!(v["selection"]["documents_excluded_by_budget"], 1);
}

/// Cache listing sorts names ascending, however they were enumerated.
#[test]
fn list_caches_sorted() {
    let out = list_caches_output(vec![
        b"realistic".to_vec(),
        b"minimal".to_vec(),
        b"tie_break".to_vec(),
    ]);
    assert_eq!(
        String::from_utf8(out).unwrap(),
        "{\"caches\":[\"minimal\",\"realistic\",\"tie_break\"]}"
    );
}

/// A manifest whose document count disagrees with its array is invalid.
#[test]
fn count_mismatch_is_invalid() {
    let m = "{\"cache_version\":\"1\",\"document_count\":2,\"documents\":[{\"id\":\"a.md\",\"file\":\"612e6d64.bin\"}],\"created_at\":\"x\"}"
        .as_bytes()
        .to_vec();
    let e = resolve(&ReadOutcome::Content(m.clone()), &ReadOutcome::Content(m), b"q", 10)
        .unwrap_err();
    assert_eq!(context_engine::model::exit_code(e), 5);
}

/// Unicode escapes in ids survive a build/parse round trip.
#[test]
fn unicode_id_round_trip() {
    let plan = build_plan(
        vec![src("d\u{00e9}p\u{00f4}t.md", "hello world"), src("plain.md", "hello")],
        b"2024-01-01T00:00:00Z",
    )
    .unwrap();
    let out = resolve(
        &ReadOutcome::Content(plan.manifest),
        &ReadOutcome::Content(plan.index),
        b"hello",
        4000,
    )
    .unwrap();
    let v: serde_json::Value = serde_json::from_slice(&out).unwrap();
    let ids: Vec<&str> = v["documents"]
        .as_array()
        .unwrap()
        .iter()
        .map(|d| d["id"].as_str().unwrap())
        .collect();
    assert!(ids.contains(&"d\u{00e9}p\u{00f4}t.md"));
    assert!(ids.contains(&"plain.md"));
}
