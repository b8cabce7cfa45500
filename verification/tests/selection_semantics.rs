//! Selection semantics tests: ordering stability, zero-score inclusion,
//! float format.

use context_engine::builder::{build_plan, SourceDoc};
use context_engine::model::ReadOutcome;
use context_engine::resolve::resolve;

fn src(id: &str, content: &str) -> SourceDoc {
    SourceDoc { id: id.as_bytes().to_vec(), content: content.as_bytes().to_vec() }
}

fn cache(docs: &[(&str, &str)]) -> (Vec<u8>, Vec<u8>) {
    let srcs: Vec<SourceDoc> = docs.iter().map(|(i, c)| src(i, c)).collect();
    let plan = build_plan(srcs, b"2024-01-01T00:00:00Z").unwrap();
    (plan.manifest, plan.index)
}

fn resolve_str(mi: &(Vec<u8>, Vec<u8>), q: &str, budget: u64) -> String {
    let out = resolve(
        &ReadOutcome::Content(mi.0.clone()),
        &ReadOutcome::Content(mi.1.clone()),
        q.as_bytes(),
        budget,
    )
    .unwrap();
    String::from_utf8(out).unwrap()
}

fn tie_break_cache() -> (Vec<u8>, Vec<u8>) {
    cache(&[("a.md", "deployment guide"), ("b.md", "deployment notes")])
}

fn minimal_cache() -> (Vec<u8>, Vec<u8>) {
    cache(&[("hello.md", "hello world"), ("readme.md", "readme text here")])
}

fn realistic_cache() -> (Vec<u8>, Vec<u8>) {
    cache(&[
        ("deployment.md", "deployment deployment deployment guide"),
        ("empty.md", ""),
        ("security.md", "security model overview"),
    ])
}

/// Two documents with equal scores must appear in document ID order
/// (a.md before b.md): the tie-breaking rule is (score DESC, id ASC).
#[test]
fn equal_score_ordered_by_id() {
    let c = tie_break_cache();
    let raw = resolve_str(&c, "deployment", 4000);
    let v: serde_json::Value = serde_json::from_str(&raw).unwrap();
    let docs = v["documents"].as_array().unwrap();
    assert_eq!(docs.len(), 2, "expected 2 documents");
    assert_eq!(docs[0]["id"], "a.md", "first document should be a.md");
    assert_eq!(docs[1]["id"], "b.md", "second document should be b.md");
    assert_eq!(docs[0]["score"], docs[1]["score"], "scores should be equal");
}

/// When no query terms match, all documents still get score 0.0 and are
/// included if budget allows, in ascending id order.
#[test]
fn zero_score_documents_included() {
    let c = tie_break_cache();
    let raw = resolve_str(&c, "zzz nothing matches", 4000);
    let v: serde_json::Value = serde_json::from_str(&raw).unwrap();
    let docs = v["documents"].as_array().unwrap();
    assert_eq!(docs.len(), 2, "zero-score docs should be included when budget allows");
    for doc in docs {
        assert_eq!(
            doc["score"].as_f64().unwrap(),
            0.0,
            "non-matching doc {} should have score 0.0",
            doc["id"]
        );
    }
    assert_eq!(docs[0]["id"], "a.md");
    assert_eq!(docs[1]["id"], "b.md");
    assert_eq!(v["selection"]["documents_selected"], 2);
    assert_eq!(v["selection"]["documents_excluded_by_budget"], 0);
}

/// Zero budget excludes ALL documents, even zero-score ones.
#[test]
fn zero_budget_excludes_all() {
    let c = minimal_cache();
    let raw = resolve_str(&c, "hello", 0);
    let v: serde_json::Value = serde_json::from_str(&raw).unwrap();
    let docs = v["documents"].as_array().unwrap();
    assert!(docs.is_empty(), "zero budget should produce empty documents array");
    assert_eq!(v["selection"]["documents_selected"], 0);
    assert!(
        v["selection"]["documents_excluded_by_budget"].as_u64().unwrap() > 0,
        "should report excluded documents"
    );
}

/// Score serialization must use the minimal f32 representation:
/// 0.75 (not 0.750000), 0.5, 0.33333334, 0.0 — exact byte text.
#[test]
fn float_format_stability() {
    // Case 1: 3/4 = 0.75 (deployment.md with query "deployment")
    let c = realistic_cache();
    let raw = resolve_str(&c, "deployment", 4000);
    assert!(raw.contains("\"score\":0.75"), "expected score 0.75 in raw JSON, got: {raw}");
    // empty.md: 0/0 = 0.0
    assert!(raw.contains("\"score\":0.0"), "expected score 0.0 in raw JSON, got: {raw}");

    // Case 2: 1/3 = 0.33333334 (security.md with query "deployment security")
    let raw2 = resolve_str(&c, "deployment security", 4000);
    assert!(
        raw2.contains("\"score\":0.33333334"),
        "expected score 0.33333334 (f32 representation of 1/3) in raw JSON, got: {raw2}"
    );

    // Case 3: 1/2 = 0.5 (tie_break docs)
    let ctb = tie_break_cache();
    let raw3 = resolve_str(&ctb, "deployment", 4000);
    assert!(raw3.contains("\"score\":0.5"), "expected score 0.5 in raw JSON, got: {raw3}");
}
