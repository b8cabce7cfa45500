//! Schema tests: every resolve and inspect output carries exactly the
//! published shape.

use context_engine::builder::{build_plan, SourceDoc};
use context_engine::inspect::inspect;
use context_engine::model::ReadOutcome;
use context_engine::resolve::resolve;

fn src(id: &str, content: &str) -> SourceDoc {
    SourceDoc { id: id.as_bytes().to_vec(), content: content.as_bytes().to_vec() }
}

fn minimal_cache() -> (Vec<u8>, Vec<u8>) {
    let plan = build_plan(
        vec![src("hello.md", "hello world"), src("readme.md", "readme text here")],
        b"2024-01-01T00:00:00Z",
    )
    .unwrap();
    (plan.manifest, plan.index)
}

fn realistic_cache() -> (Vec<u8>, Vec<u8>) {
    let plan = build_plan(
        vec![
            src("deployment.md", "deployment deployment deployment guide"),
            src("empty.md", ""),
            src("security.md", "security model overview"),
        ],
        b"2024-01-01T00:00:00Z",
    )
    .unwrap();
    (plan.manifest, plan.index)
}

fn validate_selection_result(v: &serde_json::Value) {
    let docs = v["documents"].as_array().expect("documents must be an array");
    for d in docs {
        assert!(d["id"].is_string(), "id must be a string");
        assert!(d["score"].is_number(), "score must be a number");
        let s = d["score"].as_f64().unwrap();
        assert!((0.0..=1.0).contains(&s), "score must lie in [0,1]");
    }
    let sel = v["selection"].as_object().expect("selection must be an object");
    let considered = sel["documents_considered"].as_u64().expect("considered must be a uint");
    let selected = sel["documents_selected"].as_u64().expect("selected must be a uint");
    let excluded = sel["documents_excluded_by_budget"].as_u64().expect("excluded must be a uint");
    assert_eq!(considered, selected + excluded, "counts must add up");
    assert_eq!(docs.len() as u64, selected, "documents must list the selected ones");
}

fn validate_inspect_output(v: &serde_json::Value) {
    assert!(v["cache_version"].is_string(), "cache_version must be a string");
    assert!(v["document_count"].is_u64(), "document_count must be a uint");
    assert!(v["valid"].is_boolean(), "valid must be a bool");
}

/// Resolve output validates against the selection_result shape.
#[test]
fn resolve_validates_schema() {
    let cases: &[(&str, &str, u64)] = &[
        ("minimal", "hello", 4000),
        ("minimal", "hello", 0),
        ("realistic", "hello", 4000),
        ("realistic", "deployment security", 4000),
        ("realistic", "", 4000),
        ("minimal", "hello", 10),
    ];
    for (cache_name, q, budget) in cases {
        let c = if *cache_name == "minimal" {
            minimal_cache()
        } else {
            realistic_cache()
        };
        let out = resolve(
            &ReadOutcome::Content(c.0.clone()),
            &ReadOutcome::Content(c.1.clone()),
            q.as_bytes(),
            *budget,
        )
        .unwrap_or_else(|e| panic!("resolve failed for {cache_name}/{q}: {e:?}"));
        let value: serde_json::Value = serde_json::from_slice(&out)
            .unwrap_or_else(|e| panic!("invalid JSON from resolve {cache_name}/{q}: {e}"));
        validate_selection_result(&value);
    }
}

/// Inspect output validates against the inspect_output shape.
#[test]
fn inspect_validates_schema() {
    for c in &[minimal_cache(), realistic_cache()] {
        let out = inspect(&ReadOutcome::Content(c.0.clone())).unwrap();
        let value: serde_json::Value = serde_json::from_slice(&out).unwrap();
        validate_inspect_output(&value);
    }
}

/// Inspect of an invalid cache still validates against the shape.
#[test]
fn inspect_invalid_validates_schema() {
    let out = inspect(&ReadOutcome::Content(b"not valid json".to_vec())).unwrap();
    let value: serde_json::Value = serde_json::from_slice(&out).unwrap();
    validate_inspect_output(&value);
    assert_eq!(value["valid"], false, "corrupt cache should report valid=false");
}

/// Build a fresh cache, then inspect and resolve: both outputs validate.
#[test]
fn freshly_built_cache_validates() {
    let c = minimal_cache();
    let inspect_out = inspect(&ReadOutcome::Content(c.0.clone())).unwrap();
    let inspect_val: serde_json::Value = serde_json::from_slice(&inspect_out).unwrap();
    validate_inspect_output(&inspect_val);
    let resolve_out = resolve(
        &ReadOutcome::Content(c.0.clone()),
        &ReadOutcome::Content(c.1.clone()),
        b"hello",
        4000,
    )
    .unwrap();
    let resolve_val: serde_json::Value = serde_json::from_slice(&resolve_out).unwrap();
    validate_selection_result(&resolve_val);
}
