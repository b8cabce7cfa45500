//! Determinism tests: same input twice produces byte-identical output.

use context_engine::builder::{build_plan, SourceDoc};
use context_engine::model::ReadOutcome;
use context_engine::resolve::resolve;

fn src(id: &str, content: &str) -> SourceDoc {
    SourceDoc { id: id.as_bytes().to_vec(), content: content.as_bytes().to_vec() }
}

fn minimal_srcs() -> Vec<SourceDoc> {
    vec![src("hello.md", "hello world"), src("readme.md", "readme text here")]
}

fn realistic_srcs() -> Vec<SourceDoc> {
    vec![
        src("deployment.md", "deployment deployment deployment guide"),
        src("empty.md", ""),
        src("security.md", "security model overview"),
    ]
}

fn cache_of(srcs: Vec<SourceDoc>) -> (Vec<u8>, Vec<u8>) {
    let plan = build_plan(srcs, b"2024-01-01T00:00:00Z").unwrap();
    (plan.manifest, plan.index)
}

fn run(c: &(Vec<u8>, Vec<u8>), q: &str, budget: u64) -> Vec<u8> {
    resolve(
        &ReadOutcome::Content(c.0.clone()),
        &ReadOutcome::Content(c.1.clone()),
        q.as_bytes(),
        budget,
    )
    .unwrap()
}

#[test]
fn resolve_deterministic_minimal_basic() {
    let c = cache_of(minimal_srcs());
    let out1 = run(&c, "hello", 4000);
    let out2 = run(&c, "hello", 4000);
    assert_eq!(out1, out2, "resolve output is not deterministic");
}

#[test]
fn resolve_deterministic_realistic_basic() {
    let c = cache_of(realistic_srcs());
    let out1 = run(&c, "hello", 4000);
    let out2 = run(&c, "hello", 4000);
    assert_eq!(out1, out2, "resolve output is not deterministic");
}

#[test]
fn resolve_deterministic_realistic_multi_term() {
    let c = cache_of(realistic_srcs());
    let out1 = run(&c, "deployment security", 4000);
    let out2 = run(&c, "deployment security", 4000);
    assert_eq!(out1, out2, "resolve output is not deterministic");
}

#[test]
fn resolve_deterministic_zero_budget() {
    let c = cache_of(minimal_srcs());
    let out1 = run(&c, "hello", 0);
    let out2 = run(&c, "hello", 0);
    assert_eq!(out1, out2, "resolve output is not deterministic");
}

/// Build the same sources twice (for two target directories, at two times):
/// manifests agree on everything but `created_at`, index and payload files
/// are byte-identical, and resolving against either copy agrees.
#[test]
fn build_deterministic() {
    let p1 = build_plan(minimal_srcs(), b"2024-01-01T00:00:00Z").unwrap();
    let p2 = build_plan(minimal_srcs(), b"2025-06-30T12:34:56Z").unwrap();

    let m1: serde_json::Value = serde_json::from_slice(&p1.manifest).unwrap();
    let m2: serde_json::Value = serde_json::from_slice(&p2.manifest).unwrap();
    assert_eq!(m1["cache_version"], m2["cache_version"], "manifest cache_version differs");
    assert_eq!(m1["build_config"], m2["build_config"], "manifest build_config differs");
    assert_eq!(m1["document_count"], m2["document_count"], "manifest document_count differs");
    assert_eq!(m1["documents"], m2["documents"], "manifest documents array differs");

    assert_eq!(p1.index, p2.index, "index.json differs");

    assert_eq!(p1.payloads.len(), p2.payloads.len());
    for (a, b) in p1.payloads.iter().zip(p2.payloads.iter()) {
        assert_eq!(a.0, b.0, "payload file name differs");
        assert_eq!(a.1, b.1, "payload file content differs");
    }

    let r1 = run(&(p1.manifest.clone(), p1.index.clone()), "hello", 4000);
    let r2 = run(&(p2.manifest.clone(), p2.index.clone()), "hello", 4000);
    assert_eq!(r1, r2, "resolve against rebuilt caches is not deterministic");
}

/// Build from realistic sources also produces deterministic output.
#[test]
fn build_deterministic_realistic() {
    let p1 = build_plan(realistic_srcs(), b"2024-01-01T00:00:00Z").unwrap();
    let p2 = build_plan(realistic_srcs(), b"2030-12-31T23:59:59Z").unwrap();
    let m1: serde_json::Value = serde_json::from_slice(&p1.manifest).unwrap();
    let m2: serde_json::Value = serde_json::from_slice(&p2.manifest).unwrap();
    assert_eq!(m1["cache_version"], m2["cache_version"]);
    assert_eq!(m1["documents"], m2["documents"]);
}

/// A build sorts by id: handing the sources in another order changes
/// nothing at all, timestamp included.
#[test]
fn build_order_independent() {
    let mut rev = realistic_srcs();
    rev.reverse();
    let p1 = build_plan(realistic_srcs(), b"2024-01-01T00:00:00Z").unwrap();
    let p2 = build_plan(rev, b"2024-01-01T00:00:00Z").unwrap();
    assert_eq!(p1.manifest, p2.manifest);
    assert_eq!(p1.index, p2.index);
}
