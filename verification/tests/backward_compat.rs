//! Error boundaries and version gating: frozen exit codes, missing and
//! corrupt caches, and caches declaring a future format version.

use context_engine::builder::{build_plan, SourceDoc};
use context_engine::inspect::inspect;
use context_engine::model::{exit_code, ErrKind, ReadOutcome};
use context_engine::resolve::resolve;

const EXIT_SUCCESS: i32 = 0;
const EXIT_CACHE_MISSING: i32 = 4;
const EXIT_CACHE_INVALID: i32 = 5;
const EXIT_IO_ERROR: i32 = 6;

fn src(id: &str, content: &str) -> SourceDoc {
    SourceDoc { id: id.as_bytes().to_vec(), content: content.as_bytes().to_vec() }
}

fn minimal_cache() -> (Vec<u8>, Vec<u8>) {
    let plan = build_plan(
        vec![src("hello.md", "hello world"), src("readme.md", "readme text here")],
        b"2024-01-01T00:00:00Z",
    )
    .unwrap();
    (plan.manifest, plan.index)
}

fn realistic_cache() -> (Vec<u8>, Vec<u8>) {
    let plan = build_plan(
        vec![
            src("deployment.md", "deployment deployment deployment guide"),
            src("empty.md", ""),
            src("security.md", "security model overview"),
        ],
        b"2024-01-01T00:00:00Z",
    )
    .unwrap();
    (plan.manifest, plan.index)
}

fn run(c: &(Vec<u8>, Vec<u8>), q: &str, budget: u64) -> Result<Vec<u8>, ErrKind> {
    resolve(
        &ReadOutcome::Content(c.0.clone()),
        &ReadOutcome::Content(c.1.clone()),
        q.as_bytes(),
        budget,
    )
}

/// A freshly built minimal cache loads and produces valid resolve output.
#[test]
fn v0_cache_minimal_resolves() {
    let c = minimal_cache();
    let out = run(&c, "hello", 4000).unwrap();
    let v: serde_json::Value = serde_json::from_slice(&out).unwrap();
    assert!(v["documents"].is_array());
    assert!(v["selection"].is_object());
    assert_eq!(v["selection"]["documents_considered"], 2);
}

/// A freshly built realistic cache loads and produces valid resolve output.
#[test]
fn v0_cache_realistic_resolves() {
    let c = realistic_cache();
    let out = run(&c, "hello", 4000).unwrap();
    let v: serde_json::Value = serde_json::from_slice(&out).unwrap();
    assert!(v["documents"].is_array());
    assert_eq!(v["selection"]["documents_considered"], 3);
}

/// Built caches report valid=true when inspected.
#[test]
fn v0_cache_inspect_valid() {
    for c in &[minimal_cache(), realistic_cache()] {
        let out = inspect(&ReadOutcome::Content(c.0.clone())).unwrap();
        let v: serde_json::Value = serde_json::from_slice(&out).unwrap();
        assert_eq!(v["valid"], true, "cache should be valid");
    }
}

/// Resolving with the whole query-fixture set succeeds on both caches.
#[test]
fn v0_cache_all_queries() {
    let queries: &[(&str, u64)] = &[
        ("hello", 4000),
        ("hello", 0),
        ("deployment security", 4000),
        ("", 4000),
        ("hello", 10),
    ];
    for c in &[minimal_cache(), realistic_cache()] {
        for (q, budget) in queries {
            let out = run(c, q, *budget);
            assert!(out.is_ok(), "resolve failed for query {q}");
        }
    }
}

/// Missing cache path returns exit code 4 (CACHE_MISSING).
#[test]
fn exit_code_cache_missing() {
    let e = inspect(&ReadOutcome::Missing).unwrap_err();
    assert_eq!(
        exit_code(e),
        EXIT_CACHE_MISSING,
        "inspect of missing cache should return exit code {EXIT_CACHE_MISSING}"
    );
    let e2 = resolve(&ReadOutcome::Missing, &ReadOutcome::Missing, b"test", 100).unwrap_err();
    assert_eq!(
        exit_code(e2),
        EXIT_CACHE_MISSING,
        "resolve of missing cache should return exit code {EXIT_CACHE_MISSING}"
    );
}

/// Corrupt manifest returns exit code 5 (CACHE_INVALID).
#[test]
fn exit_code_cache_invalid() {
    let bad = b"not valid json".to_vec();
    let e = resolve(
        &ReadOutcome::Content(bad.clone()),
        &ReadOutcome::Content(bad),
        b"test",
        100,
    )
    .unwrap_err();
    assert_eq!(
        exit_code(e),
        EXIT_CACHE_INVALID,
        "resolve of corrupt cache should return exit code {EXIT_CACHE_INVALID}"
    );
}

/// Resolving against a cache dir with no manifest at all still errors,
/// with the missing-cache or invalid-cache code.
#[test]
fn exit_code_missing_manifest() {
    let e = resolve(&ReadOutcome::Missing, &ReadOutcome::Missing, b"test", 100).unwrap_err();
    let code = exit_code(e);
    assert_ne!(code, EXIT_SUCCESS, "resolve should fail without manifest");
    assert!(
        code == EXIT_CACHE_MISSING || code == EXIT_CACHE_INVALID,
        "expected exit code {EXIT_CACHE_MISSING} or {EXIT_CACHE_INVALID}, got {code}"
    );
}

/// Unreadable manifest bytes return IO_ERROR or CACHE_MISSING.
#[test]
fn exit_code_permission_denied() {
    let e = resolve(&ReadOutcome::Unreadable, &ReadOutcome::Unreadable, b"test", 100)
        .unwrap_err();
    let code = exit_code(e);
    assert_ne!(code, EXIT_SUCCESS, "should fail on unreadable manifest");
    assert!(
        code == EXIT_IO_ERROR || code == EXIT_CACHE_MISSING,
        "expected exit code {EXIT_IO_ERROR} or {EXIT_CACHE_MISSING}, got {code}"
    );
}

fn future_version_manifest() -> Vec<u8> {
    "{\"cache_version\":\"1\",\"build_config\":{\"version\":\"999\"},\"document_count\":1,\"documents\":[{\"id\":\"a.md\",\"file\":\"612e6d64.bin\",\"fingerprint\":\"0000000000000000\"}],\"created_at\":\"2024-01-01T00:00:00Z\"}"
        .as_bytes()
        .to_vec()
}

/// A cache with build_config.version "999" is either rejected as invalid or
/// loaded whole; this engine rejects it deterministically.
#[test]
fn future_version_cache_behavior() {
    let m = future_version_manifest();
    let out = resolve(
        &ReadOutcome::Content(m.clone()),
        &ReadOutcome::Content(m),
        b"hello",
        4000,
    );
    match out {
        Ok(bytes) => {
            let v: serde_json::Value = serde_json::from_slice(&bytes).unwrap();
            assert!(v["documents"].is_array());
        },
        Err(e) => {
            assert_eq!(
                exit_code(e),
                EXIT_CACHE_INVALID,
                "future version rejection should use exit code {EXIT_CACHE_INVALID}"
            );
        },
    }
}

/// Inspect of a future version cache reports the version info.
#[test]
fn future_version_inspect() {
    let m = future_version_manifest();
    let out = inspect(&ReadOutcome::Content(m)).unwrap();
    let v: serde_json::Value = serde_json::from_slice(&out).unwrap();
    assert!(v["cache_version"].is_string());
    assert_eq!(v["document_count"], 1);
    assert_eq!(v["valid"], false, "a future-version cache is not valid here");
}
