//! Protocol compatibility tests: requests classify and respond correctly,
//! and repeated identical calls are byte-identical.

use context_engine::builder::{build_plan, SourceDoc};
use context_engine::inspect::inspect;
use context_engine::model::ReadOutcome;
use context_engine::protocol::{
    handle_line, list_caches_output, tool_error_response, tool_ok_response, ServerStep,
};
use context_engine::resolve::resolve;

fn src(id: &str, content: &str) -> SourceDoc {
    SourceDoc { id: id.as_bytes().to_vec(), content: content.as_bytes().to_vec() }
}

fn minimal_cache() -> (Vec<u8>, Vec<u8>) {
    let srcs = vec![src("hello.md", "hello world"), src("readme.md", "readme text here")];
    let plan = build_plan(srcs, b"2024-01-01T00:00:00Z").unwrap();
    (plan.manifest, plan.index)
}

fn respond_bytes(line: &str) -> String {
    match handle_line(line.as_bytes()) {
        ServerStep::Respond(b) => String::from_utf8(b).unwrap(),
        _ => panic!("expected an immediate response"),
    }
}

/// Runs one tools/call resolve flow against the minimal cache.
fn call_resolve(line: &str) -> String {
    let c = minimal_cache();
    match handle_line(line.as_bytes()) {
        ServerStep::Resolve { id, cache: _, query, budget } => {
            let inner = resolve(
                &ReadOutcome::Content(c.0.clone()),
                &ReadOutcome::Content(c.1.clone()),
                &query,
                budget,
            )
            .unwrap();
            String::from_utf8(tool_ok_response(&id, &inner)).unwrap()
        },
        _ => panic!("expected a resolve tool call"),
    }
}

/// Initialize handshake returns the expected protocol version.
#[test]
fn initialize_returns_protocol_version() {
    let response = respond_bytes(
        "{\"jsonrpc\":\"2.0\",\"id\":1,\"method\":\"initialize\",\"params\":{}}",
    );
    let v: serde_json::Value = serde_json::from_str(response.trim()).unwrap();
    assert_eq!(v["jsonrpc"], "2.0");
    assert!(v["id"].is_number());
    assert_eq!(v["result"]["protocolVersion"], "2024-11-05");
    assert!(v["result"]["capabilities"]["tools"].is_object());
    assert_eq!(v["result"]["serverInfo"]["name"], "mcp-context-server");
}

/// tools/list returns exactly 3 tools.
#[test]
fn tools_list_returns_three_tools() {
    let response = respond_bytes("{\"jsonrpc\":\"2.0\",\"id\":2,\"method\":\"tools/list\",\"params\":{}}");
    let v: serde_json::Value = serde_json::from_str(response.trim()).unwrap();
    assert_eq!(v["jsonrpc"], "2.0");
    let tools = v["result"]["tools"].as_array().expect("tools should be an array");
    assert_eq!(tools.len(), 3, "expected 3 tools, got {}", tools.len());
    let names: Vec<&str> = tools.iter().map(|t| t["name"].as_str().unwrap()).collect();
    assert!(names.contains(&"context.resolve"), "missing context.resolve");
    assert!(names.contains(&"context.list_caches"), "missing context.list_caches");
    assert!(names.contains(&"context.inspect_cache"), "missing context.inspect_cache");
}

/// tools/call for context.resolve returns a valid result.
#[test]
fn tools_call_resolve() {
    let response = call_resolve(
        "{\"jsonrpc\":\"2.0\",\"id\":3,\"method\":\"tools/call\",\"params\":{\"name\":\"context.resolve\",\"arguments\":{\"cache\":\"minimal\",\"query\":\"hello\",\"budget\":4000}}}",
    );
    let v: serde_json::Value = serde_json::from_str(response.trim()).unwrap();
    assert_eq!(v["jsonrpc"], "2.0");
    let result = &v["result"];
    assert!(result["content"].is_array(), "result should have content array");
    let content = result["content"].as_array().unwrap();
    assert!(!content.is_empty(), "content should not be empty");
    assert_eq!(content[0]["type"], "text");
    let inner_text = content[0]["text"].as_str().unwrap();
    let inner: serde_json::Value = serde_json::from_str(inner_text.trim()).unwrap();
    assert!(inner["documents"].is_array());
    assert!(inner["selection"].is_object());
}

/// tools/call for context.list_caches returns cache entries.
#[test]
fn tools_call_list_caches() {
    let step = handle_line(
        "{\"jsonrpc\":\"2.0\",\"id\":4,\"method\":\"tools/call\",\"params\":{\"name\":\"context.list_caches\",\"arguments\":{}}}".as_bytes(),
    );
    let response = match step {
        ServerStep::ListCaches { id } => {
            let names = vec![b"minimal".to_vec(), b"realistic".to_vec()];
            let inner = list_caches_output(names);
            String::from_utf8(tool_ok_response(&id, &inner)).unwrap()
        },
        _ => panic!("expected a list tool call"),
    };
    let v: serde_json::Value = serde_json::from_str(response.trim()).unwrap();
    assert_eq!(v["jsonrpc"], "2.0");
    let content = v["result"]["content"].as_array().unwrap();
    assert!(!content.is_empty());
    let inner_text = content[0]["text"].as_str().unwrap();
    let inner: serde_json::Value = serde_json::from_str(inner_text.trim()).unwrap();
    assert!(inner["caches"].is_array());
}

/// tools/call for context.inspect_cache returns inspect data.
#[test]
fn tools_call_inspect_cache() {
    let c = minimal_cache();
    let step = handle_line(
        "{\"jsonrpc\":\"2.0\",\"id\":5,\"method\":\"tools/call\",\"params\":{\"name\":\"context.inspect_cache\",\"arguments\":{\"cache\":\"minimal\"}}}".as_bytes(),
    );
    let response = match step {
        ServerStep::Inspect { id, cache: _ } => {
            let inner = inspect(&ReadOutcome::Content(c.0.clone())).unwrap();
            String::from_utf8(tool_ok_response(&id, &inner)).unwrap()
        },
        _ => panic!("expected an inspect tool call"),
    };
    let v: serde_json::Value = serde_json::from_str(response.trim()).unwrap();
    assert_eq!(v["jsonrpc"], "2.0");
    let content = v["result"]["content"].as_array().unwrap();
    let inner_text = content[0]["text"].as_str().unwrap();
    let inner: serde_json::Value = serde_json::from_str(inner_text.trim()).unwrap();
    assert!(inner["cache_version"].is_string());
    assert!(inner["valid"].as_bool().unwrap());
}

/// Unknown method returns a method_not_found JSON-RPC error.
#[test]
fn unknown_method_returns_error() {
    let response = respond_bytes(
        "{\"jsonrpc\":\"2.0\",\"id\":6,\"method\":\"unknown/method\",\"params\":{}}",
    );
    let v: serde_json::Value = serde_json::from_str(response.trim()).unwrap();
    assert_eq!(v["jsonrpc"], "2.0");
    assert!(v["error"].is_object(), "should have error field");
    assert_eq!(v["error"]["code"], -32601, "should be method_not_found code");
}

/// Requesting a missing cache returns an error tool result.
#[test]
fn tools_call_missing_cache_error() {
    let step = handle_line(
        "{\"jsonrpc\":\"2.0\",\"id\":7,\"method\":\"tools/call\",\"params\":{\"name\":\"context.resolve\",\"arguments\":{\"cache\":\"nonexistent_cache_xyz\",\"query\":\"test\",\"budget\":100}}}".as_bytes(),
    );
    let response = match step {
        ServerStep::Resolve { id, cache: _, query, budget } => {
            let err = resolve(&ReadOutcome::Missing, &ReadOutcome::Missing, &query, budget)
                .unwrap_err();
            String::from_utf8(tool_error_response(&id, err)).unwrap()
        },
        _ => panic!("expected a resolve tool call"),
    };
    let v: serde_json::Value = serde_json::from_str(response.trim()).unwrap();
    assert_eq!(v["jsonrpc"], "2.0");
    let result = &v["result"];
    assert_eq!(result["isError"], true, "should be an error result");
    let content = result["content"].as_array().unwrap();
    let inner_text = content[0]["text"].as_str().unwrap();
    let inner: serde_json::Value = serde_json::from_str(inner_text.trim()).unwrap();
    assert_eq!(inner["error"]["code"], "cache_missing");
}

/// Multiple identical resolve requests produce identical inner payloads.
#[test]
fn sequential_resolve_stability() {
    let mut responses = Vec::new();
    for _ in 0..3 {
        let response = call_resolve(
            "{\"jsonrpc\":\"2.0\",\"id\":8,\"method\":\"tools/call\",\"params\":{\"name\":\"context.resolve\",\"arguments\":{\"cache\":\"minimal\",\"query\":\"hello\",\"budget\":4000}}}",
        );
        let v: serde_json::Value = serde_json::from_str(response.trim()).unwrap();
        let inner_text = v["result"]["content"][0]["text"].as_str().expect(
            "should have text content",
        );
        responses.push(inner_text.to_string());
    }
    assert_eq!(responses[0], responses[1], "response 1 != response 2");
    assert_eq!(responses[1], responses[2], "response 2 != response 3");
}

/// Multiple identical inspect requests produce identical inner payloads.
#[test]
fn sequential_inspect_stability() {
    let c = minimal_cache();
    let mut responses = Vec::new();
    for _ in 0..3 {
        let step = handle_line(
            "{\"jsonrpc\":\"2.0\",\"id\":9,\"method\":\"tools/call\",\"params\":{\"name\":\"context.inspect_cache\",\"arguments\":{\"cache\":\"minimal\"}}}".as_bytes(),
        );
        let response = match step {
            ServerStep::Inspect { id, cache: _ } => {
                let inner = inspect(&ReadOutcome::Content(c.0.clone())).unwrap();
                String::from_utf8(tool_ok_response(&id, &inner)).unwrap()
            },
            _ => panic!("expected an inspect tool call"),
        };
        let v: serde_json::Value = serde_json::from_str(response.trim()).unwrap();
        let inner_text = v["result"]["content"][0]["text"].as_str().expect(
            "should have text content",
        );
        responses.push(inner_text.to_string());
    }
    assert_eq!(responses[0], responses[1], "inspect response 1 != response 2");
    assert_eq!(responses[1], responses[2], "inspect response 2 != response 3");
}

/// The error response shape is frozen: exact structure for cache_missing.
#[test]
fn mcp_error_shape_frozen() {
    let step = handle_line(
        "{\"jsonrpc\":\"2.0\",\"id\":10,\"method\":\"tools/call\",\"params\":{\"name\":\"context.resolve\",\"arguments\":{\"cache\":\"nonexistent_cache_xyz\",\"query\":\"test\",\"budget\":100}}}".as_bytes(),
    );
    let response = match step {
        ServerStep::Resolve { id, cache: _, query, budget } => {
            let err = resolve(&ReadOutcome::Missing, &ReadOutcome::Missing, &query, budget)
                .unwrap_err();
            String::from_utf8(tool_error_response(&id, err)).unwrap()
        },
        _ => panic!("expected a resolve tool call"),
    };
    let v: serde_json::Value = serde_json::from_str(response.trim()).unwrap();
    let result = &v["result"];
    assert_eq!(result["isError"], true);
    let content = result["content"].as_array().unwrap();
    assert_eq!(content.len(), 1, "error should have exactly 1 content item");
    assert_eq!(content[0]["type"], "text");
    let inner: serde_json::Value =
        serde_json::from_str(content[0]["text"].as_str().unwrap().trim()).unwrap();
    assert_eq!(inner["error"]["code"], "cache_missing");
    assert_eq!(inner["error"]["message"], "Cache does not exist");
}
