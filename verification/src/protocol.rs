//! The request protocol: line-delimited JSON-RPC 2.0 dispatch and the frozen
//! response envelopes.
//!
//! Each incoming line is parsed and classified into an immediate response
//! (handshake, tool listing, routing errors) or a tool invocation for the
//! caller to perform; the caller then wraps the tool's result with the
//! response builders here. Nothing is retained between lines, and every
//! response is a pure function of the request bytes and the tool outcome, so
//! identical calls produce byte-identical payloads. Tool failures travel as
//! ordinary results carrying `isError` and one of the six frozen code
//! strings; only transport-level routing failures use JSON-RPC errors.

use vstd::prelude::*;
use crate::jsonp::Json;
use crate::jsonp::JVal;
use crate::jsonp::jview_members;
use crate::jsonp::pjson;
use crate::jsonp::parse_json;
use crate::model::ErrKind;
use crate::model::jget;
use crate::model::obj_get;
use crate::model::spec_err_code;
use crate::model::err_code;
use crate::model::bytes_eq;
use crate::jsonw::quoted;
use crate::jsonw::push_quoted;
use crate::jsonw::push_slice;
use crate::builder::SourceDoc;
use crate::builder::SourceV;
use crate::builder::sort_srcs;
use crate::builder::sort_srcs_exec;

verus! {

/// What the server does with one request line.
pub enum ServerStep {
    /// Write this response; no tool work is needed.
    Respond(Vec<u8>),
    /// Open the named cache and resolve.
    Resolve { id: Vec<u8>, cache: Vec<u8>, query: Vec<u8>, budget: u64 },
    /// Enumerate the cache root.
    ListCaches { id: Vec<u8> },
    /// Open the named cache and inspect.
    Inspect { id: Vec<u8>, cache: Vec<u8> },
    /// The call was recognized but its arguments cannot be used.
    ToolFail { id: Vec<u8>, kind: ErrKind },
}

pub enum StepV {
    Respond(Seq<u8>),
    Resolve { id: Seq<u8>, cache: Seq<u8>, query: Seq<u8>, budget: u64 },
    ListCaches { id: Seq<u8> },
    Inspect { id: Seq<u8>, cache: Seq<u8> },
    ToolFail { id: Seq<u8>, kind: ErrKind },
}

impl View for ServerStep {
    type V = StepV;

    open spec fn view(&self) -> StepV {
        match self {
            ServerStep::Respond(b) => StepV::Respond(b@),
            ServerStep::Resolve { id, cache, query, budget } => StepV::Resolve {
                id: id@,
                cache: cache@,
                query: query@,
                budget: *budget,
            },
            ServerStep::ListCaches { id } => StepV::ListCaches { id: id@ },
            ServerStep::Inspect { id, cache } => StepV::Inspect { id: id@, cache: cache@ },
            ServerStep::ToolFail { id, kind } => StepV::ToolFail { id: id@, kind: *kind },
        }
    }
}

pub open spec fn init_json() -> Seq<u8> {
    seq![123u8, 34, 112, 114, 111, 116, 111, 99, 111, 108, 86, 101, 114, 115, 105, 111, 110, 34, 58, 34, 50, 48, 50, 52, 45, 49, 49, 45, 48, 53, 34, 44, 34, 99, 97, 112, 97, 98, 105, 108, 105, 116, 105, 101, 115, 34, 58, 123, 34, 116, 111, 111, 108, 115, 34, 58, 123, 125, 125, 44, 34, 115, 101, 114, 118, 101, 114, 73, 110, 102, 111, 34, 58, 123, 34, 110, 97, 109, 101, 34, 58, 34, 109, 99, 112, 45, 99, 111, 110, 116, 101, 120, 116, 45, 115, 101, 114, 118, 101, 114, 34, 44, 34, 118, 101, 114, 115, 105, 111, 110, 34, 58, 34, 48, 46, 49, 46, 48, 34, 125, 125]
}

pub open spec fn tools_json() -> Seq<u8> {
    seq![123u8, 34, 116, 111, 111, 108, 115, 34, 58, 91, 123, 34, 110, 97, 109, 101, 34, 58, 34, 99, 111, 110, 116, 101, 120, 116, 46, 114, 101, 115, 111, 108, 118, 101, 34, 44, 34, 100, 101, 115, 99, 114, 105, 112, 116, 105, 111, 110, 34, 58, 34, 82, 101, 115, 111, 108, 118, 101, 32, 97, 32, 113, 117, 101, 114, 121, 32, 97, 103, 97, 105, 110, 115, 116, 32, 97, 32, 99, 97, 99, 104, 101, 34, 44, 34, 105, 110, 112, 117, 116, 83, 99, 104, 101, 109, 97, 34, 58, 123, 34, 116, 121, 112, 101, 34, 58, 34, 111, 98, 106, 101, 99, 116, 34, 125, 125, 44, 123, 34, 110, 97, 109, 101, 34, 58, 34, 99, 111, 110, 116, 101, 120, 116, 46, 108, 105, 115, 116, 95, 99, 97, 99, 104, 101, 115, 34, 44, 34, 100, 101, 115, 99, 114, 105, 112, 116, 105, 111, 110, 34, 58, 34, 76, 105, 115, 116, 32, 99, 97, 99, 104, 101, 115, 32, 117, 110, 100, 101, 114, 32, 116, 104, 101, 32, 99, 111, 110, 102, 105, 103, 117, 114, 101, 100, 32, 114, 111, 111, 116, 34, 44, 34, 105, 110, 112, 117, 116, 83, 99, 104, 101, 109, 97, 34, 58, 123, 34, 116, 121, 112, 101, 34, 58, 34, 111, 98, 106, 101, 99, 116, 34, 125, 125, 44, 123, 34, 110, 97, 109, 101, 34, 58, 34, 99, 111, 110, 116, 101, 120, 116, 46, 105, 110, 115, 112, 101, 99, 116, 95, 99, 97, 99, 104, 101, 34, 44, 34, 100, 101, 115, 99, 114, 105, 112, 116, 105, 111, 110, 34, 58, 34, 73, 110, 115, 112, 101, 99, 116, 32, 97, 32, 99, 97, 99, 104, 101, 34, 44, 34, 105, 110, 112, 117, 116, 83, 99, 104, 101, 109, 97, 34, 58, 123, 34, 116, 121, 112, 101, 34, 58, 34, 111, 98, 106, 101, 99, 116, 34, 125, 125, 93, 125]
}

pub open spec fn rfrag1() -> Seq<u8> {
    seq![123u8, 34, 106, 115, 111, 110, 114, 112, 99, 34, 58, 34, 50, 46, 48, 34, 44, 34, 105, 100, 34, 58]
}

pub open spec fn rfrag_result() -> Seq<u8> {
    seq![44u8, 34, 114, 101, 115, 117, 108, 116, 34, 58]
}

pub open spec fn rfrag_error() -> Seq<u8> {
    seq![44u8, 34, 101, 114, 114, 111, 114, 34, 58, 123, 34, 99, 111, 100, 101, 34, 58]
}

pub open spec fn rfrag_msg() -> Seq<u8> {
    seq![44u8, 34, 109, 101, 115, 115, 97, 103, 101, 34, 58]
}

pub open spec fn lit_null() -> Seq<u8> {
    seq![110u8, 117, 108, 108]
}

pub open spec fn cfrag1() -> Seq<u8> {
    seq![123u8, 34, 99, 111, 110, 116, 101, 110, 116, 34, 58, 91, 123, 34, 116, 121, 112, 101, 34, 58, 34, 116, 101, 120, 116, 34, 44, 34, 116, 101, 120, 116, 34, 58]
}

pub open spec fn cfrag2() -> Seq<u8> {
    seq![125u8, 93, 125]
}

pub open spec fn cfrag2_err() -> Seq<u8> {
    seq![125u8, 93, 44, 34, 105, 115, 69, 114, 114, 111, 114, 34, 58, 116, 114, 117, 101, 125]
}

pub open spec fn efrag1() -> Seq<u8> {
    seq![123u8, 34, 101, 114, 114, 111, 114, 34, 58, 123, 34, 99, 111, 100, 101, 34, 58]
}

pub open spec fn lfrag1() -> Seq<u8> {
    seq![123u8, 34, 99, 97, 99, 104, 101, 115, 34, 58, 91]
}

/// A JSON-RPC success envelope around an already-rendered result.
pub open spec fn rpc_result_json(id: Seq<u8>, result: Seq<u8>) -> Seq<u8> {
    rfrag1() + id + rfrag_result() + result + seq![125u8]
}

/// A JSON-RPC error envelope, for transport-level failures only.
pub open spec fn rpc_error_json(id: Seq<u8>, code: Seq<u8>, msg: Seq<u8>) -> Seq<u8> {
    rfrag1() + id + rfrag_error() + code + rfrag_msg() + quoted(msg) + seq![125u8, 125u8]
}

/// A successful tool result: the inner document as one text content item.
pub open spec fn tool_ok_json(id: Seq<u8>, inner: Seq<u8>) -> Seq<u8> {
    rpc_result_json(id, cfrag1() + quoted(inner) + cfrag2())
}

/// The frozen message for each tool error kind.
pub open spec fn err_msg(kind: ErrKind) -> Seq<u8> {
    match kind {
        ErrKind::CacheMissing => seq![67u8, 97, 99, 104, 101, 32, 100, 111, 101, 115, 32, 110, 111, 116, 32, 101, 120, 105, 115, 116],
        ErrKind::CacheInvalid => seq![67u8, 97, 99, 104, 101, 32, 105, 115, 32, 105, 110, 118, 97, 108, 105, 100],
        ErrKind::IoError => seq![73u8, 47, 79, 32, 101, 114, 114, 111, 114],
        ErrKind::InvalidQuery => seq![81u8, 117, 101, 114, 121, 32, 105, 115, 32, 105, 110, 118, 97, 108, 105, 100],
        ErrKind::InvalidBudget => seq![66u8, 117, 100, 103, 101, 116, 32, 105, 115, 32, 105, 110, 118, 97, 108, 105, 100],
        ErrKind::InternalError => seq![73u8, 110, 116, 101, 114, 110, 97, 108, 32, 101, 114, 114, 111, 114],
    }
}

/// The inner error document of a failed tool call.
pub open spec fn tool_err_inner(kind: ErrKind) -> Seq<u8> {
    efrag1() + quoted(spec_err_code(kind)) + rfrag_msg() + quoted(err_msg(kind)) + seq![125u8, 125u8]
}

/// A failed tool result: the inner error document, marked `isError`.
pub open spec fn tool_err_json(id: Seq<u8>, kind: ErrKind) -> Seq<u8> {
    rpc_result_json(id, cfrag1() + quoted(tool_err_inner(kind)) + cfrag2_err())
}

/// The names as sources, so that listing shares the builder's id order.
pub open spec fn names_as_srcs(names: Seq<Seq<u8>>) -> Seq<SourceV> {
    Seq::new(names.len(), |k: int| SourceV { id: names[k], content: Seq::empty() })
}

pub open spec fn names_json(s: Seq<SourceV>) -> Seq<u8>
    decreases s.len(),
{
    if s.len() == 0 {
        Seq::empty()
    } else if s.len() == 1 {
        quoted(s[0].id)
    } else {
        names_json(s.drop_last()) + seq![44u8] + quoted(s.last().id)
    }
}

/// The list-caches document: the names, sorted ascending.
pub open spec fn list_caches_json(names: Seq<Seq<u8>>) -> Seq<u8> {
    lfrag1() + names_json(sort_srcs(names_as_srcs(names))) + seq![93u8, 125u8]
}

/// The raw response text of a request id: numbers and strings echo back,
/// anything else stands as null.
pub open spec fn id_of(ms: Seq<(Seq<u8>, JVal)>) -> Seq<u8> {
    match jget(ms, seq![105u8, 100u8]) {
        Some(JVal::Num { neg, mag, raw }) => raw,
        Some(JVal::Str(s)) => quoted(s),
        _ => lit_null(),
    }
}

/// Classifies one tools/call request.
pub open spec fn handle_call_spec(id: Seq<u8>, ms: Seq<(Seq<u8>, JVal)>) -> StepV {
    match jget(ms, seq![112u8, 97, 114, 97, 109, 115]) {
        Some(JVal::Obj(ps)) => match jget(ps, seq![110u8, 97, 109, 101]) {
            Some(JVal::Str(nm)) => {
                let args = jget(ps, seq![97u8, 114, 103, 117, 109, 101, 110, 116, 115]);
                if nm == seq![99u8, 111, 110, 116, 101, 120, 116, 46, 114, 101, 115, 111, 108, 118, 101] {
                    match args {
                        Some(JVal::Obj(ag)) => match jget(ag, seq![99u8, 97, 99, 104, 101]) {
                            Some(JVal::Str(c)) => match jget(ag, seq![113u8, 117, 101, 114, 121]) {
                                Some(JVal::Str(q)) => match jget(ag, seq![98u8, 117, 100, 103, 101, 116]) {
                                    Some(JVal::Num { neg, mag, raw }) => {
                                        if neg {
                                            StepV::ToolFail { id, kind: ErrKind::InvalidBudget }
                                        } else {
                                            match mag {
                                                Some(b) => StepV::Resolve { id, cache: c, query: q, budget: b },
                                                None => StepV::ToolFail { id, kind: ErrKind::InvalidBudget },
                                            }
                                        }
                                    },
                                    _ => StepV::ToolFail { id, kind: ErrKind::InvalidBudget },
                                },
                                _ => StepV::ToolFail { id, kind: ErrKind::InvalidQuery },
                            },
                            _ => StepV::ToolFail { id, kind: ErrKind::InternalError },
                        },
                        _ => StepV::ToolFail { id, kind: ErrKind::InternalError },
                    }
                } else if nm == seq![99u8, 111, 110, 116, 101, 120, 116, 46, 108, 105, 115, 116, 95, 99, 97, 99, 104, 101, 115] {
                    StepV::ListCaches { id }
                } else if nm == seq![99u8, 111, 110, 116, 101, 120, 116, 46, 105, 110, 115, 112, 101, 99, 116, 95, 99, 97, 99, 104, 101] {
                    match args {
                        Some(JVal::Obj(ag)) => match jget(ag, seq![99u8, 97, 99, 104, 101]) {
                            Some(JVal::Str(c)) => StepV::Inspect { id, cache: c },
                            _ => StepV::ToolFail { id, kind: ErrKind::InternalError },
                        },
                        _ => StepV::ToolFail { id, kind: ErrKind::InternalError },
                    }
                } else {
                    StepV::ToolFail { id, kind: ErrKind::InternalError }
                }
            },
            _ => StepV::Respond(rpc_error_json(id, seq![45u8, 51, 50, 54, 48, 50], seq![73u8, 110, 118, 97, 108, 105, 100, 32, 112, 97, 114, 97, 109, 115])),
        },
        _ => StepV::Respond(rpc_error_json(id, seq![45u8, 51, 50, 54, 48, 50], seq![73u8, 110, 118, 97, 108, 105, 100, 32, 112, 97, 114, 97, 109, 115])),
    }
}

/// Classifies one request line: an immediate response, or a tool to run.
pub open spec fn handle_spec(line: Seq<u8>) -> StepV {
    match pjson(line) {
        None => StepV::Respond(rpc_error_json(lit_null(), seq![45u8, 51, 50, 55, 48, 48], seq![80u8, 97, 114, 115, 101, 32, 101, 114, 114, 111, 114])),
        Some(j) => match j {
            JVal::Obj(ms) => {
                let id = id_of(ms);
                match jget(ms, seq![109u8, 101, 116, 104, 111, 100]) {
                    Some(JVal::Str(m)) => {
                        if m == seq![105u8, 110, 105, 116, 105, 97, 108, 105, 122, 101] {
                            StepV::Respond(rpc_result_json(id, init_json()))
                        } else if m == seq![116u8, 111, 111, 108, 115, 47, 108, 105, 115, 116] {
                            StepV::Respond(rpc_result_json(id, tools_json()))
                        } else if m == seq![116u8, 111, 111, 108, 115, 47, 99, 97, 108, 108] {
                            handle_call_spec(id, ms)
                        } else {
                            StepV::Respond(rpc_error_json(id, seq![45u8, 51, 50, 54, 48, 49], seq![77u8, 101, 116, 104, 111, 100, 32, 110, 111, 116, 32, 102, 111, 117, 110, 100]))
                        }
                    },
                    _ => StepV::Respond(rpc_error_json(id, seq![45u8, 51, 50, 54, 48, 48], seq![73u8, 110, 118, 97, 108, 105, 100, 32, 82, 101, 113, 117, 101, 115, 116])),
                }
            },
            _ => StepV::Respond(rpc_error_json(lit_null(), seq![45u8, 51, 50, 54, 48, 48], seq![73u8, 110, 118, 97, 108, 105, 100, 32, 82, 101, 113, 117, 101, 115, 116])),
        },
    }
}

/// Protocol stability law: one request line classifies one way, and a tool
/// outcome wraps into one response; identical calls are byte-identical.
pub proof fn lemma_protocol_stability(line: Seq<u8>, s1: StepV, s2: StepV)
    requires
        s1 == handle_spec(line),
        s2 == handle_spec(line),
    ensures
        s1 == s2,
{
}

fn push_rfrag1(out: &mut Vec<u8>)
    ensures
        final(out)@ == old(out)@ + rfrag1(),
{
    let f: Vec<u8> = vec![123u8, 34, 106, 115, 111, 110, 114, 112, 99, 34, 58, 34, 50, 46, 48, 34, 44, 34, 105, 100, 34, 58];
    push_slice(f.as_slice(), out);
    assert(final(out)@ =~= old(out)@ + rfrag1());
}

/// Builds a JSON-RPC success envelope.
pub fn rpc_result(id: &[u8], result: &[u8]) -> (r: Vec<u8>)
    ensures
        r@ == rpc_result_json(id@, result@),
{
    let mut out: Vec<u8> = Vec::new();
    push_rfrag1(&mut out);
    push_slice(id, &mut out);
    let f: Vec<u8> = vec![44u8, 34, 114, 101, 115, 117, 108, 116, 34, 58];
    push_slice(f.as_slice(), &mut out);
    push_slice(result, &mut out);
    out.push(125);
    proof {
        assert(out@ =~= rpc_result_json(id@, result@));
    }
    out
}

/// Builds a JSON-RPC error envelope.
pub fn rpc_error(id: &[u8], code: &[u8], msg: &[u8]) -> (r: Vec<u8>)
    ensures
        r@ == rpc_error_json(id@, code@, msg@),
{
    let mut out: Vec<u8> = Vec::new();
    push_rfrag1(&mut out);
    push_slice(id, &mut out);
    let f: Vec<u8> = vec![44u8, 34, 101, 114, 114, 111, 114, 34, 58, 123, 34, 99, 111, 100, 101, 34, 58];
    push_slice(f.as_slice(), &mut out);
    push_slice(code, &mut out);
    let f2: Vec<u8> = vec![44u8, 34, 109, 101, 115, 115, 97, 103, 101, 34, 58];
    push_slice(f2.as_slice(), &mut out);
    push_quoted(msg, &mut out);
    out.push(125);
    out.push(125);
    proof {
        assert(out@ =~= rpc_error_json(id@, code@, msg@));
    }
    out
}

/// Wraps a successful tool result.
pub fn tool_ok_response(id: &[u8], inner: &[u8]) -> (r: Vec<u8>)
    ensures
        r@ == tool_ok_json(id@, inner@),
{
    let mut body: Vec<u8> = Vec::new();
    let f: Vec<u8> = vec![123u8, 34, 99, 111, 110, 116, 101, 110, 116, 34, 58, 91, 123, 34, 116, 121, 112, 101, 34, 58, 34, 116, 101, 120, 116, 34, 44, 34, 116, 101, 120, 116, 34, 58];
    push_slice(f.as_slice(), &mut body);
    push_quoted(inner, &mut body);
    body.push(125);
    body.push(93);
    body.push(125);
    proof {
        assert(body@ =~= cfrag1() + quoted(inner@) + cfrag2());
    }
    rpc_result(id, body.as_slice())
}

/// Wraps a failed tool outcome, with its frozen code and message.
pub fn tool_error_response(id: &[u8], kind: ErrKind) -> (r: Vec<u8>)
    ensures
        r@ == tool_err_json(id@, kind),
{
    let mut inner: Vec<u8> = Vec::new();
    let f: Vec<u8> = vec![123u8, 34, 101, 114, 114, 111, 114, 34, 58, 123, 34, 99, 111, 100, 101, 34, 58];
    push_slice(f.as_slice(), &mut inner);
    let code = err_code(kind);
    push_quoted(code.as_slice(), &mut inner);
    let f2: Vec<u8> = vec![44u8, 34, 109, 101, 115, 115, 97, 103, 101, 34, 58];
    push_slice(f2.as_slice(), &mut inner);
    let msg: Vec<u8> = match kind {
        ErrKind::CacheMissing => vec![67u8, 97, 99, 104, 101, 32, 100, 111, 101, 115, 32, 110, 111, 116, 32, 101, 120, 105, 115, 116],
        ErrKind::CacheInvalid => vec![67u8, 97, 99, 104, 101, 32, 105, 115, 32, 105, 110, 118, 97, 108, 105, 100],
        ErrKind::IoError => vec![73u8, 47, 79, 32, 101, 114, 114, 111, 114],
        ErrKind::InvalidQuery => vec![81u8, 117, 101, 114, 121, 32, 105, 115, 32, 105, 110, 118, 97, 108, 105, 100],
        ErrKind::InvalidBudget => vec![66u8, 117, 100, 103, 101, 116, 32, 105, 115, 32, 105, 110, 118, 97, 108, 105, 100],
        ErrKind::InternalError => vec![73u8, 110, 116, 101, 114, 110, 97, 108, 32, 101, 114, 114, 111, 114],
    };
    proof {
        assert(msg@ =~= err_msg(kind));
    }
    push_quoted(msg.as_slice(), &mut inner);
    inner.push(125);
    inner.push(125);
    proof {
        assert(inner@ =~= tool_err_inner(kind));
    }
    let mut body: Vec<u8> = Vec::new();
    let f3: Vec<u8> = vec![123u8, 34, 99, 111, 110, 116, 101, 110, 116, 34, 58, 91, 123, 34, 116, 121, 112, 101, 34, 58, 34, 116, 101, 120, 116, 34, 44, 34, 116, 101, 120, 116, 34, 58];
    push_slice(f3.as_slice(), &mut body);
    push_quoted(inner.as_slice(), &mut body);
    let f4: Vec<u8> = vec![125u8, 93, 44, 34, 105, 115, 69, 114, 114, 111, 114, 34, 58, 116, 114, 117, 101, 125];
    push_slice(f4.as_slice(), &mut body);
    proof {
        assert(body@ =~= cfrag1() + quoted(tool_err_inner(kind)) + cfrag2_err());
    }
    rpc_result(id, body.as_slice())
}

/// Renders the list-caches document: names sorted ascending.
#[verifier::loop_isolation(false)]
pub fn list_caches_output(names: Vec<Vec<u8>>) -> (r: Vec<u8>)
    ensures
        r@ == list_caches_json(Seq::new(names@.len(), |k: int| names@[k]@)),
{
    let ghost nv = Seq::new(names@.len(), |k: int| names@[k]@);
    let mut srcs: Vec<SourceDoc> = Vec::new();
    let n = names.len();
    let mut i: usize = 0;
    while i < n
        invariant
            i <= n,
            n == names@.len(),
            srcs@.len() == i,
            forall|k: int| 0 <= k < i ==> (#[trigger] srcs@[k]@) == (SourceV {
                id: nv[k],
                content: Seq::empty(),
            }),
        decreases n - i,
    {
        let nm = names[i].clone();
        srcs.push(SourceDoc { id: nm, content: Vec::new() });
        i = i + 1;
    }
    proof {
        assert(Seq::new(srcs@.len(), |k: int| srcs@[k]@) =~= names_as_srcs(nv));
    }
    let sorted = sort_srcs_exec(srcs);
    let ghost sv = sort_srcs(names_as_srcs(nv));
    let mut out: Vec<u8> = Vec::new();
    let f: Vec<u8> = vec![123u8, 34, 99, 97, 99, 104, 101, 115, 34, 58, 91];
    push_slice(f.as_slice(), &mut out);
    let m = sorted.len();
    let mut j: usize = 0;
    proof {
        assert(names_json(sv.take(0)) =~= Seq::<u8>::empty());
        assert(out@ =~= lfrag1() + names_json(sv.take(0)));
    }
    while j < m
        invariant
            j <= m,
            m == sorted@.len(),
            sv == Seq::new(sorted@.len(), |k: int| sorted@[k]@),
            out@ == lfrag1() + names_json(sv.take(j as int)),
        decreases m - j,
    {
        if j > 0 {
            out.push(44);
        }
        push_quoted(sorted[j].id.as_slice(), &mut out);
        j = j + 1;
        proof {
            assert(sv.take(j as int).last() == sv[j - 1]);
            assert(sv.take(j as int).drop_last() =~= sv.take(j - 1));
            if j == 1 {
                assert(names_json(sv.take(1)) == quoted(sv[0].id));
            }
            assert(out@ =~= lfrag1() + names_json(sv.take(j as int)));
        }
    }
    proof {
        assert(sv.take(m as int) =~= sv);
    }
    out.push(93);
    out.push(125);
    proof {
        assert(out@ =~= list_caches_json(nv));
    }
    out
}

/// The response id of a request object.
fn extract_id(ms: &Vec<(Vec<u8>, Json)>) -> (r: Vec<u8>)
    ensures
        r@ == id_of(jview_members(ms@, ms@.len() as int)),
{
    let kid: Vec<u8> = vec![105u8, 100];
    proof {
        assert(kid@ =~= seq![105u8, 100u8]);
    }
    match obj_get(ms, kid.as_slice()) {
        Some(Json::Num { neg, mag, raw }) => raw.clone(),
        Some(Json::Str(s)) => {
            let mut out: Vec<u8> = Vec::new();
            push_quoted(s.as_slice(), &mut out);
            proof {
                assert(out@ =~= quoted(s@));
            }
            out
        },
        _ => {
            let out: Vec<u8> = vec![110u8, 117, 108, 108];
            proof {
                assert(out@ =~= lit_null());
            }
            out
        },
    }
}

/// Classifies one tools/call request.
fn handle_call(id: Vec<u8>, ms: &Vec<(Vec<u8>, Json)>) -> (r: ServerStep)
    ensures
        r@ == handle_call_spec(id@, jview_members(ms@, ms@.len() as int)),
{
    let kparams: Vec<u8> = vec![112u8, 97, 114, 97, 109, 115];
    proof {
        assert(kparams@ =~= seq![112u8, 97, 114, 97, 109, 115]);
    }
    let ps = match obj_get(ms, kparams.as_slice()) {
        Some(Json::Obj(ps)) => ps,
        _ => {
            let code: Vec<u8> = vec![45u8, 51, 50, 54, 48, 50];
            let msg: Vec<u8> = vec![73u8, 110, 118, 97, 108, 105, 100, 32, 112, 97, 114, 97, 109, 115];
            let resp = rpc_error(id.as_slice(), code.as_slice(), msg.as_slice());
            proof {
                assert(code@ =~= seq![45u8, 51, 50, 54, 48, 50]);
                assert(msg@ =~= seq![73u8, 110, 118, 97, 108, 105, 100, 32, 112, 97, 114, 97, 109, 115]);
            }
            return ServerStep::Respond(resp);
        },
    };
    let kname: Vec<u8> = vec![110u8, 97, 109, 101];
    proof {
        assert(kname@ =~= seq![110u8, 97, 109, 101]);
    }
    let nm = match obj_get(ps, kname.as_slice()) {
        Some(Json::Str(nm)) => nm,
        _ => {
            let code: Vec<u8> = vec![45u8, 51, 50, 54, 48, 50];
            let msg: Vec<u8> = vec![73u8, 110, 118, 97, 108, 105, 100, 32, 112, 97, 114, 97, 109, 115];
            let resp = rpc_error(id.as_slice(), code.as_slice(), msg.as_slice());
            proof {
                assert(code@ =~= seq![45u8, 51, 50, 54, 48, 50]);
                assert(msg@ =~= seq![73u8, 110, 118, 97, 108, 105, 100, 32, 112, 97, 114, 97, 109, 115]);
            }
            return ServerStep::Respond(resp);
        },
    };
    let kargs: Vec<u8> = vec![97u8, 114, 103, 117, 109, 101, 110, 116, 115];
    proof {
        assert(kargs@ =~= seq![97u8, 114, 103, 117, 109, 101, 110, 116, 115]);
    }
    let args = obj_get(ps, kargs.as_slice());
    let tname_resolve: Vec<u8> = vec![99u8, 111, 110, 116, 101, 120, 116, 46, 114, 101, 115, 111, 108, 118, 101];
    let tname_list: Vec<u8> = vec![99u8, 111, 110, 116, 101, 120, 116, 46, 108, 105, 115, 116, 95, 99, 97, 99, 104, 101, 115];
    let tname_inspect: Vec<u8> = vec![99u8, 111, 110, 116, 101, 120, 116, 46, 105, 110, 115, 112, 101, 99, 116, 95, 99, 97, 99, 104, 101];
    proof {
        assert(tname_resolve@ =~= seq![99u8, 111, 110, 116, 101, 120, 116, 46, 114, 101, 115, 111, 108, 118, 101]);
        assert(tname_list@ =~= seq![99u8, 111, 110, 116, 101, 120, 116, 46, 108, 105, 115, 116, 95, 99, 97, 99, 104, 101, 115]);
        assert(tname_inspect@ =~= seq![99u8, 111, 110, 116, 101, 120, 116, 46, 105, 110, 115, 112, 101, 99, 116, 95, 99, 97, 99, 104, 101]);
    }
    let kcache: Vec<u8> = vec![99u8, 97, 99, 104, 101];
    proof {
        assert(kcache@ =~= seq![99u8, 97, 99, 104, 101]);
    }
    if bytes_eq(nm.as_slice(), tname_resolve.as_slice()) {
        let ag = match args {
            Some(Json::Obj(ag)) => ag,
            _ => {
                return ServerStep::ToolFail { id, kind: ErrKind::InternalError };
            },
        };
        let c = match obj_get(ag, kcache.as_slice()) {
            Some(Json::Str(c)) => c,
            _ => {
                return ServerStep::ToolFail { id, kind: ErrKind::InternalError };
            },
        };
        let kquery: Vec<u8> = vec![113u8, 117, 101, 114, 121];
        proof {
            assert(kquery@ =~= seq![113u8, 117, 101, 114, 121]);
        }
        let q = match obj_get(ag, kquery.as_slice()) {
            Some(Json::Str(q)) => q,
            _ => {
                return ServerStep::ToolFail { id, kind: ErrKind::InvalidQuery };
            },
        };
        let kbudget: Vec<u8> = vec![98u8, 117, 100, 103, 101, 116];
        proof {
            assert(kbudget@ =~= seq![98u8, 117, 100, 103, 101, 116]);
        }
        match obj_get(ag, kbudget.as_slice()) {
            Some(Json::Num { neg, mag, raw }) => {
                if *neg {
                    ServerStep::ToolFail { id, kind: ErrKind::InvalidBudget }
                } else {
                    match mag {
                        Some(b) => ServerStep::Resolve {
                            id,
                            cache: c.clone(),
                            query: q.clone(),
                            budget: *b,
                        },
                        None => ServerStep::ToolFail { id, kind: ErrKind::InvalidBudget },
                    }
                }
            },
            _ => ServerStep::ToolFail { id, kind: ErrKind::InvalidBudget },
        }
    } else if bytes_eq(nm.as_slice(), tname_list.as_slice()) {
        ServerStep::ListCaches { id }
    } else if bytes_eq(nm.as_slice(), tname_inspect.as_slice()) {
        let ag = match args {
            Some(Json::Obj(ag)) => ag,
            _ => {
                return ServerStep::ToolFail { id, kind: ErrKind::InternalError };
            },
        };
        match obj_get(ag, kcache.as_slice()) {
            Some(Json::Str(c)) => ServerStep::Inspect { id, cache: c.clone() },
            _ => ServerStep::ToolFail { id, kind: ErrKind::InternalError },
        }
    } else {
        ServerStep::ToolFail { id, kind: ErrKind::InternalError }
    }
}

/// Classifies one request line.
pub fn handle_line(line: &[u8]) -> (r: ServerStep)
    ensures
        r@ == handle_spec(line@),
{
    let j = match parse_json(line) {
        Ok(j) => j,
        Err(_) => {
            let idb: Vec<u8> = vec![110u8, 117, 108, 108];
            let code: Vec<u8> = vec![45u8, 51, 50, 55, 48, 48];
            let msg: Vec<u8> = vec![80u8, 97, 114, 115, 101, 32, 101, 114, 114, 111, 114];
            let resp = rpc_error(idb.as_slice(), code.as_slice(), msg.as_slice());
            proof {
                assert(idb@ =~= lit_null());
                assert(code@ =~= seq![45u8, 51, 50, 55, 48, 48]);
                assert(msg@ =~= seq![80u8, 97, 114, 115, 101, 32, 101, 114, 114, 111, 114]);
            }
            return ServerStep::Respond(resp);
        },
    };
    let ms = match &j {
        Json::Obj(ms) => ms,
        _ => {
            let idb: Vec<u8> = vec![110u8, 117, 108, 108];
            let code: Vec<u8> = vec![45u8, 51, 50, 54, 48, 48];
            let msg: Vec<u8> = vec![73u8, 110, 118, 97, 108, 105, 100, 32, 82, 101, 113, 117, 101, 115, 116];
            let resp = rpc_error(idb.as_slice(), code.as_slice(), msg.as_slice());
            proof {
                assert(idb@ =~= lit_null());
                assert(code@ =~= seq![45u8, 51, 50, 54, 48, 48]);
                assert(msg@ =~= seq![73u8, 110, 118, 97, 108, 105, 100, 32, 82, 101, 113, 117, 101, 115, 116]);
            }
            return ServerStep::Respond(resp);
        },
    };
    let id = extract_id(ms);
    let kmethod: Vec<u8> = vec![109u8, 101, 116, 104, 111, 100];
    proof {
        assert(kmethod@ =~= seq![109u8, 101, 116, 104, 111, 100]);
    }
    let m = match obj_get(ms, kmethod.as_slice()) {
        Some(Json::Str(m)) => m,
        _ => {
            let code: Vec<u8> = vec![45u8, 51, 50, 54, 48, 48];
            let msg: Vec<u8> = vec![73u8, 110, 118, 97, 108, 105, 100, 32, 82, 101, 113, 117, 101, 115, 116];
            let resp = rpc_error(id.as_slice(), code.as_slice(), msg.as_slice());
            proof {
                assert(code@ =~= seq![45u8, 51, 50, 54, 48, 48]);
                assert(msg@ =~= seq![73u8, 110, 118, 97, 108, 105, 100, 32, 82, 101, 113, 117, 101, 115, 116]);
            }
            return ServerStep::Respond(resp);
        },
    };
    let m_init: Vec<u8> = vec![105u8, 110, 105, 116, 105, 97, 108, 105, 122, 101];
    let m_list: Vec<u8> = vec![116u8, 111, 111, 108, 115, 47, 108, 105, 115, 116];
    let m_call: Vec<u8> = vec![116u8, 111, 111, 108, 115, 47, 99, 97, 108, 108];
    proof {
        assert(m_init@ =~= seq![105u8, 110, 105, 116, 105, 97, 108, 105, 122, 101]);
        assert(m_list@ =~= seq![116u8, 111, 111, 108, 115, 47, 108, 105, 115, 116]);
        assert(m_call@ =~= seq![116u8, 111, 111, 108, 115, 47, 99, 97, 108, 108]);
    }
    if bytes_eq(m.as_slice(), m_init.as_slice()) {
        let body: Vec<u8> = vec![123u8, 34, 112, 114, 111, 116, 111, 99, 111, 108, 86, 101, 114, 115, 105, 111, 110, 34, 58, 34, 50, 48, 50, 52, 45, 49, 49, 45, 48, 53, 34, 44, 34, 99, 97, 112, 97, 98, 105, 108, 105, 116, 105, 101, 115, 34, 58, 123, 34, 116, 111, 111, 108, 115, 34, 58, 123, 125, 125, 44, 34, 115, 101, 114, 118, 101, 114, 73, 110, 102, 111, 34, 58, 123, 34, 110, 97, 109, 101, 34, 58, 34, 109, 99, 112, 45, 99, 111, 110, 116, 101, 120, 116, 45, 115, 101, 114, 118, 101, 114, 34, 44, 34, 118, 101, 114, 115, 105, 111, 110, 34, 58, 34, 48, 46, 49, 46, 48, 34, 125, 125];
        proof {
            assert(body@ =~= init_json());
        }
        ServerStep::Respond(rpc_result(id.as_slice(), body.as_slice()))
    } else if bytes_eq(m.as_slice(), m_list.as_slice()) {
        let body: Vec<u8> = vec![123u8, 34, 116, 111, 111, 108, 115, 34, 58, 91, 123, 34, 110, 97, 109, 101, 34, 58, 34, 99, 111, 110, 116, 101, 120, 116, 46, 114, 101, 115, 111, 108, 118, 101, 34, 44, 34, 100, 101, 115, 99, 114, 105, 112, 116, 105, 111, 110, 34, 58, 34, 82, 101, 115, 111, 108, 118, 101, 32, 97, 32, 113, 117, 101, 114, 121, 32, 97, 103, 97, 105, 110, 115, 116, 32, 97, 32, 99, 97, 99, 104, 101, 34, 44, 34, 105, 110, 112, 117, 116, 83, 99, 104, 101, 109, 97, 34, 58, 123, 34, 116, 121, 112, 101, 34, 58, 34, 111, 98, 106, 101, 99, 116, 34, 125, 125, 44, 123, 34, 110, 97, 109, 101, 34, 58, 34, 99, 111, 110, 116, 101, 120, 116, 46, 108, 105, 115, 116, 95, 99, 97, 99, 104, 101, 115, 34, 44, 34, 100, 101, 115, 99, 114, 105, 112, 116, 105, 111, 110, 34, 58, 34, 76, 105, 115, 116, 32, 99, 97, 99, 104, 101, 115, 32, 117, 110, 100, 101, 114, 32, 116, 104, 101, 32, 99, 111, 110, 102, 105, 103, 117, 114, 101, 100, 32, 114, 111, 111, 116, 34, 44, 34, 105, 110, 112, 117, 116, 83, 99, 104, 101, 109, 97, 34, 58, 123, 34, 116, 121, 112, 101, 34, 58, 34, 111, 98, 106, 101, 99, 116, 34, 125, 125, 44, 123, 34, 110, 97, 109, 101, 34, 58, 34, 99, 111, 110, 116, 101, 120, 116, 46, 105, 110, 115, 112, 101, 99, 116, 95, 99, 97, 99, 104, 101, 34, 44, 34, 100, 101, 115, 99, 114, 105, 112, 116, 105, 111, 110, 34, 58, 34, 73, 110, 115, 112, 101, 99, 116, 32, 97, 32, 99, 97, 99, 104, 101, 34, 44, 34, 105, 110, 112, 117, 116, 83, 99, 104, 101, 109, 97, 34, 58, 123, 34, 116, 121, 112, 101, 34, 58, 34, 111, 98, 106, 101, 99, 116, 34, 125, 125, 93, 125];
        proof {
            assert(body@ =~= tools_json());
        }
        ServerStep::Respond(rpc_result(id.as_slice(), body.as_slice()))
    } else if bytes_eq(m.as_slice(), m_call.as_slice()) {
        handle_call(id, ms)
    } else {
        let code: Vec<u8> = vec![45u8, 51, 50, 54, 48, 49];
        let msg: Vec<u8> = vec![77u8, 101, 116, 104, 111, 100, 32, 110, 111, 116, 32, 102, 111, 117, 110, 100];
        let resp = rpc_error(id.as_slice(), code.as_slice(), msg.as_slice());
        proof {
            assert(code@ =~= seq![45u8, 51, 50, 54, 48, 49]);
            assert(msg@ =~= seq![77u8, 101, 116, 104, 111, 100, 32, 110, 111, 116, 32, 102, 111, 117, 110, 100]);
        }
        ServerStep::Respond(resp)
    }
}

} // verus!
