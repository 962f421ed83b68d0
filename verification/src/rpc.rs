//! The privilege channel's request/response protocol: the request and
//! response shapes, the error codes, the client-side response validation,
//! and the server-side dispatch of one request against a hosts store.

use crate::hosts::{HostsBinding, HostsError, TestableHostsManager};
use vstd::prelude::*;

verus! {

/// Parse error.
pub const PARSE_ERROR: i32 = -32700;

/// Malformed request object.
pub const INVALID_REQUEST: i32 = -32600;

/// Unknown method.
pub const METHOD_NOT_FOUND: i32 = -32601;

/// Malformed parameters.
pub const INVALID_PARAMS: i32 = -32602;

/// Internal failure.
pub const INTERNAL_ERROR: i32 = -32603;

/// The caller may not write the hosts file.
pub const PERMISSION_DENIED: i32 = -1;

/// The address failed validation.
pub const INVALID_IP: i32 = -2;

/// The domain failed validation.
pub const INVALID_DOMAIN: i32 = -3;

/// An operating-system failure while writing.
pub const IO_ERROR: i32 = -4;

/// One binding carried in a batch request or response.
pub struct BindingEntry {
    pub domain: String,
    pub ip: String,
}

/// Parameters for binding one domain.
pub struct WriteBindingParams {
    pub domain: String,
    pub ip: String,
}

/// Parameters for binding a batch.
pub struct WriteBindingsBatchParams {
    pub bindings: Vec<BindingEntry>,
}

/// Parameters for clearing one domain.
pub struct ClearBindingParams {
    pub domain: String,
}

/// Parameters for clearing a batch of domains.
pub struct ClearBindingsBatchParams {
    pub domains: Vec<String>,
}

/// Parameters for reading one domain.
pub struct ReadBindingParams {
    pub domain: String,
}

/// Result of a mutation without a count.
pub struct SuccessResult {
    pub success: bool,
}

/// Result of a batch mutation.
pub struct CountResult {
    pub count: u32,
}

/// Result of a read.
pub struct ReadBindingResult {
    pub ip: Option<String>,
}

/// Result of listing every managed binding.
pub struct AllBindingsResult {
    pub bindings: Vec<BindingEntry>,
}

/// Result of a liveness ping.
pub struct PingResult {
    pub pong: bool,
    pub version: String,
}

/// The parameters of a request, one variant per method.
pub enum RpcParams {
    Empty,
    WriteBinding(WriteBindingParams),
    WriteBindingsBatch(WriteBindingsBatchParams),
    ClearBinding(ClearBindingParams),
    ClearBindingsBatch(ClearBindingsBatchParams),
    ReadBinding(ReadBindingParams),
}

/// The result payload of a response, one variant per method.
pub enum RpcResult {
    Success(SuccessResult),
    Count(CountResult),
    Read(ReadBindingResult),
    All(AllBindingsResult),
    Ping(PingResult),
}

/// A protocol-level error: a code and a message.
pub struct RpcError {
    pub code: i32,
    pub message: String,
}

/// One request over the privilege channel.
pub struct RpcRequest {
    pub jsonrpc: String,
    pub id: u64,
    pub method: String,
    pub params: RpcParams,
}

impl RpcRequest {
    /// A request under the fixed protocol version.
    pub fn new(id: u64, method: &str, params: RpcParams) -> (r: RpcRequest)
        ensures
            r.jsonrpc@ == "2.0"@,
            r.id == id,
            r.method@ == method@,
            r.params == params,
    {
        RpcRequest { jsonrpc: "2.0".to_owned(), id, method: method.to_owned(), params }
    }
}

/// One response over the privilege channel: either a result or an error.
pub struct RpcResponse {
    pub jsonrpc: String,
    pub id: u64,
    pub result: Option<RpcResult>,
    pub error: Option<RpcError>,
}

impl RpcResponse {
    /// A successful response carrying its payload.
    pub fn success(id: u64, result: RpcResult) -> (r: RpcResponse)
        ensures
            r.jsonrpc@ == "2.0"@,
            r.id == id,
            r.result == Some(result),
            r.error is None,
    {
        RpcResponse { jsonrpc: "2.0".to_owned(), id, result: Some(result), error: None }
    }

    /// A failed response carrying a code and message.
    pub fn error(id: u64, code: i32, message: &str) -> (r: RpcResponse)
        ensures
            r.jsonrpc@ == "2.0"@,
            r.id == id,
            r.result is None,
            r.error matches Some(e) && e.code == code && e.message@ == message@,
    {
        RpcResponse {
            jsonrpc: "2.0".to_owned(),
            id,
            result: None,
            error: Some(RpcError { code, message: message.to_owned() }),
        }
    }
}

/// Why a response was rejected by the client.
pub enum ResponseFault {
    /// The protocol version or the echoed id did not match, or no payload
    /// came back.
    InvalidResponse,
    /// The server reported an error, carried through.
    Rpc { code: i32, message: String },
}

/// Client-side validation of a response to the request with `expected_id`:
/// the version must be the fixed one, the id must echo the request, a
/// reported error is carried through, and a payload must be present.
pub fn check_response(resp: RpcResponse, expected_id: u64) -> (r: Result<RpcResult, ResponseFault>)
    ensures
        resp.jsonrpc@ != "2.0"@ ==> (r matches Err(ResponseFault::InvalidResponse)),
        resp.jsonrpc@ == "2.0"@ && resp.id != expected_id ==> (r matches Err(
            ResponseFault::InvalidResponse,
        )),
        resp.jsonrpc@ == "2.0"@ && resp.id == expected_id && resp.error is Some ==> (r matches Err(
            ResponseFault::Rpc { code, message },
        ) && Some(code) == (match resp.error {
            Some(e) => Some(e.code),
            None => None,
        })),
        resp.jsonrpc@ == "2.0"@ && resp.id == expected_id && resp.error is None ==> (match (
        resp.result, r) {
            (Some(payload), Ok(got)) => got == payload,
            (None, Err(f)) => f is InvalidResponse,
            _ => false,
        }),
{
    if !crate::text::str_eq(resp.jsonrpc.as_str(), "2.0") {
        return Err(ResponseFault::InvalidResponse);
    }
    if resp.id != expected_id {
        return Err(ResponseFault::InvalidResponse);
    }
    match resp.error {
        Some(e) => {
            return Err(ResponseFault::Rpc { code: e.code, message: e.message });
        },
        None => {},
    }
    match resp.result {
        Some(payload) => Ok(payload),
        None => Err(ResponseFault::InvalidResponse),
    }
}

/// The error code a hosts failure maps to on the wire.
pub open spec fn hosts_error_code(e: HostsError) -> i32 {
    match e {
        HostsError::PermissionDenied => PERMISSION_DENIED,
        HostsError::InvalidIp(_) => INVALID_IP,
        HostsError::InvalidDomain(_) => INVALID_DOMAIN,
        HostsError::Io(_) => IO_ERROR,
    }
}

/// Maps a hosts failure to its error response.
pub fn hosts_error_to_response(id: u64, e: &HostsError) -> (r: RpcResponse)
    ensures
        r.jsonrpc@ == "2.0"@,
        r.id == id,
        r.result is None,
        r.error matches Some(err) && err.code == hosts_error_code(*e),
{
    match e {
        HostsError::PermissionDenied => RpcResponse::error(
            id,
            PERMISSION_DENIED,
            "Permission denied - run as administrator",
        ),
        HostsError::InvalidIp(ip) => RpcResponse::error(id, INVALID_IP, ip.as_str()),
        HostsError::InvalidDomain(d) => RpcResponse::error(id, INVALID_DOMAIN, d.as_str()),
        HostsError::Io(msg) => RpcResponse::error(id, IO_ERROR, msg.as_str()),
    }
}

/// Serves one write-binding request against the store: a validated pair is
/// written and acknowledged; a rejected one is answered with its validation
/// error and leaves the store untouched.
pub fn handle_write_binding(
    store: &mut TestableHostsManager,
    id: u64,
    params: &WriteBindingParams,
) -> (r: RpcResponse)
    ensures
        r.id == id,
        r.jsonrpc@ == "2.0"@,
        crate::addr::valid_ip(params.ip@) && crate::addr::valid_domain(params.domain@) ==> (
        r.result matches Some(RpcResult::Success(s)) && s.success && final(store)@
            == crate::hosts::render_spec(
            crate::hosts::model_upsert(
                crate::hosts::parse_spec(old(store)@),
                params.domain@,
                params.ip@,
            ),
        )),
        !(crate::addr::valid_ip(params.ip@) && crate::addr::valid_domain(params.domain@)) ==> (
        final(store)@ == old(store)@ && r.result is None && (r.error matches Some(err) && (
        err.code == INVALID_IP || err.code == INVALID_DOMAIN))),
{
    match store.write_binding(params.domain.as_str(), params.ip.as_str()) {
        Ok(()) => RpcResponse::success(id, RpcResult::Success(SuccessResult { success: true })),
        Err(e) => hosts_error_to_response(id, &e),
    }
}

/// Serves one read-binding request against the store; reads never mutate.
pub fn handle_read_binding(store: &TestableHostsManager, id: u64, params: &ReadBindingParams) -> (r:
    RpcResponse)
    ensures
        r.id == id,
        r.jsonrpc@ == "2.0"@,
        r.result matches Some(RpcResult::Read(rb)) && (match rb.ip {
            Some(ip) => crate::hosts::read_spec(store@, params.domain@) == Some(ip@),
            None => crate::hosts::read_spec(store@, params.domain@) is None,
        }),
{
    let ip = store.read_binding(params.domain.as_str());
    RpcResponse::success(id, RpcResult::Read(ReadBindingResult { ip }))
}

/// Serves one clear-binding request against the store.
pub fn handle_clear_binding(
    store: &mut TestableHostsManager,
    id: u64,
    params: &ClearBindingParams,
) -> (r: RpcResponse)
    ensures
        r.id == id,
        r.result matches Some(RpcResult::Success(s)) && s.success,
        final(store)@ == crate::hosts::render_spec(
            crate::hosts::model_remove(crate::hosts::parse_spec(old(store)@), params.domain@),
        ),
{
    match store.clear_binding(params.domain.as_str()) {
        Ok(()) => RpcResponse::success(id, RpcResult::Success(SuccessResult { success: true })),
        Err(e) => hosts_error_to_response(id, &e),
    }
}

/// Serves one ping request; the store is untouched.
pub fn handle_ping(id: u64, version: &str) -> (r: RpcResponse)
    ensures
        r.id == id,
        r.result matches Some(RpcResult::Ping(p)) && p.pong && p.version@ == version@,
{
    RpcResponse::success(
        id,
        RpcResult::Ping(PingResult { pong: true, version: version.to_owned() }),
    )
}

/// Serves one request of any method against the store, exactly as the
/// per-method handlers do; an unknown method is refused with the
/// method-not-found code and leaves the store untouched.
pub fn handle_request(store: &mut TestableHostsManager, req: &RpcRequest, version: &str) -> (r:
    RpcResponse)
    ensures
        r.id == req.id,
        req.method@ == "ping"@ ==> (final(store)@ == old(store)@ && (r.result matches Some(
            RpcResult::Ping(p),
        ) && p.pong)),
        req.method@ == "read_binding"@ && (req.params matches RpcParams::ReadBinding(_)) ==> final(store)@ == old(store)@,
        !(req.method@ == "ping"@ || req.method@ == "write_binding"@ || req.method@
            == "write_bindings_batch"@ || req.method@ == "clear_binding"@ || req.method@
            == "clear_bindings_batch"@ || req.method@ == "read_binding"@) ==> (final(store)@ == old(
            store,
        )@ && (r.error matches Some(e) && e.code == METHOD_NOT_FOUND)),
        req.method@ == "write_binding"@ && (req.params matches RpcParams::WriteBinding(p)
            && crate::addr::valid_ip(p.ip@) && crate::addr::valid_domain(p.domain@)) ==> final(store)@ == crate::hosts::render_spec(
            crate::hosts::model_upsert(
                crate::hosts::parse_spec(old(store)@),
                (match req.params {
                    RpcParams::WriteBinding(p2) => p2.domain@,
                    _ => Seq::empty(),
                }),
                (match req.params {
                    RpcParams::WriteBinding(p2) => p2.ip@,
                    _ => Seq::empty(),
                }),
            ),
        ),
{
    proof {
        reveal_strlit("ping");
        reveal_strlit("write_binding");
        reveal_strlit("write_bindings_batch");
        reveal_strlit("clear_binding");
        reveal_strlit("clear_bindings_batch");
        reveal_strlit("read_binding");
    }
    if crate::text::str_eq(req.method.as_str(), "ping") {
        proof {
            assert("ping"@.len() == 4);
            assert("write_binding"@.len() == 13);
            assert(req.method@ != "write_binding"@);
        }
        return handle_ping(req.id, version);
    }
    if crate::text::str_eq(req.method.as_str(), "write_binding") {
        match &req.params {
            RpcParams::WriteBinding(p) => {
                return handle_write_binding(store, req.id, p);
            },
            _ => {
                return RpcResponse::error(req.id, INVALID_PARAMS, "invalid params");
            },
        }
    }
    if crate::text::str_eq(req.method.as_str(), "write_bindings_batch") {
        match &req.params {
            RpcParams::WriteBindingsBatch(p) => {
                let mut items: Vec<HostsBinding> = Vec::new();
                let mut i: usize = 0;
                while i < p.bindings.len()
                    invariant
                        0 <= i <= p.bindings.len(),
                    decreases p.bindings.len() - i,
                {
                    items.push(
                        HostsBinding {
                            domain: p.bindings[i].domain.clone(),
                            ip: p.bindings[i].ip.clone(),
                        },
                    );
                    i = i + 1;
                }
                match store.write_bindings_batch(&items) {
                    Ok(n) => {
                        let count: u32 = if n > u32::MAX as usize {
                            u32::MAX
                        } else {
                            n as u32
                        };
                        return RpcResponse::success(
                            req.id,
                            RpcResult::Count(CountResult { count }),
                        );
                    },
                    Err(e) => {
                        return hosts_error_to_response(req.id, &e);
                    },
                }
            },
            _ => {
                return RpcResponse::error(req.id, INVALID_PARAMS, "invalid params");
            },
        }
    }
    if crate::text::str_eq(req.method.as_str(), "clear_binding") {
        match &req.params {
            RpcParams::ClearBinding(p) => {
                return handle_clear_binding(store, req.id, p);
            },
            _ => {
                return RpcResponse::error(req.id, INVALID_PARAMS, "invalid params");
            },
        }
    }
    if crate::text::str_eq(req.method.as_str(), "clear_bindings_batch") {
        match &req.params {
            RpcParams::ClearBindingsBatch(p) => {
                match store.clear_bindings_batch(&p.domains) {
                    Ok(n) => {
                        let count: u32 = if n > u32::MAX as usize {
                            u32::MAX
                        } else {
                            n as u32
                        };
                        return RpcResponse::success(
                            req.id,
                            RpcResult::Count(CountResult { count }),
                        );
                    },
                    Err(e) => {
                        return hosts_error_to_response(req.id, &e);
                    },
                }
            },
            _ => {
                return RpcResponse::error(req.id, INVALID_PARAMS, "invalid params");
            },
        }
    }
    if crate::text::str_eq(req.method.as_str(), "read_binding") {
        match &req.params {
            RpcParams::ReadBinding(p) => {
                return handle_read_binding(store, req.id, p);
            },
            _ => {
                return RpcResponse::error(req.id, INVALID_PARAMS, "invalid params");
            },
        }
    }
    RpcResponse::error(req.id, METHOD_NOT_FOUND, "unknown method")
}

} // verus!

verus! {

/// The client half of the privilege channel, as far as its own state goes:
/// the counter that stamps each request with a fresh id. The transport that
/// carries the bytes lives with the platform code.
pub struct PipeClient {
    request_id: u64,
}

impl PipeClient {
    /// A client whose first request id is one.
    pub fn new() -> (r: PipeClient)
        ensures
            r.next_id_spec() == 1,
    {
        PipeClient { request_id: 1 }
    }

    /// The id the next request will carry.
    pub closed spec fn next_id_spec(&self) -> u64 {
        self.request_id
    }

    /// Takes the next request id; ids grow until the counter saturates, so
    /// an id is never zero.
    pub fn next_id(&mut self) -> (r: u64)
        ensures
            r == old(self).next_id_spec(),
            final(self).next_id_spec() == (if old(self).next_id_spec() < u64::MAX {
                old(self).next_id_spec() + 1
            } else {
                u64::MAX as int
            }),
    {
        let id = self.request_id;
        if self.request_id < u64::MAX {
            self.request_id = self.request_id + 1;
        }
        id
    }
}

} // verus!
