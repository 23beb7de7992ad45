//! JSON-RPC 2.0 requests, responses and broadcasts of the synchronization
//! protocol.

use vstd::prelude::*;

use crate::Message;

verus! {

/// A JSON value, as `serde_json` holds it; request and response
/// identifiers are carried through unchanged.
#[verifier::external_type_specification]
#[verifier::external_body]
pub struct ExJsonValue(serde_json::Value);

/// Text synchronization methods.
#[derive(Debug, Clone, Copy, PartialEq, Eq, Structural)]
pub enum RpcMethod {
    DocumentUpdate,
    ClientRegister,
}

/// The method of a request together with its parameters.
#[derive(Debug, Clone)]
pub enum RpcRequestParams {
    DocumentUpdate { messages: Vec<Message>, client_id: String },
    ClientRegister { client_name: String },
}

/// JSON-RPC 2.0 request.
#[derive(Debug, Clone)]
pub struct JsonRpcRequest {
    pub jsonrpc: String,
    pub params: RpcRequestParams,
    pub id: Option<serde_json::Value>,
}

impl JsonRpcRequest {
    /// A `"2.0"` request with these parameters and no identifier.
    pub fn new(params: RpcRequestParams) -> (r: Self)
        ensures
            r.jsonrpc@ == "2.0"@,
            r.params == params,
            r.id is None,
    {
        Self { jsonrpc: String::from_str("2.0"), params, id: None }
    }
}

/// JSON-RPC 2.0 response.
#[derive(Debug, Clone)]
pub struct JsonRpcResponse {
    pub jsonrpc: String,
    pub result: Option<JsonRpcResult>,
    pub error: Option<JsonRpcError>,
    pub id: Option<serde_json::Value>,
}

impl JsonRpcResponse {
    /// A `"2.0"` response carrying `result` and no error.
    pub fn success(result: JsonRpcResult, id: Option<serde_json::Value>) -> (r: Self)
        ensures
            r.jsonrpc@ == "2.0"@,
            r.result == Some(result),
            r.error is None,
            r.id == id,
    {
        Self { jsonrpc: String::from_str("2.0"), result: Some(result), error: None, id }
    }

    /// A `"2.0"` response carrying `error` and no result.
    pub fn error(error: JsonRpcError, id: Option<serde_json::Value>) -> (r: Self)
        ensures
            r.jsonrpc@ == "2.0"@,
            r.result is None,
            r.error == Some(error),
            r.id == id,
    {
        Self { jsonrpc: String::from_str("2.0"), result: None, error: Some(error), id }
    }
}

/// Response types for different methods.
#[derive(Debug, Clone, PartialEq, Eq)]
pub enum JsonRpcResult {
    DocumentUpdated { content: String },
    ClientRegistered { client_id: String },
}

/// JSON-RPC 2.0 error.
#[derive(Debug, Clone)]
pub struct JsonRpcError {
    pub code: i32,
    pub message: String,
    pub data: Option<serde_json::Value>,
}

impl JsonRpcError {
    pub fn parse_error() -> (e: Self)
        ensures
            e.code == -32700,
            e.message@ == "Parse error"@,
            e.data is None,
    {
        Self { code: -32700, message: String::from_str("Parse error"), data: None }
    }

    pub fn invalid_request() -> (e: Self)
        ensures
            e.code == -32600,
            e.message@ == "Invalid Request"@,
            e.data is None,
    {
        Self { code: -32600, message: String::from_str("Invalid Request"), data: None }
    }

    pub fn method_not_found() -> (e: Self)
        ensures
            e.code == -32601,
            e.message@ == "Method not found"@,
            e.data is None,
    {
        Self { code: -32601, message: String::from_str("Method not found"), data: None }
    }

    pub fn invalid_params() -> (e: Self)
        ensures
            e.code == -32602,
            e.message@ == "Invalid params"@,
            e.data is None,
    {
        Self { code: -32602, message: String::from_str("Invalid params"), data: None }
    }

    pub fn internal_error() -> (e: Self)
        ensures
            e.code == -32603,
            e.message@ == "Internal error"@,
            e.data is None,
    {
        Self { code: -32603, message: String::from_str("Internal error"), data: None }
    }

    pub fn custom(code: i32, message: String) -> (e: Self)
        ensures
            e.code == code,
            e.message == message,
            e.data is None,
    {
        Self { code, message, data: None }
    }
}

/// Notification for real-time updates.
#[derive(Debug, Clone)]
pub struct SyncBroadcast {
    pub jsonrpc: String,
    pub method: SyncBroadcastMethod,
    pub params: SyncBroadcastParams,
}

impl SyncBroadcast {
    /// A `"2.0"` notification.
    pub fn new(method: SyncBroadcastMethod, params: SyncBroadcastParams) -> (b: Self)
        ensures
            b.jsonrpc@ == "2.0"@,
            b.method == method,
            b.params == params,
    {
        Self { jsonrpc: String::from_str("2.0"), method, params }
    }
}

/// What a notification announces.
#[derive(Debug, Clone, Copy, PartialEq, Eq, Structural)]
pub enum SyncBroadcastMethod {
    DocumentUpdated,
    ClientConnected,
    ClientDisconnected,
}

/// The content of a notification.
#[derive(Debug, Clone)]
pub enum SyncBroadcastParams {
    DocumentUpdated { messages: Vec<Message>, client_id: String },
    ClientConnected { client_id: String, client_name: String },
    ClientDisconnected { client_id: String },
}

/// Summary of a document: identifier, name, last change and content size
/// in bytes.
#[derive(Debug, Clone, PartialEq, Eq)]
pub struct DocumentInfo {
    pub id: u128,
    pub name: String,
    pub last_modified: crate::document::UtcTime,
    pub content_length: usize,
}

} // verus!
