use sink::{
    JsonRpcError, JsonRpcRequest, JsonRpcResponse, JsonRpcResult, RpcRequestParams, SyncBroadcast,
    SyncBroadcastMethod, SyncBroadcastParams,
};

#[test]
fn error_constructors_use_json_rpc_codes() {
    let cases = vec![
        (JsonRpcError::parse_error(), -32700, "Parse error"),
        (JsonRpcError::invalid_request(), -32600, "Invalid Request"),
        (JsonRpcError::method_not_found(), -32601, "Method not found"),
        (JsonRpcError::invalid_params(), -32602, "Invalid params"),
        (JsonRpcError::internal_error(), -32603, "Internal error"),
        (JsonRpcError::custom(1, "lock error".to_string()), 1, "lock error"),
    ];
    for (error, code, message) in cases {
        assert_eq!(error.code, code);
        assert_eq!(error.message, message);
        assert!(error.data.is_none());
    }
}

#[test]
fn request_is_version_two_without_id() {
    let request = JsonRpcRequest::new(RpcRequestParams::ClientRegister {
        client_name: "Alice".to_string(),
    });
    assert_eq!(request.jsonrpc, "2.0");
    assert!(request.id.is_none());
    match request.params {
        RpcRequestParams::ClientRegister { client_name } => assert_eq!(client_name, "Alice"),
        _ => panic!("wrong parameters"),
    }
}

#[test]
fn responses_carry_result_or_error_and_id() {
    let ok = JsonRpcResponse::success(
        JsonRpcResult::DocumentUpdated { content: "OK".to_string() },
        Some(serde_json::Value::from(3)),
    );
    assert_eq!(ok.jsonrpc, "2.0");
    assert_eq!(ok.result, Some(JsonRpcResult::DocumentUpdated { content: "OK".to_string() }));
    assert!(ok.error.is_none());
    assert_eq!(ok.id, Some(serde_json::Value::from(3)));

    let err = JsonRpcResponse::error(JsonRpcError::invalid_params(), None);
    assert_eq!(err.jsonrpc, "2.0");
    assert!(err.result.is_none());
    assert_eq!(err.error.unwrap().code, -32602);
    assert!(err.id.is_none());
}

#[test]
fn broadcast_is_version_two() {
    let b = SyncBroadcast::new(
        SyncBroadcastMethod::ClientDisconnected,
        SyncBroadcastParams::ClientDisconnected { client_id: "c".to_string() },
    );
    assert_eq!(b.jsonrpc, "2.0");
    assert_eq!(b.method, SyncBroadcastMethod::ClientDisconnected);
    match b.params {
        SyncBroadcastParams::ClientDisconnected { client_id } => assert_eq!(client_id, "c"),
        _ => panic!("wrong parameters"),
    }
}
