use sink::server::message_ids_fit;
use sink::{
    handle_rpc_request, JsonRpcRequest, JsonRpcResult, Message, Operation, RpcRequestParams,
    ServerState, SyncBroadcastMethod, SyncBroadcastParams, Timestamp,
};

fn update_of(id: &str, content: &str, nanos: i128) -> Message {
    Message {
        id: id.to_string(),
        operation: Operation::Add(content.to_string()),
        timestamp: Timestamp::from_nanosecond(nanos).unwrap(),
    }
}

#[test]
fn register_records_client_and_answers_with_its_id() {
    let mut state = ServerState::new();
    let mut session: Option<String> = None;
    let mut request = JsonRpcRequest::new(RpcRequestParams::ClientRegister {
        client_name: "Alice".to_string(),
    });
    request.id = Some(serde_json::Value::from(1));
    let (response, notification) = handle_rpc_request(
        request,
        &mut state,
        &mut session,
        "127.0.0.1:9000".to_string(),
        "id-1".to_string(),
    );
    assert_eq!(session, Some("id-1".to_string()));
    assert_eq!(response.result, Some(JsonRpcResult::ClientRegistered { client_id: "id-1".to_string() }));
    assert_eq!(response.id, Some(serde_json::Value::from(1)));
    assert_eq!(notification.method, SyncBroadcastMethod::ClientConnected);
    match notification.params {
        SyncBroadcastParams::ClientConnected { client_id, client_name } => {
            assert_eq!(client_id, "id-1");
            assert_eq!(client_name, "Alice");
        }
        _ => panic!("wrong notification"),
    }
    assert_eq!(state.clients.len(), 1);
    assert_eq!(state.clients[0].name, "Alice");
    assert_eq!(state.clients[0].addr, "127.0.0.1:9000");
}

#[test]
fn update_merges_and_answers_ok() {
    let mut state = ServerState::new();
    let mut session: Option<String> = Some("me".to_string());
    let messages = vec![update_of("m1", "hello", 10)];
    let request = JsonRpcRequest::new(RpcRequestParams::DocumentUpdate {
        messages: messages.clone(),
        client_id: "me".to_string(),
    });
    let (response, notification) =
        handle_rpc_request(request, &mut state, &mut session, "a".to_string(), "unused".to_string());
    assert_eq!(response.result, Some(JsonRpcResult::DocumentUpdated { content: "OK".to_string() }));
    assert!(response.error.is_none());
    assert_eq!(session, Some("me".to_string()));
    assert_eq!(state.crdt.list().len(), 2);
    assert!(state.crdt.text().ends_with("\nhello"));
    match notification.params {
        SyncBroadcastParams::DocumentUpdated { messages: sent, client_id } => {
            assert_eq!(sent, messages);
            assert_eq!(client_id, "me");
        }
        _ => panic!("wrong notification"),
    }
}

#[test]
fn register_replaces_and_unregister_removes() {
    let mut state = ServerState::new();
    state.register_client("Alice".to_string(), "a".to_string(), "x".to_string());
    state.register_client("Bob".to_string(), "b".to_string(), "y".to_string());
    state.register_client("Alice2".to_string(), "c".to_string(), "x".to_string());
    assert_eq!(state.clients.len(), 2);
    let names: Vec<&str> = state.clients.iter().map(|c| c.name.as_str()).collect();
    assert_eq!(names, vec!["Bob", "Alice2"]);
    let b = state.unregister_client("x".to_string());
    assert_eq!(b.method, SyncBroadcastMethod::ClientDisconnected);
    assert_eq!(state.clients.len(), 1);
    assert_eq!(state.clients[0].id, "y");
}

#[test]
fn identifiers_of_ordinary_length_fit() {
    assert!(message_ids_fit(&vec![update_of("abc", "x", 1)]));
    assert!(message_ids_fit(&Vec::new()));
}

#[test]
fn unregister_after_register_leaves_the_others() {
    let mut state = ServerState::new();
    state.register_client("Bob".to_string(), "b".to_string(), "y".to_string());
    let before: Vec<String> = state.clients.iter().map(|c| c.id.clone()).collect();
    state.register_client("Carol".to_string(), "c".to_string(), "z".to_string());
    assert_eq!(state.clients.last().unwrap().id, "z");
    state.unregister_client("z".to_string());
    let after: Vec<String> = state.clients.iter().map(|c| c.id.clone()).collect();
    assert_eq!(before, after);
}
