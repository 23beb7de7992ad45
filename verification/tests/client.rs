use sink::{
    ClientError, JsonRpcError, JsonRpcResponse, JsonRpcResult, Message, Operation,
    RpcRequestParams, SyncBroadcast, SyncBroadcastMethod, SyncBroadcastParams, SyncClient,
    Timestamp, CRDT,
};

#[test]
fn new_client_is_unregistered() {
    let client = SyncClient::new("Alice".to_string());
    assert_eq!(client.client_name(), "Alice");
    assert_eq!(client.client_id(), None);
    assert_eq!(client.state().list().len(), 1);
    match client.registration_request() {
        RpcRequestParams::ClientRegister { client_name } => assert_eq!(client_name, "Alice"),
        _ => panic!("wrong request"),
    }
}

#[test]
fn registration_takes_the_given_id() {
    let mut client = SyncClient::new("Alice".to_string());
    let response = JsonRpcResponse::success(
        JsonRpcResult::ClientRegistered { client_id: "abc".to_string() },
        None,
    );
    assert!(client.accept_registration(response).is_ok());
    assert_eq!(client.client_id(), Some("abc".to_string()));
}

#[test]
fn registration_fails_without_an_id() {
    let mut client = SyncClient::new("Alice".to_string());
    let response = JsonRpcResponse::error(JsonRpcError::internal_error(), None);
    let err = client.accept_registration(response).unwrap_err();
    assert_eq!(err, ClientError::RegistrationFailed);
    assert_eq!(err.message(), "Failed to register with server");
    assert_eq!(client.client_id(), None);
}

#[test]
fn created_message_is_merged_and_sent() {
    let mut state = CRDT::new();
    let stamp = Timestamp::from_nanosecond(5_000_000_000).unwrap();
    let params = SyncClient::create_message(
        &mut state,
        "Hello".to_string(),
        "me".to_string(),
        "m1".to_string(),
        stamp,
    );
    match params {
        RpcRequestParams::DocumentUpdate { messages, client_id } => {
            assert_eq!(client_id, "me");
            assert_eq!(
                messages,
                vec![Message { id: "m1".to_string(), operation: Operation::Add("Hello".to_string()), timestamp: stamp }]
            );
        }
        _ => panic!("wrong request"),
    }
    assert_eq!(state.text(), "\n# id: m1, timestamp: 1970-01-01T00:00:05Z\nHello");
}

#[test]
fn notifications_from_others_are_merged() {
    let mut state = CRDT::new();
    let message = Message {
        id: "m9".to_string(),
        operation: Operation::Add("hi".to_string()),
        timestamp: Timestamp::from_nanosecond(1).unwrap(),
    };
    let own = SyncBroadcast::new(
        SyncBroadcastMethod::DocumentUpdated,
        SyncBroadcastParams::DocumentUpdated { messages: vec![message.clone()], client_id: "me".to_string() },
    );
    assert!(!SyncClient::handle_notification(&mut state, &"me".to_string(), own));
    assert_eq!(state.list().len(), 1);
    let other = SyncBroadcast::new(
        SyncBroadcastMethod::DocumentUpdated,
        SyncBroadcastParams::DocumentUpdated { messages: vec![message], client_id: "you".to_string() },
    );
    assert!(SyncClient::handle_notification(&mut state, &"me".to_string(), other));
    assert_eq!(state.list().len(), 2);
    let connected = SyncBroadcast::new(
        SyncBroadcastMethod::ClientConnected,
        SyncBroadcastParams::ClientConnected { client_id: "z".to_string(), client_name: "Z".to_string() },
    );
    assert!(!SyncClient::handle_notification(&mut state, &"me".to_string(), connected));
}
