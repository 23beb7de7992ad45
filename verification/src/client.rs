//! The client's decisions: registering, creating messages, and merging what
//! other clients sent.

use vstd::prelude::*;

use crate::crdt::{copy_messages, id_fits, merged, CRDT};
use crate::rpc::{JsonRpcResponse, JsonRpcResult, RpcRequestParams, SyncBroadcast, SyncBroadcastParams};
use crate::server::ids_fit;
use crate::{Message, Operation, Timestamp};

verus! {

/// Why a client operation failed.
#[derive(Debug, Clone, Copy, PartialEq, Eq, Structural)]
pub enum ClientError {
    /// The server's answer to the registration carried no client identifier.
    RegistrationFailed,
}

impl ClientError {
    /// The error's description.
    pub fn message(&self) -> (s: &'static str)
        ensures
            s@ == "Failed to register with server"@,
    {
        "Failed to register with server"
    }
}

/// Text synchronization client: its replica of the CRDT, its name, and the
/// identifier the server gave it.
#[derive(Debug)]
pub struct SyncClient {
    state: CRDT,
    client_id: Option<String>,
    client_name: String,
}

impl SyncClient {
    /// The client's replica.
    pub closed spec fn spec_state(&self) -> CRDT {
        self.state
    }

    /// The identifier the server gave this client, if any.
    pub closed spec fn spec_client_id(&self) -> Option<String> {
        self.client_id
    }

    /// The client's name.
    pub closed spec fn spec_client_name(&self) -> String {
        self.client_name
    }

    /// A client with a fresh replica and no identifier yet.
    pub fn new(client_name: String) -> (c: Self)
        ensures
            c.spec_state().wf(),
            c.spec_state().is_initial(),
            c.spec_client_id() is None,
            c.spec_client_name() == client_name,
    {
        Self { state: CRDT::new(), client_id: None, client_name }
    }

    /// The request that registers this client under its name.
    pub fn registration_request(&self) -> (p: RpcRequestParams)
        ensures
            p matches RpcRequestParams::ClientRegister { client_name } && client_name
                == self.spec_client_name(),
    {
        RpcRequestParams::ClientRegister { client_name: self.client_name.clone() }
    }

    /// Takes the server's answer to the registration: a `ClientRegistered`
    /// result sets the client identifier; anything else is an error and
    /// changes nothing.
    pub fn accept_registration(&mut self, response: JsonRpcResponse) -> (r: Result<(), ClientError>)
        ensures
            final(self).spec_state() == old(self).spec_state(),
            final(self).spec_client_name() == old(self).spec_client_name(),
            match response.result {
                Some(JsonRpcResult::ClientRegistered { client_id }) => r is Ok
                    && final(self).spec_client_id() == Some(client_id),
                _ => r == Err::<(), ClientError>(ClientError::RegistrationFailed)
                    && final(self).spec_client_id() == old(self).spec_client_id(),
            },
    {
        match response.result {
            Some(JsonRpcResult::ClientRegistered { client_id }) => {
                self.client_id = Some(client_id);
                Ok(())
            },
            _ => Err(ClientError::RegistrationFailed),
        }
    }

    /// Creates the message `id` adding `content` at `timestamp`, merges it
    /// into `state`, and gives the update to send to the server.
    pub fn create_message(
        state: &mut CRDT,
        content: String,
        client_id: String,
        id: String,
        timestamp: Timestamp,
    ) -> (p: RpcRequestParams)
        requires
            old(state).wf(),
            id_fits(id@),
        ensures
            final(state).wf(),
            p matches RpcRequestParams::DocumentUpdate { messages, client_id: sender } && {
                &&& sender == client_id
                &&& messages@ == seq![Message { id, operation: Operation::Add(content), timestamp }]
                &&& (final(state).ops_view(), final(state).content_view(), final(state).chain_view())
                    == merged(
                    old(state).ops_view(),
                    old(state).content_view(),
                    old(state).chain_view(),
                    messages@,
                )
            },
    {
        let message = Message { id, operation: Operation::Add(content), timestamp };
        let mut messages: Vec<Message> = Vec::new();
        messages.push(message);
        let copy = copy_messages(&messages);
        assert(messages@ =~= seq![message]);
        state.merge(copy);
        RpcRequestParams::DocumentUpdate { messages, client_id }
    }

    /// Takes a notification: messages that another client sent are merged
    /// into `state` (the result says whether that happened); any other
    /// notification leaves `state` unchanged.
    pub fn handle_notification(state: &mut CRDT, own_id: &String, notification: SyncBroadcast) -> (merged_any: bool)
        requires
            old(state).wf(),
            notification.params matches SyncBroadcastParams::DocumentUpdated { messages, .. }
                ==> ids_fit(messages@),
        ensures
            final(state).wf(),
            match notification.params {
                SyncBroadcastParams::DocumentUpdated { messages, client_id: sender } => {
                    &&& merged_any == (sender@ != own_id@)
                    &&& merged_any ==> (
                        final(state).ops_view(),
                        final(state).content_view(),
                        final(state).chain_view(),
                    ) == merged(
                        old(state).ops_view(),
                        old(state).content_view(),
                        old(state).chain_view(),
                        messages@,
                    )
                    &&& !merged_any ==> *final(state) == *old(state)
                },
                _ => !merged_any && *final(state) == *old(state),
            },
    {
        match notification.params {
            SyncBroadcastParams::DocumentUpdated { messages, client_id: sender } => {
                if *own_id != sender {
                    state.merge(messages);
                    true
                } else {
                    false
                }
            },
            _ => false,
        }
    }

    /// The identifier the server gave this client, if any.
    pub fn client_id(&self) -> (r: Option<String>)
        ensures
            r == self.spec_client_id(),
    {
        match &self.client_id {
            Some(id) => Some(id.clone()),
            None => None,
        }
    }

    /// The client's name.
    pub fn client_name(&self) -> (r: &str)
        ensures
            r@ == self.spec_client_name()@,
    {
        self.client_name.as_str()
    }

    /// The client's replica.
    pub fn state(&self) -> (r: &CRDT)
        ensures
            *r == self.spec_state(),
    {
        &self.state
    }

    /// The client's replica, for merging into it.
    pub fn state_mut(&mut self) -> (r: &mut CRDT)
        ensures
            *r == old(self).spec_state(),
            final(self).spec_state() == *final(r),
            final(self).spec_client_id() == old(self).spec_client_id(),
            final(self).spec_client_name() == old(self).spec_client_name(),
    {
        &mut self.state
    }
}

} // verus!
