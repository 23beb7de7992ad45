//! The server's decisions: registering clients, merging updates, and the
//! response and notification each request calls for.

use vstd::prelude::*;

use crate::crdt::{copy_messages, id_fits, merged, CRDT};
use crate::rpc::{
    JsonRpcRequest, JsonRpcResponse, JsonRpcResult, RpcRequestParams, SyncBroadcast,
    SyncBroadcastMethod, SyncBroadcastParams,
};
use crate::Message;

verus! {

/// Connected client information; `addr` is the peer address as text.
#[derive(Debug, Clone)]
pub struct ClientInfo {
    pub id: String,
    pub name: String,
    pub addr: String,
}

/// `s` without the clients whose identifier is `id`.
pub open spec fn without_client(s: Seq<ClientInfo>, id: Seq<char>) -> Seq<ClientInfo>
    decreases s.len(),
{
    if s.len() == 0 {
        s
    } else {
        let r = without_client(s.drop_last(), id);
        if s.last().id@ == id {
            r
        } else {
            r.push(s.last())
        }
    }
}

/// `s` with `c` registered under its identifier, replacing any client
/// registered under it before.
pub open spec fn with_client(s: Seq<ClientInfo>, c: ClientInfo) -> Seq<ClientInfo> {
    without_client(s, c.id@).push(c)
}

/// Every message of `ms` has an identifier short enough to be hashed.
pub open spec fn ids_fit(ms: Seq<Message>) -> bool {
    forall|i: int| 0 <= i < ms.len() ==> id_fits(#[trigger] ms[i].id@)
}

/// Whether every message of `ms` has an identifier short enough to be
/// hashed into the chain.
pub fn message_ids_fit(ms: &Vec<Message>) -> (b: bool)
    ensures
        b == ids_fit(ms@),
{
    let n = ms.len();
    let mut i: usize = 0;
    while i < n
        invariant
            i <= n,
            n == ms@.len(),
            forall|j: int| 0 <= j < i ==> id_fits(#[trigger] ms@[j].id@),
        decreases n - i,
    {
        let len = ms[i].id.as_str().as_bytes().len();
        if len as u64 >= 0x1fff_ffff_ffff_ffecu64 {
            return false;
        }
        i = i + 1;
    }
    true
}

/// The clients of `v` whose identifier is not `id`.
fn without_client_exec(v: &Vec<ClientInfo>, id: &String) -> (r: Vec<ClientInfo>)
    ensures
        r@ == without_client(v@, id@),
{
    let mut r: Vec<ClientInfo> = Vec::new();
    let n = v.len();
    let mut i: usize = 0;
    assert(v@.take(0) =~= Seq::<ClientInfo>::empty());
    while i < n
        invariant
            i <= n,
            n == v@.len(),
            r@ == without_client(v@.take(i as int), id@),
        decreases n - i,
    {
        assert(v@.take(i + 1).drop_last() =~= v@.take(i as int));
        assert(v@.take(i + 1).last() == v@[i as int]);
        if v[i].id != *id {
            let c = ClientInfo { id: v[i].id.clone(), name: v[i].name.clone(), addr: v[i].addr.clone() };
            r.push(c);
        }
        i = i + 1;
    }
    assert(v@.take(n as int) =~= v@);
    r
}

/// Shared server state: the CRDT and the registered clients.
pub struct ServerState {
    pub crdt: CRDT,
    pub clients: Vec<ClientInfo>,
}

impl ServerState {
    /// A fresh CRDT and no clients.
    pub fn new() -> (s: Self)
        ensures
            s.crdt.wf(),
            s.crdt.is_initial(),
            s.clients@.len() == 0,
    {
        Self { crdt: CRDT::new(), clients: Vec::new() }
    }

    /// Registers `client_name` at `addr` under the identifier `client_id`
    /// and gives the notification to broadcast.
    pub fn register_client(&mut self, client_name: String, addr: String, client_id: String) -> (b:
        SyncBroadcast)
        ensures
            final(self).clients@ == with_client(
                old(self).clients@,
                ClientInfo { id: client_id, name: client_name, addr },
            ),
            final(self).crdt == old(self).crdt,
            b.jsonrpc@ == "2.0"@,
            b.method == SyncBroadcastMethod::ClientConnected,
            b.params == (SyncBroadcastParams::ClientConnected { client_id, client_name }),
    {
        let info = ClientInfo { id: client_id.clone(), name: client_name.clone(), addr };
        let mut clients = without_client_exec(&self.clients, &client_id);
        clients.push(info);
        self.clients = clients;
        SyncBroadcast::new(
            SyncBroadcastMethod::ClientConnected,
            SyncBroadcastParams::ClientConnected { client_id, client_name },
        )
    }

    /// Removes the client registered under `client_id` and gives the
    /// notification to broadcast.
    pub fn unregister_client(&mut self, client_id: String) -> (b: SyncBroadcast)
        ensures
            final(self).clients@ == without_client(old(self).clients@, client_id@),
            final(self).crdt == old(self).crdt,
            b.jsonrpc@ == "2.0"@,
            b.method == SyncBroadcastMethod::ClientDisconnected,
            b.params == (SyncBroadcastParams::ClientDisconnected { client_id }),
    {
        self.clients = without_client_exec(&self.clients, &client_id);
        SyncBroadcast::new(
            SyncBroadcastMethod::ClientDisconnected,
            SyncBroadcastParams::ClientDisconnected { client_id },
        )
    }

    /// The notification that `client_id` sent `messages`.
    pub fn broadcast_document_update(&self, messages: Vec<Message>, client_id: String) -> (b:
        SyncBroadcast)
        ensures
            b.jsonrpc@ == "2.0"@,
            b.method == SyncBroadcastMethod::DocumentUpdated,
            b.params == (SyncBroadcastParams::DocumentUpdated { messages, client_id }),
    {
        SyncBroadcast::new(
            SyncBroadcastMethod::DocumentUpdated,
            SyncBroadcastParams::DocumentUpdated { messages, client_id },
        )
    }
}

/// Handles one request of a connection whose registered identifier is
/// `client_id`: a registration records the client under `fresh_id` (the
/// identifier generated for it) and answers with that identifier; an update
/// merges the messages into the CRDT and answers `"OK"`. Either way the
/// response carries the request's identifier, and the notification to
/// broadcast comes with it.
pub fn handle_rpc_request(
    request: JsonRpcRequest,
    state: &mut ServerState,
    client_id: &mut Option<String>,
    addr: String,
    fresh_id: String,
) -> (r: (JsonRpcResponse, SyncBroadcast))
    requires
        old(state).crdt.wf(),
        request.params matches RpcRequestParams::DocumentUpdate { messages, .. } ==> ids_fit(
            messages@,
        ),
    ensures
        final(state).crdt.wf(),
        r.0.jsonrpc@ == "2.0"@,
        r.0.error is None,
        r.0.id == request.id,
        r.1.jsonrpc@ == "2.0"@,
        match request.params {
            RpcRequestParams::ClientRegister { client_name } => {
                &&& final(state).clients@ == with_client(
                    old(state).clients@,
                    ClientInfo { id: fresh_id, name: client_name, addr },
                )
                &&& final(state).crdt == old(state).crdt
                &&& *final(client_id) == Some(fresh_id)
                &&& r.0.result == Some(JsonRpcResult::ClientRegistered { client_id: fresh_id })
                &&& r.1.method == SyncBroadcastMethod::ClientConnected
                &&& r.1.params == (SyncBroadcastParams::ClientConnected {
                    client_id: fresh_id,
                    client_name,
                })
            },
            RpcRequestParams::DocumentUpdate { messages, client_id: sender } => {
                &&& (
                    final(state).crdt.ops_view(),
                    final(state).crdt.content_view(),
                    final(state).crdt.chain_view(),
                ) == merged(
                    old(state).crdt.ops_view(),
                    old(state).crdt.content_view(),
                    old(state).crdt.chain_view(),
                    messages@,
                )
                &&& final(state).clients == old(state).clients
                &&& *final(client_id) == *old(client_id)
                &&& r.0.result matches Some(JsonRpcResult::DocumentUpdated { content })
                    && content@ == "OK"@
                &&& r.1.method == SyncBroadcastMethod::DocumentUpdated
                &&& r.1.params matches SyncBroadcastParams::DocumentUpdated {
                    messages: sent,
                    client_id: from,
                } && sent@ == messages@ && from == sender
            },
        },
{
    match request.params {
        RpcRequestParams::ClientRegister { client_name } => {
            let notification = state.register_client(client_name, addr, fresh_id.clone());
            *client_id = Some(fresh_id.clone());
            let response = JsonRpcResponse::success(
                JsonRpcResult::ClientRegistered { client_id: fresh_id },
                request.id,
            );
            (response, notification)
        },
        RpcRequestParams::DocumentUpdate { messages, client_id: sender } => {
            let copy = copy_messages(&messages);
            state.crdt.merge(copy);
            let notification = state.broadcast_document_update(messages, sender);
            let response = JsonRpcResponse::success(
                JsonRpcResult::DocumentUpdated { content: String::from_str("OK") },
                request.id,
            );
            (response, notification)
        },
    }
}

} // verus!
