//! A text synchronization library built around an RGA-inspired CRDT whose
//! operation log is sealed by a hash chain.

pub mod client;
pub mod content;
pub mod crdt;
pub mod digest;
pub mod document;
pub mod hexcode;
pub mod laws;
pub mod message_order;
pub mod order;
pub mod rpc;
pub mod server;
pub mod sorted;
pub mod timesort;
pub mod timestamp;

pub use client::{ClientError, SyncClient};
pub use crdt::{Compare, CompareMessage, CrdtError, CRDT};
pub use rpc::{
    DocumentInfo, JsonRpcError, JsonRpcRequest, JsonRpcResponse, JsonRpcResult, RpcMethod,
    RpcRequestParams, SyncBroadcast, SyncBroadcastMethod, SyncBroadcastParams,
};
pub use server::{handle_rpc_request, ClientInfo, ServerState};
pub use timestamp::Timestamp;

use vstd::prelude::*;
use vstd::utf8::encode_utf8;

use crate::digest::{sha1, sha1_digest, sha1_input_fits};
use crate::hexcode::{hex_decode_str, hex_decode_text, hex_encode, hex_lower};

verus! {

/// Identifier of a message.
pub type MessageID = String;

/// What a message does to the text.
#[derive(Debug, Clone, PartialEq, Eq)]
pub enum Operation {
    /// Adds a text entry with this content.
    Add(String),
    /// Marks the text entry added by the message with this identifier as removed.
    Remove(MessageID),
}

/// One link of the hash chain: a message identifier and the lower-case hex
/// text of the chain's digest up to that message.
#[derive(Debug, Clone)]
pub struct HashBlock {
    pub id: String,
    pub hash: String,
}

impl View for HashBlock {
    type V = (Seq<char>, Seq<char>);

    open spec fn view(&self) -> (Seq<char>, Seq<char>) {
        (self.id@, self.hash@)
    }
}

/// The hash text of the block for `id` that follows a block whose hash
/// decodes to `prev`: hex of SHA-1 over the identifier's UTF-8 bytes
/// followed by `prev`.
pub open spec fn chain_hash(id: Seq<char>, prev: Seq<u8>) -> Seq<char> {
    hex_lower(sha1(encode_utf8(id) + prev))
}

impl HashBlock {
    pub fn new(id: String, hash: String) -> (b: Self)
        ensures
            b.id == id,
            b.hash == hash,
    {
        Self { id, hash }
    }

    /// The block for `id` chained after a block whose hash bytes are `prev_hash`.
    pub fn compute_from(id: String, prev_hash: &[u8]) -> (b: Self)
        requires
            sha1_input_fits(encode_utf8(id@).len() + prev_hash@.len()),
        ensures
            b.id == id,
            b.hash@ == chain_hash(id@, prev_hash@),
            b.hash@ == hex_lower(sha1(encode_utf8(id@) + prev_hash@)),
            hex_decode_text(b.hash@) == Some(sha1(encode_utf8(id@) + prev_hash@)),
            crdt::valid_block_hash(b.hash@),
    {
        let digest = Self::compute_hash(id.as_str(), prev_hash);
        let hash = hex_encode(digest.as_slice());
        proof {
            hexcode::lemma_hex_round_trip(digest@);
        }
        Self { id, hash }
    }

    /// SHA-1 over the UTF-8 bytes of `id` followed by `prev_hash`.
    pub fn compute_hash(id: &str, prev_hash: &[u8]) -> (d: Vec<u8>)
        requires
            sha1_input_fits(encode_utf8(id@).len() + prev_hash@.len()),
        ensures
            d@ == sha1(encode_utf8(id@) + prev_hash@),
            d@.len() == 20,
    {
        let id_bytes = id.as_bytes();
        let mut data: Vec<u8> = Vec::new();
        for i in 0..id_bytes.len()
            invariant
                data@ == id_bytes@.take(i as int),
        {
            data.push(id_bytes[i]);
            assert(data@ =~= id_bytes@.take(i + 1));
        }
        assert(id_bytes@.take(id_bytes@.len() as int) =~= id_bytes@);
        for j in 0..prev_hash.len()
            invariant
                data@ == id_bytes@ + prev_hash@.take(j as int),
        {
            data.push(prev_hash[j]);
            assert(data@ =~= id_bytes@ + prev_hash@.take(j + 1));
        }
        assert(prev_hash@.take(prev_hash@.len() as int) =~= prev_hash@);
        sha1_digest(data.as_slice())
    }

    /// The bytes that the hex text `hash` denotes; the text must be valid hex.
    pub fn hash(&self) -> (b: Vec<u8>)
        requires
            hex_decode_text(self.hash@) is Some,
        ensures
            hex_decode_text(self.hash@) == Some(b@),
    {
        match hex_decode_str(self.hash.as_str()) {
            Some(v) => v,
            None => Vec::new(),
        }
    }

    /// A copy of this block.
    pub fn copy(&self) -> (b: Self)
        ensures
            b == *self,
    {
        Self { id: self.id.clone(), hash: self.hash.clone() }
    }
}

/// One operation of the CRDT log, identified by its timestamp and id.
#[derive(Debug, Clone, PartialEq, Eq)]
pub struct Message {
    pub id: String,
    pub operation: Operation,
    pub timestamp: Timestamp,
}

impl Message {
    /// This message orders strictly before `other`.
    pub open spec fn key_lt(self, other: Message) -> bool {
        order::key_lt(self.timestamp@, self.id@, other.timestamp@, other.id@)
    }

    /// This message and `other` have the same timestamp and identifier,
    /// so the log keeps only one of them.
    pub open spec fn same_key(self, other: Message) -> bool {
        self.timestamp@ == other.timestamp@ && self.id@ == other.id@
    }

    /// A copy of this message.
    pub fn copy(&self) -> (m: Self)
        ensures
            m == *self,
    {
        let operation = match &self.operation {
            Operation::Add(data) => Operation::Add(data.clone()),
            Operation::Remove(id) => Operation::Remove(id.clone()),
        };
        Message { id: self.id.clone(), operation, timestamp: self.timestamp }
    }
}

/// A text entry of the CRDT, added by an `Add` message.
#[derive(Debug, Clone, PartialEq, Eq)]
pub struct Text {
    pub id: String,
    pub data: String,
    pub timestamp: Timestamp,
    pub removed: bool,
}

impl Text {
    /// This entry orders strictly before `other`.
    pub open spec fn key_lt(self, other: Text) -> bool {
        order::key_lt(self.timestamp@, self.id@, other.timestamp@, other.id@)
    }

    /// This entry and `other` have the same timestamp and identifier.
    pub open spec fn same_key(self, other: Text) -> bool {
        self.timestamp@ == other.timestamp@ && self.id@ == other.id@
    }

    /// The entry that an `Add` message creates: not removed.
    pub open spec fn spec_from_message(m: Message) -> Text
        recommends
            m.operation is Add,
    {
        Text { id: m.id, data: m.operation->Add_0, timestamp: m.timestamp, removed: false }
    }

    /// The entry that the `Add` message `m` creates.
    pub fn from_message(m: &Message) -> (t: Text)
        requires
            m.operation is Add,
        ensures
            t == Text::spec_from_message(*m),
    {
        let data = match &m.operation {
            Operation::Add(d) => d.clone(),
            Operation::Remove(_) => String::new(),
        };
        Text { id: m.id.clone(), data, timestamp: m.timestamp, removed: false }
    }
}

/// Requests a client can make of a peer.
#[derive(Debug, Clone, PartialEq, Eq)]
pub enum ClientRequest {
    Sync,
    Update { content: String },
}

} // verus!
