//! The order of messages that callers see through `partial_cmp` and `<`:
//! by timestamp, then by identifier, as the CRDT keeps its log.

use std::cmp::Ordering;

use vstd::prelude::*;

use crate::order::{key_lt, KeyOrder};
use crate::sorted::Keyed;
use crate::Message;

verus! {

/// How the key of `a` compares with the key of `b`.
pub open spec fn message_order(a: Message, b: Message) -> Ordering {
    if key_lt(a.key_time(), a.key_ident(), b.key_time(), b.key_ident()) {
        Ordering::Less
    } else if a.key_time() == b.key_time() && a.key_ident() == b.key_ident() {
        Ordering::Equal
    } else {
        Ordering::Greater
    }
}

impl PartialOrd for Message {
    fn partial_cmp(&self, other: &Self) -> (r: Option<Ordering>) {
        match self.compare_key(other) {
            KeyOrder::Less => Some(Ordering::Less),
            KeyOrder::Equal => Some(Ordering::Equal),
            KeyOrder::Greater => Some(Ordering::Greater),
        }
    }
}

impl vstd::std_specs::cmp::PartialOrdSpecImpl for Message {
    open spec fn obeys_partial_cmp_spec() -> bool {
        true
    }

    open spec fn partial_cmp_spec(&self, other: &Self) -> Option<Ordering> {
        Some(message_order(*self, *other))
    }
}

} // verus!
