//! Properties of merging, comparing and printing that hold across calls.

use vstd::prelude::*;

use crate::content::{
    apply_message, apply_messages, is_first_with_id,
    lemma_update_same_key_sorted, mark_removed,
};
use crate::crdt::{
    compare_diff, extend_chain, ids_after_first, merged, render, suffix_from, BlockView, CRDT,
};
use crate::document::{updated, utc_lt, Document, UtcTime};
use crate::server::{with_client, without_client, ClientInfo};
use crate::sorted::{
    contains_key, insert_by_key, is_insert_pos, klt, ksame, lemma_insert_keeps_sorted,
    lemma_insert_pos_exists, lemma_klt, strictly_sorted, Keyed,
};
use crate::timesort::{lemma_sort_by_timestamp, lemma_sort_ignores_arrangement, sort_by_timestamp, timestamps_identify};
use crate::digest::sha1;
use crate::document::{can_update, info_of};
use crate::hexcode::{hex_decode_text, hex_lower, lemma_hex_round_trip};
use crate::timestamp::timestamp_text;
use crate::{chain_hash, Message, Operation, Text};
use vstd::utf8::encode_utf8;

verus! {

broadcast use vstd::seq_lib::group_to_multiset_ensures;

/// Inserting by key keeps the order, keeps every element, and leaves an
/// element with the inserted key.
pub proof fn lemma_insert_by_key<T: Keyed>(s: Seq<T>, x: T)
    requires
        strictly_sorted(s),
    ensures
        strictly_sorted(insert_by_key(s, x)),
        contains_key(insert_by_key(s, x), x),
        forall|y: T| s.contains(y) ==> insert_by_key(s, x).contains(y),
        contains_key(s, x) ==> insert_by_key(s, x) == s,
{
    if !contains_key(s, x) {
        lemma_insert_pos_exists(s, x);
        let p = choose|p: int| is_insert_pos(s, x, p);
        lemma_insert_keeps_sorted(s, x, p);
        let r = s.insert(p, x);
        assert(r[p] == x);
        lemma_klt(x, x, x);
        assert(ksame(r[p], x));
        assert forall|y: T| s.contains(y) implies r.contains(y) by {
            let j = choose|j: int| 0 <= j < s.len() && s[j] == y;
            if j < p {
                assert(r[j] == y);
            } else {
                assert(r[j + 1] == y);
            }
        }
    }
}

/// Marking an entry as removed keeps the order.
pub proof fn lemma_mark_removed_sorted(s: Seq<Text>, id: Seq<char>)
    requires
        strictly_sorted(s),
    ensures
        strictly_sorted(mark_removed(s, id)),
{
    if exists|i: int| is_first_with_id(s, id, i) {
        let i = choose|i: int| is_first_with_id(s, id, i);
        let t = Text { id: s[i].id, data: s[i].data, timestamp: s[i].timestamp, removed: true };
        lemma_update_same_key_sorted(s, i, t);
    }
}

/// Applying one message keeps both sequences sorted, keeps every message
/// of the log, and leaves a message with its key.
pub proof fn lemma_apply_message(ops: Seq<Message>, content: Seq<Text>, m: Message)
    requires
        strictly_sorted(ops),
        strictly_sorted(content),
    ensures
        strictly_sorted(apply_message(ops, content, m).0),
        strictly_sorted(apply_message(ops, content, m).1),
        forall|x: Message| ops.contains(x) ==> apply_message(ops, content, m).0.contains(x),
        contains_key(apply_message(ops, content, m).0, m),
{
    lemma_insert_by_key(ops, m);
    match m.operation {
        Operation::Add(_) => {
            lemma_insert_by_key(content, Text::spec_from_message(m));
        },
        Operation::Remove(id) => {
            lemma_mark_removed_sorted(content, id@);
        },
    }
}

/// A message with the key of one in `s` has it in any sequence that keeps
/// all elements of `s`.
pub proof fn lemma_key_carried(s: Seq<Message>, r: Seq<Message>, m: Message)
    requires
        contains_key(s, m),
        forall|x: Message| s.contains(x) ==> r.contains(x),
    ensures
        contains_key(r, m),
{
    let j = choose|j: int| 0 <= j < s.len() && ksame(#[trigger] s[j], m);
    assert(s.contains(s[j]));
    let k = choose|k: int| 0 <= k < r.len() && r[k] == s[j];
    assert(ksame(r[k], m));
}

/// Applying messages keeps the log and the entries sorted, keeps every
/// message of the log, and leaves a message with the key of each applied one.
pub proof fn lemma_apply_messages(ops: Seq<Message>, content: Seq<Text>, ms: Seq<Message>)
    requires
        strictly_sorted(ops),
        strictly_sorted(content),
    ensures
        strictly_sorted(apply_messages(ops, content, ms).0),
        strictly_sorted(apply_messages(ops, content, ms).1),
        forall|x: Message| ops.contains(x) ==> apply_messages(ops, content, ms).0.contains(x),
        forall|i: int| 0 <= i < ms.len() ==> contains_key(apply_messages(ops, content, ms).0, #[trigger] ms[i]),
    decreases ms.len(),
{
    if ms.len() > 0 {
        let d = ms.drop_last();
        lemma_apply_messages(ops, content, d);
        let prev = apply_messages(ops, content, d);
        let m = ms.last();
        lemma_apply_message(prev.0, prev.1, m);
        let r = apply_messages(ops, content, ms).0;
        assert(r == apply_message(prev.0, prev.1, m).0);
        assert forall|i: int| 0 <= i < ms.len() implies contains_key(r, #[trigger] ms[i]) by {
            if i < ms.len() - 1 {
                assert(ms[i] == d[i]);
                lemma_key_carried(prev.0, r, d[i]);
            }
        }
    }
}

/// Applying messages whose keys are all in the log leaves the log as it is.
pub proof fn lemma_apply_present_keys(ops: Seq<Message>, content: Seq<Text>, ms: Seq<Message>)
    requires
        strictly_sorted(ops),
        forall|i: int| 0 <= i < ms.len() ==> contains_key(ops, #[trigger] ms[i]),
    ensures
        apply_messages(ops, content, ms).0 == ops,
    decreases ms.len(),
{
    if ms.len() > 0 {
        let d = ms.drop_last();
        assert forall|i: int| 0 <= i < d.len() implies contains_key(ops, #[trigger] d[i]) by {
            assert(d[i] == ms[i]);
        }
        lemma_apply_present_keys(ops, content, d);
        assert(contains_key(ops, ms[ms.len() - 1]));
        lemma_insert_by_key(ops, ms.last());
    }
}

/// Merging gives the same state whatever the order of the incoming
/// messages, as long as messages that share a timestamp are identical.
pub proof fn law_merge_ignores_arrangement(
    ops: Seq<Message>,
    content: Seq<Text>,
    chain: Seq<BlockView>,
    a: Seq<Message>,
    b: Seq<Message>,
)
    requires
        a.to_multiset() == b.to_multiset(),
        timestamps_identify(a.to_multiset()),
    ensures
        merged(ops, content, chain, a) == merged(ops, content, chain, b),
{
    lemma_sort_ignores_arrangement(a, b);
}

/// A merge keeps every message already in the log, and afterwards the log
/// holds a message with the timestamp and identifier of every incoming one.
pub proof fn law_merge_keeps_and_adds(
    ops: Seq<Message>,
    content: Seq<Text>,
    chain: Seq<BlockView>,
    incoming: Seq<Message>,
)
    requires
        strictly_sorted(ops),
        strictly_sorted(content),
    ensures
        forall|x: Message| ops.contains(x) ==> merged(ops, content, chain, incoming).0.contains(x),
        forall|i: int|
            0 <= i < incoming.len() ==> contains_key(
                merged(ops, content, chain, incoming).0,
                #[trigger] incoming[i],
            ),
{
    let s = sort_by_timestamp(incoming);
    lemma_sort_by_timestamp(incoming);
    lemma_apply_messages(ops, content, s);
    let r = merged(ops, content, chain, incoming).0;
    assert forall|i: int| 0 <= i < incoming.len() implies contains_key(r, #[trigger] incoming[i]) by {
        assert(incoming.to_multiset().contains(incoming[i]));
        assert(s.to_multiset().contains(incoming[i]));
        let j = choose|j: int| 0 <= j < s.len() && s[j] == incoming[i];
        assert(contains_key(r, s[j]));
    }
}

/// Merging the same messages a second time leaves the log unchanged.
pub proof fn law_merge_log_idempotent(
    ops: Seq<Message>,
    content: Seq<Text>,
    chain: Seq<BlockView>,
    incoming: Seq<Message>,
)
    requires
        strictly_sorted(ops),
        strictly_sorted(content),
    ensures
        ({
            let once = merged(ops, content, chain, incoming);
            merged(once.0, once.1, once.2, incoming).0 == once.0
        }),
{
    let once = merged(ops, content, chain, incoming);
    let s = sort_by_timestamp(incoming);
    lemma_sort_by_timestamp(incoming);
    lemma_apply_messages(ops, content, s);
    lemma_apply_present_keys(once.0, once.1, s);
}

/// The chain after a merge starts with the chain before it and has one more
/// block per identifier.
pub proof fn law_chain_extends(chain: Seq<BlockView>, ids: Seq<Seq<char>>)
    ensures
        extend_chain(chain, ids).len() == chain.len() + ids.len(),
        extend_chain(chain, ids).take(chain.len() as int) == chain,
    decreases ids.len(),
{
    if ids.len() > 0 {
        law_chain_extends(chain, ids.drop_last());
        let c = extend_chain(chain, ids.drop_last());
        assert(extend_chain(chain, ids).take(chain.len() as int) =~= c.take(chain.len() as int));
    } else {
        assert(chain.take(chain.len() as int) =~= chain);
    }
}

/// A peer that reports this replica's own chain length and last hash is
/// missing nothing.
pub proof fn law_compare_with_own_tip(ops: Seq<Message>, chain: Seq<BlockView>)
    requires
        chain.len() > 0,
    ensures
        compare_diff(ops, chain, chain.len() as int, chain.last().1) == Some(Seq::<Message>::empty()),
{
}

/// Two updates with different timestamps leave the same content, author
/// and time of last change whichever is applied first: the later one wins.
pub proof fn law_last_write_wins(
    d: Document,
    c1: String,
    a1: u128,
    t1: UtcTime,
    c2: String,
    a2: u128,
    t2: UtcTime,
)
    requires
        t1 != t2,
    ensures
        ({
            let x = updated(updated(d, c1, a1, t1), c2, a2, t2);
            let y = updated(updated(d, c2, a2, t2), c1, a1, t1);
            &&& x.content == y.content
            &&& x.last_modified == y.last_modified
            &&& x.last_modified_by == y.last_modified_by
        }),
{
}

/// An update never moves the time of last change backwards.
pub proof fn law_update_monotone(d: Document, c: String, a: u128, t: UtcTime)
    ensures
        !utc_lt(updated(d, c, a, t).last_modified, d.last_modified),
{
}

/// No client with identifier `id` is left after removing `id`.
pub proof fn lemma_without_client_absent(s: Seq<ClientInfo>, id: Seq<char>)
    ensures
        forall|i: int| 0 <= i < without_client(s, id).len() ==> (#[trigger] without_client(s, id)[i]).id@ != id,
        forall|c: ClientInfo| s.contains(c) && c.id@ != id ==> without_client(s, id).contains(c),
        forall|c: ClientInfo| without_client(s, id).contains(c) ==> s.contains(c),
    decreases s.len(),
{
    if s.len() > 0 {
        let d = s.drop_last();
        lemma_without_client_absent(d, id);
        let r = without_client(d, id);
        assert forall|c: ClientInfo| s.contains(c) && c.id@ != id implies without_client(s, id).contains(c) by {
            let j = choose|j: int| 0 <= j < s.len() && s[j] == c;
            if j < s.len() - 1 {
                assert(d[j] == c);
                assert(d.contains(c));
                let k = choose|k: int| 0 <= k < r.len() && r[k] == c;
                if s.last().id@ != id {
                    assert(r.push(s.last())[k] == c);
                }
            } else {
                assert(r.push(s.last())[r.len() as int] == c);
            }
        }
        assert forall|c: ClientInfo| without_client(s, id).contains(c) implies s.contains(c) by {
            let w = without_client(s, id);
            let k = choose|k: int| 0 <= k < w.len() && w[k] == c;
            if k < r.len() {
                if s.last().id@ != id {
                    assert(w == r.push(s.last()));
                    assert(w[k] == r[k]);
                } else {
                    assert(w == r);
                }
                assert(r[k] == c);
                assert(r.contains(c));
                assert(d.contains(c));
                let j = choose|j: int| 0 <= j < d.len() && d[j] == c;
                assert(s[j] == c);
            } else {
                assert(w == r.push(s.last()));
                assert(s[s.len() - 1] == c);
            }
        }
    }
}

/// Removing an identifier twice is the same as removing it once.
pub proof fn lemma_without_client_idempotent(s: Seq<ClientInfo>, id: Seq<char>)
    ensures
        without_client(without_client(s, id), id) == without_client(s, id),
    decreases s.len(),
{
    if s.len() > 0 {
        let d = s.drop_last();
        lemma_without_client_idempotent(d, id);
        let r = without_client(d, id);
        if s.last().id@ != id {
            assert(r.push(s.last()).drop_last() =~= r);
        }
    }
}

/// Registering a client and then unregistering its identifier leaves the
/// registry as unregistering alone would; after registering, the client is
/// the only one under its identifier.
pub proof fn law_unregister_undoes_register(s: Seq<ClientInfo>, c: ClientInfo)
    ensures
        without_client(with_client(s, c), c.id@) == without_client(s, c.id@),
        with_client(s, c).last() == c,
        forall|i: int| 0 <= i < with_client(s, c).len() - 1 ==> (#[trigger] with_client(s, c)[i]).id@ != c.id@,
{
    let r = without_client(s, c.id@);
    assert(with_client(s, c).drop_last() =~= r);
    lemma_without_client_idempotent(s, c.id@);
    lemma_without_client_absent(s, c.id@);
    assert forall|i: int| 0 <= i < with_client(s, c).len() - 1 implies (#[trigger] with_client(s, c)[i]).id@ != c.id@ by {
        assert(with_client(s, c)[i] == r[i]);
    }
}

/// Some entry of `s` has the identifier, content and timestamp of `t`,
/// and is removed if `t` is.
pub open spec fn kept_in(t: Text, s: Seq<Text>) -> bool {
    exists|j: int|
        0 <= j < s.len() && (#[trigger] s[j]).id == t.id && s[j].data == t.data && s[j].timestamp
            == t.timestamp && (t.removed ==> s[j].removed)
}

/// Every entry of `a` is kept in `b`.
pub open spec fn all_kept(a: Seq<Text>, b: Seq<Text>) -> bool {
    forall|i: int| 0 <= i < a.len() ==> kept_in(#[trigger] a[i], b)
}

pub proof fn lemma_kept_transitive(a: Seq<Text>, b: Seq<Text>, c: Seq<Text>)
    requires
        all_kept(a, b),
        all_kept(b, c),
    ensures
        all_kept(a, c),
{
    assert forall|i: int| 0 <= i < a.len() implies kept_in(#[trigger] a[i], c) by {
        assert(kept_in(a[i], b));
        let j = choose|j: int|
            0 <= j < b.len() && (#[trigger] b[j]).id == a[i].id && b[j].data == a[i].data
                && b[j].timestamp == a[i].timestamp && (a[i].removed ==> b[j].removed);
        assert(kept_in(b[j], c));
        let k = choose|k: int|
            0 <= k < c.len() && (#[trigger] c[k]).id == b[j].id && c[k].data == b[j].data
                && c[k].timestamp == b[j].timestamp && (b[j].removed ==> c[k].removed);
        assert(c[k].id == a[i].id);
    }
}

/// One message keeps every entry, and removed entries stay removed.
pub proof fn lemma_apply_message_keeps_entries(ops: Seq<Message>, content: Seq<Text>, m: Message)
    requires
        strictly_sorted(content),
    ensures
        all_kept(content, apply_message(ops, content, m).1),
{
    let r = apply_message(ops, content, m).1;
    match m.operation {
        Operation::Add(_) => {
            lemma_insert_by_key(content, Text::spec_from_message(m));
            assert forall|i: int| 0 <= i < content.len() implies kept_in(#[trigger] content[i], r) by {
                assert(content.contains(content[i]));
                assert(r.contains(content[i]));
                let j = choose|j: int| 0 <= j < r.len() && r[j] == content[i];
                assert(r[j].id == content[i].id);
            }
        },
        Operation::Remove(id) => {
            assert forall|i: int| 0 <= i < content.len() implies kept_in(#[trigger] content[i], r) by {
                if exists|k: int| is_first_with_id(content, id@, k) {
                    let k = choose|k: int| is_first_with_id(content, id@, k);
                    assert(r[i].id == content[i].id);
                } else {
                    assert(r[i] == content[i]);
                }
            }
        },
    }
}

/// Merging never drops a text entry and never brings back a removed one.
pub proof fn law_removal_is_permanent(
    ops: Seq<Message>,
    content: Seq<Text>,
    chain: Seq<BlockView>,
    incoming: Seq<Message>,
)
    requires
        strictly_sorted(ops),
        strictly_sorted(content),
    ensures
        all_kept(content, merged(ops, content, chain, incoming).1),
{
    lemma_apply_messages_keeps_entries(ops, content, sort_by_timestamp(incoming));
}

pub proof fn lemma_apply_messages_keeps_entries(ops: Seq<Message>, content: Seq<Text>, ms: Seq<Message>)
    requires
        strictly_sorted(ops),
        strictly_sorted(content),
    ensures
        all_kept(content, apply_messages(ops, content, ms).1),
    decreases ms.len(),
{
    if ms.len() == 0 {
        assert forall|i: int| 0 <= i < content.len() implies kept_in(#[trigger] content[i], content) by {
            assert(content[i].id == content[i].id);
        }
    } else {
        let d = ms.drop_last();
        lemma_apply_messages_keeps_entries(ops, content, d);
        lemma_apply_messages(ops, content, d);
        let prev = apply_messages(ops, content, d);
        lemma_apply_message_keeps_entries(prev.0, prev.1, ms.last());
        lemma_kept_transitive(content, prev.1, apply_messages(ops, content, ms).1);
    }
}

/// Every block added by `extend_chain` hashes its identifier with the
/// digest of the block before it.
pub proof fn law_chain_links(chain: Seq<BlockView>, ids: Seq<Seq<char>>)
    requires
        chain.len() > 0,
    ensures
        forall|k: int|
            chain.len() <= k < extend_chain(chain, ids).len() ==> (#[trigger] extend_chain(chain, ids)[k]).1
                == crate::chain_hash(
                extend_chain(chain, ids)[k].0,
                crate::hexcode::hex_decode_text(extend_chain(chain, ids)[k - 1].1).unwrap(),
            ),
        forall|k: int|
            chain.len() <= k < extend_chain(chain, ids).len() ==> (#[trigger] extend_chain(chain, ids)[k]).0
                == ids[k - chain.len()],
    decreases ids.len(),
{
    law_chain_extends(chain, ids);
    if ids.len() > 0 {
        let d = ids.drop_last();
        law_chain_links(chain, d);
        law_chain_extends(chain, d);
        let c = extend_chain(chain, d);
        let r = extend_chain(chain, ids);
        assert forall|k: int| chain.len() <= k < r.len() implies (#[trigger] r[k]).0 == ids[k - chain.len()] by {
            if k < c.len() {
                assert(r[k] == c[k]);
                assert(d[k - chain.len()] == ids[k - chain.len()]);
            }
        }
        assert forall|k: int| chain.len() <= k < r.len() implies (#[trigger] r[k]).1 == crate::chain_hash(
            r[k].0,
            crate::hexcode::hex_decode_text(r[k - 1].1).unwrap(),
        ) by {
            if k < c.len() {
                assert(r[k] == c[k]);
                assert(r[k - 1] == c[k - 1]);
            } else {
                assert(r[k - 1] == c.last());
            }
        }
    }
}

/// The messages of `s` whose timestamp is `t`, in order.
pub open spec fn with_timestamp(s: Seq<Message>, t: int) -> Seq<Message>
    decreases s.len(),
{
    if s.len() == 0 {
        s
    } else {
        let r = with_timestamp(s.drop_last(), t);
        if s.last().timestamp@ == t {
            r.push(s.last())
        } else {
            r
        }
    }
}

pub proof fn lemma_with_timestamp_concat(a: Seq<Message>, b: Seq<Message>, t: int)
    ensures
        with_timestamp(a + b, t) == with_timestamp(a, t) + with_timestamp(b, t),
    decreases b.len(),
{
    if b.len() == 0 {
        assert(a + b =~= a);
        assert(with_timestamp(a, t) + with_timestamp(b, t) =~= with_timestamp(a, t));
    } else {
        lemma_with_timestamp_concat(a, b.drop_last(), t);
        assert((a + b).drop_last() =~= a + b.drop_last());
        assert((a + b).last() == b.last());
        if b.last().timestamp@ == t {
            assert(with_timestamp(a, t) + with_timestamp(b.drop_last(), t).push(b.last())
                =~= (with_timestamp(a, t) + with_timestamp(b.drop_last(), t)).push(b.last()));
        }
    }
}

pub proof fn lemma_with_timestamp_none(s: Seq<Message>, t: int)
    requires
        forall|i: int| 0 <= i < s.len() ==> (#[trigger] s[i]).timestamp@ != t,
    ensures
        with_timestamp(s, t) == Seq::<Message>::empty(),
    decreases s.len(),
{
    if s.len() > 0 {
        let d = s.drop_last();
        assert forall|i: int| 0 <= i < d.len() implies (#[trigger] d[i]).timestamp@ != t by {
            assert(d[i] == s[i]);
        }
        lemma_with_timestamp_none(d, t);
    }
}

/// Inserting by timestamp puts the new message after those that share its
/// timestamp.
pub proof fn lemma_insert_by_timestamp_stable(s: Seq<Message>, m: Message, t: int)
    requires
        crate::timesort::ts_sorted(s),
    ensures
        with_timestamp(crate::timesort::insert_by_timestamp(s, m), t) == with_timestamp(s.push(m), t),
{
    crate::timesort::lemma_upper_pos_exists(s, m.timestamp@);
    let p = choose|p: int| crate::timesort::is_upper_pos(s, m.timestamp@, p);
    let a = s.take(p);
    let b = s.skip(p);
    assert(s =~= a + b);
    assert(s.insert(p, m) =~= a + (seq![m] + b));
    assert(s.push(m) =~= a + (b + seq![m]));
    lemma_with_timestamp_concat(a, seq![m] + b, t);
    lemma_with_timestamp_concat(seq![m], b, t);
    lemma_with_timestamp_concat(a, b + seq![m], t);
    lemma_with_timestamp_concat(b, seq![m], t);
    if m.timestamp@ == t {
        assert forall|i: int| 0 <= i < b.len() implies (#[trigger] b[i]).timestamp@ != t by {
            assert(b[i] == s[p + i]);
        }
        lemma_with_timestamp_none(b, t);
    }
    assert(seq![m].drop_last() =~= Seq::<Message>::empty());
    assert(seq![m].last() == m);
    assert(with_timestamp(Seq::<Message>::empty(), t) == Seq::<Message>::empty());
    assert(with_timestamp(seq![m], t) + with_timestamp(b, t) =~= with_timestamp(b, t) + with_timestamp(seq![m], t)) by {
        if m.timestamp@ != t {
            assert(with_timestamp(seq![m], t) =~= Seq::<Message>::empty());
        } else {
            assert(with_timestamp(b, t) =~= Seq::<Message>::empty());
        }
    }
}

/// The sort that starts a merge is stable: messages that share a timestamp
/// keep the order in which they came.
pub proof fn law_sort_is_stable(s: Seq<Message>, t: int)
    ensures
        with_timestamp(sort_by_timestamp(s), t) == with_timestamp(s, t),
    decreases s.len(),
{
    if s.len() > 0 {
        let d = s.drop_last();
        law_sort_is_stable(d, t);
        lemma_sort_by_timestamp(d);
        lemma_insert_by_timestamp_stable(sort_by_timestamp(d), s.last(), t);
        assert(sort_by_timestamp(d).push(s.last()).drop_last() =~= sort_by_timestamp(d));
        assert(s =~= d.push(s.last()));
    }
}

/// The first blocks of an extended chain are the chain extended by the
/// first identifiers.
pub proof fn lemma_extend_chain_take(chain: Seq<BlockView>, ids: Seq<Seq<char>>, k: int)
    requires
        0 <= k <= ids.len(),
    ensures
        extend_chain(chain, ids).take(chain.len() + k) == extend_chain(chain, ids.take(k)),
    decreases ids.len(),
{
    law_chain_extends(chain, ids);
    if k == ids.len() {
        assert(ids.take(k) =~= ids);
        assert(extend_chain(chain, ids).take(chain.len() + k) =~= extend_chain(chain, ids));
    } else {
        let d = ids.drop_last();
        lemma_extend_chain_take(chain, d, k);
        law_chain_extends(chain, d);
        assert(d.take(k) =~= ids.take(k));
        assert(extend_chain(chain, ids).take(chain.len() + k) =~= extend_chain(chain, d).take(
            chain.len() + k,
        ));
    }
}

/// A peer whose log is a prefix of this log, both built from the same
/// genesis block by hashing the log, gets from `compare` exactly the
/// messages after its prefix (nothing when the logs are equal).
pub proof fn law_compare_prefix(genesis: Seq<BlockView>, l1: Seq<Message>, l2: Seq<Message>)
    requires
        genesis.len() == 1,
        1 <= l2.len() <= l1.len(),
        l2 == l1.take(l2.len() as int),
    ensures
        ({
            let p = l2.len() as int;
            let c2 = extend_chain(genesis, ids_after_first(l2));
            compare_diff(l1, extend_chain(genesis, ids_after_first(l1)), p, c2[p - 1].1) == Some(
                suffix_from(l1, p),
            )
        }),
{
    let p = l2.len() as int;
    let n = l1.len() as int;
    let ids1 = ids_after_first(l1);
    let c1 = extend_chain(genesis, ids1);
    let c2 = extend_chain(genesis, ids_after_first(l2));
    assert(ids_after_first(l2) =~= ids1.take(p - 1));
    lemma_extend_chain_take(genesis, ids1, p - 1);
    law_chain_extends(genesis, ids1);
    assert(c1.len() == n);
    assert(c2 == c1.take(p));
    assert(c2[p - 1] == c1[p - 1]);
    if p < n {
        assert(last_match_before_is(c1, p, c2[p - 1].1));
    }
}

/// The last block before `p` carries hash text `h`.
pub open spec fn last_match_before_is(chain: Seq<BlockView>, p: int, h: Seq<char>) -> bool {
    crate::crdt::last_match_before(chain, p, h) == Some(p - 1)
}

/// `law_compare_prefix` for two replicas that each merged once from the
/// initial state: the chain of each is its log hashed from the genesis block.
pub proof fn law_compare_prefix_replicas(c1: CRDT, c2: CRDT)
    requires
        c1.chain_view() == extend_chain(
            seq![("0"@, "0000000000000000000000000000000000000000"@)],
            ids_after_first(c1.ops_view()),
        ),
        c2.chain_view() == extend_chain(
            seq![("0"@, "0000000000000000000000000000000000000000"@)],
            ids_after_first(c2.ops_view()),
        ),
        1 <= c2.ops_view().len() <= c1.ops_view().len(),
        c2.ops_view() == c1.ops_view().take(c2.ops_view().len() as int),
    ensures
        ({
            let p = c2.ops_view().len() as int;
            compare_diff(c1.ops_view(), c1.chain_view(), p, c2.chain_view()[p - 1].1) == Some(
                suffix_from(c1.ops_view(), p),
            )
        }),
{
    law_compare_prefix(
        seq![("0"@, "0000000000000000000000000000000000000000"@)],
        c1.ops_view(),
        c2.ops_view(),
    );
}

/// Two fresh replicas each merge once; if the second one's log is a prefix
/// of the first one's, then comparing the first replica with the second
/// one's position and last hash gives exactly the messages the second one is
/// missing (none when the logs are equal).
pub proof fn law_compare_after_fresh_merges(
    x1: CRDT,
    x2: CRDT,
    in1: Seq<Message>,
    in2: Seq<Message>,
)
    requires
        x1.is_initial(),
        x2.is_initial(),
        ({
            let l1 = merged(x1.ops_view(), x1.content_view(), x1.chain_view(), in1).0;
            let l2 = merged(x2.ops_view(), x2.content_view(), x2.chain_view(), in2).0;
            l2.len() <= l1.len() && l2 == l1.take(l2.len() as int)
        }),
    ensures
        ({
            let m1 = merged(x1.ops_view(), x1.content_view(), x1.chain_view(), in1);
            let m2 = merged(x2.ops_view(), x2.content_view(), x2.chain_view(), in2);
            let p = m2.0.len() as int;
            &&& 1 <= p
            &&& compare_diff(m1.0, m1.2, p, m2.2[p - 1].1) == Some(suffix_from(m1.0, p))
        }),
{
    let genesis = seq![("0"@, "0000000000000000000000000000000000000000"@)];
    let m1 = merged(x1.ops_view(), x1.content_view(), x1.chain_view(), in1);
    let m2 = merged(x2.ops_view(), x2.content_view(), x2.chain_view(), in2);
    assert(strictly_sorted(x2.ops_view()));
    assert(strictly_sorted(x2.content_view()));
    law_merge_keeps_and_adds(x2.ops_view(), x2.content_view(), x2.chain_view(), in2);
    assert(x2.ops_view().contains(x2.ops_view()[0]));
    assert(m2.0.len() >= 1);
    law_one_merge_chain(x1.ops_view(), x1.content_view(), x1.chain_view(), in1);
    law_one_merge_chain(x2.ops_view(), x2.content_view(), x2.chain_view(), in2);
    law_compare_prefix(genesis, m1.0, m2.0);
}

/// After one merge from any state, the chain is the old chain extended by
/// the identifiers of the new log after its first message; from the initial
/// state this is the log hashed from the genesis block.
pub proof fn law_one_merge_chain(
    ops: Seq<Message>,
    content: Seq<Text>,
    chain: Seq<BlockView>,
    incoming: Seq<Message>,
)
    ensures
        merged(ops, content, chain, incoming).2 == extend_chain(
            chain,
            ids_after_first(merged(ops, content, chain, incoming).0),
        ),
{
}

/// Every `Remove` of an identifier comes strictly later than every `Add`
/// that creates an entry with that identifier.
pub open spec fn removes_follow_adds(ms: Seq<Message>) -> bool {
    forall|a: Message, r: Message|
        #[trigger] ms.contains(a) && #[trigger] ms.contains(r) && a.operation is Add
            && r.operation is Remove && a.id@ == r.operation->Remove_0@ ==> a.timestamp@
            < r.timestamp@
}

/// The first entry with identifier `x`, if any, is removed.
pub open spec fn removal_settled(s: Seq<Text>, x: Seq<char>) -> bool {
    forall|i: int| #[trigger] is_first_with_id(s, x, i) ==> s[i].removed
}

/// A message has already left its mark on `c`: an `Add` has an entry with
/// its key, a `Remove` has its first entry removed.
pub open spec fn settled_by(c: Seq<Text>, m: Message) -> bool {
    match m.operation {
        Operation::Add(_) => contains_key(c, Text::spec_from_message(m)),
        Operation::Remove(x) => removal_settled(c, x@),
    }
}

/// Marking a settled removal again changes nothing.
pub proof fn lemma_mark_settled(s: Seq<Text>, x: Seq<char>)
    requires
        removal_settled(s, x),
    ensures
        mark_removed(s, x) == s,
{
    if exists|i: int| is_first_with_id(s, x, i) {
        let i = choose|i: int| is_first_with_id(s, x, i);
        assert(s[i].removed);
        let t = Text { id: s[i].id, data: s[i].data, timestamp: s[i].timestamp, removed: true };
        assert(t == s[i]);
        assert(s.update(i, t) =~= s);
    }
}

/// `mark_removed` keeps every identifier in place.
pub proof fn lemma_mark_removed_ids(s: Seq<Text>, x: Seq<char>)
    ensures
        mark_removed(s, x).len() == s.len(),
        forall|i: int|
            0 <= i < s.len() ==> (#[trigger] mark_removed(s, x)[i]).id == s[i].id
                && mark_removed(s, x)[i].timestamp == s[i].timestamp
                && (s[i].removed ==> mark_removed(s, x)[i].removed),
        forall|i: int|
            0 <= i < s.len() && s[i].id@ != x ==> #[trigger] mark_removed(s, x)[i] == s[i],
{
}

/// After marking `x`, its removal is settled.
pub proof fn lemma_mark_settles(s: Seq<Text>, x: Seq<char>)
    ensures
        removal_settled(mark_removed(s, x), x),
{
    let r = mark_removed(s, x);
    lemma_mark_removed_ids(s, x);
    assert forall|i: int| #[trigger] is_first_with_id(r, x, i) implies r[i].removed by {
        assert(is_first_with_id(s, x, i)) by {
            assert forall|j: int| 0 <= j < i implies (#[trigger] s[j]).id@ != x by {
                assert(r[j].id == s[j].id);
                assert(r[j].id@ != x);
            }
            assert(r[i].id == s[i].id);
        }
        let c = choose|c: int| is_first_with_id(s, x, c);
        crate::content::lemma_first_with_id_unique(s, x, c, i);
    }
}

/// A settled removal stays settled when an entry with another identifier
/// is inserted or another identifier is marked.
pub proof fn lemma_settled_kept(s: Seq<Text>, x: Seq<char>, m: Message)
    requires
        strictly_sorted(s),
        removal_settled(s, x),
        m.operation is Add ==> m.id@ != x,
    ensures
        removal_settled(apply_message(Seq::empty(), s, m).1, x),
{
    let r = apply_message(Seq::empty(), s, m).1;
    match m.operation {
        Operation::Add(_) => {
            let t = Text::spec_from_message(m);
            if !contains_key(s, t) {
                lemma_insert_pos_exists(s, t);
                let p = choose|p: int| is_insert_pos(s, t, p);
                assert forall|k: int| #[trigger] is_first_with_id(r, x, k) implies r[k].removed by {
                    if k < p {
                        assert(r[k] == s[k]);
                        assert forall|j: int| 0 <= j < k implies (#[trigger] s[j]).id@ != x by {
                            assert(r[j] == s[j]);
                        }
                        assert(is_first_with_id(s, x, k));
                    } else if k == p {
                        assert(r[p] == t);
                    } else {
                        assert(r[k] == s[k - 1]);
                        assert forall|j: int| 0 <= j < k - 1 implies (#[trigger] s[j]).id@ != x by {
                            if j < p {
                                assert(r[j] == s[j]);
                            } else {
                                assert(r[j + 1] == s[j]);
                            }
                        }
                        assert(is_first_with_id(s, x, k - 1));
                    }
                }
            }
        },
        Operation::Remove(y) => {
            if y@ == x {
                lemma_mark_settles(s, x);
            } else {
                lemma_mark_removed_ids(s, y@);
                assert forall|k: int| #[trigger] is_first_with_id(r, x, k) implies r[k].removed by {
                    assert forall|j: int| 0 <= j < k implies (#[trigger] s[j]).id@ != x by {
                        assert(r[j].id == s[j].id);
                    }
                    assert(r[k].id == s[k].id);
                    assert(is_first_with_id(s, x, k));
                    assert(r[k] == s[k]);
                }
            }
        },
    }
}

/// An entry with a given key stays after any message.
pub proof fn lemma_key_kept(s: Seq<Text>, t: Text, m: Message)
    requires
        strictly_sorted(s),
        contains_key(s, t),
    ensures
        contains_key(apply_message(Seq::empty(), s, m).1, t),
{
    let r = apply_message(Seq::empty(), s, m).1;
    let j = choose|j: int| 0 <= j < s.len() && ksame(#[trigger] s[j], t);
    match m.operation {
        Operation::Add(_) => {
            lemma_insert_by_key(s, Text::spec_from_message(m));
            assert(s.contains(s[j]));
            let k = choose|k: int| 0 <= k < r.len() && r[k] == s[j];
            assert(ksame(r[k], t));
        },
        Operation::Remove(y) => {
            lemma_mark_removed_ids(s, y@);
            assert(ksame(r[j], t));
        },
    }
}

/// The content part of applying a message does not depend on the log.
pub proof fn lemma_content_ignores_log(ops: Seq<Message>, s: Seq<Text>, m: Message)
    ensures
        apply_message(ops, s, m).1 == apply_message(Seq::empty(), s, m).1,
{
}

/// Applying timestamp-sorted messages in which removals follow additions
/// leaves every one of them settled.
pub proof fn lemma_apply_settles(ops: Seq<Message>, content: Seq<Text>, ms: Seq<Message>)
    requires
        strictly_sorted(ops),
        strictly_sorted(content),
        crate::timesort::ts_sorted(ms),
        removes_follow_adds(ms),
    ensures
        forall|i: int|
            0 <= i < ms.len() ==> settled_by(apply_messages(ops, content, ms).1, #[trigger] ms[i]),
    decreases ms.len(),
{
    if ms.len() > 0 {
        let d = ms.drop_last();
        let m = ms.last();
        assert(crate::timesort::ts_sorted(d)) by {
            assert forall|i: int, j: int| 0 <= i < j < d.len() implies (#[trigger] d[i]).timestamp@
                <= (#[trigger] d[j]).timestamp@ by {
                assert(d[i] == ms[i] && d[j] == ms[j]);
            }
        }
        assert(removes_follow_adds(d)) by {
            assert forall|a: Message, r: Message|
                #[trigger] d.contains(a) && #[trigger] d.contains(r) && a.operation is Add
                    && r.operation is Remove && a.id@ == r.operation->Remove_0@ implies a.timestamp@
                < r.timestamp@ by {
                let ia = choose|ia: int| 0 <= ia < d.len() && d[ia] == a;
                let ir = choose|ir: int| 0 <= ir < d.len() && d[ir] == r;
                assert(ms[ia] == a && ms[ir] == r);
                assert(ms.contains(a) && ms.contains(r));
            }
        }
        lemma_apply_settles(ops, content, d);
        lemma_apply_messages(ops, content, d);
        let prev = apply_messages(ops, content, d);
        let r = apply_messages(ops, content, ms).1;
        lemma_content_ignores_log(prev.0, prev.1, m);
        assert(r == apply_message(Seq::empty(), prev.1, m).1);
        assert forall|i: int| 0 <= i < ms.len() implies settled_by(r, #[trigger] ms[i]) by {
            if i == ms.len() - 1 {
                match m.operation {
                    Operation::Add(_) => {
                        lemma_insert_by_key(prev.1, Text::spec_from_message(m));
                    },
                    Operation::Remove(x) => {
                        lemma_mark_settles(prev.1, x@);
                    },
                }
            } else {
                let e = ms[i];
                assert(e == d[i]);
                assert(settled_by(prev.1, d[i]));
                match e.operation {
                    Operation::Add(_) => {
                        lemma_key_kept(prev.1, Text::spec_from_message(e), m);
                    },
                    Operation::Remove(x) => {
                        if m.operation is Add && m.id@ == x@ {
                            assert(ms.contains(m) && ms.contains(e));
                            assert(e.timestamp@ <= m.timestamp@);
                        }
                        lemma_settled_kept(prev.1, x@, m);
                    },
                }
            }
        }
    }
}

/// Applying messages that have all left their mark leaves the entries as
/// they are.
pub proof fn lemma_apply_settled_unchanged(ops: Seq<Message>, content: Seq<Text>, ms: Seq<Message>)
    requires
        strictly_sorted(content),
        forall|i: int| 0 <= i < ms.len() ==> settled_by(content, #[trigger] ms[i]),
    ensures
        apply_messages(ops, content, ms).1 == content,
    decreases ms.len(),
{
    if ms.len() > 0 {
        let d = ms.drop_last();
        assert forall|i: int| 0 <= i < d.len() implies settled_by(content, #[trigger] d[i]) by {
            assert(d[i] == ms[i]);
        }
        lemma_apply_settled_unchanged(ops, content, d);
        let m = ms.last();
        assert(settled_by(content, ms[ms.len() - 1]));
        match m.operation {
            Operation::Add(_) => {
                lemma_insert_by_key(content, Text::spec_from_message(m));
            },
            Operation::Remove(x) => {
                lemma_mark_settled(content, x@);
            },
        }
    }
}

/// Merging the same messages a second time leaves the log and the text
/// entries (so the text) unchanged, provided every `Remove` in them comes
/// strictly later than every `Add` of an entry with the identifier it
/// removes.
pub proof fn law_merge_idempotent(
    ops: Seq<Message>,
    content: Seq<Text>,
    chain: Seq<BlockView>,
    incoming: Seq<Message>,
)
    requires
        strictly_sorted(ops),
        strictly_sorted(content),
        removes_follow_adds(incoming),
    ensures
        ({
            let once = merged(ops, content, chain, incoming);
            let twice = merged(once.0, once.1, once.2, incoming);
            &&& twice.0 == once.0
            &&& twice.1 == once.1
            &&& render(twice.1) == render(once.1)
        }),
{
    let s = sort_by_timestamp(incoming);
    lemma_sort_by_timestamp(incoming);
    assert(removes_follow_adds(s)) by {
        assert forall|a: Message, r: Message|
            #[trigger] s.contains(a) && #[trigger] s.contains(r) && a.operation is Add
                && r.operation is Remove && a.id@ == r.operation->Remove_0@ implies a.timestamp@
            < r.timestamp@ by {
            assert(s.to_multiset().contains(a) && s.to_multiset().contains(r));
            assert(incoming.contains(a) && incoming.contains(r));
        }
    }
    lemma_apply_messages(ops, content, s);
    lemma_apply_settles(ops, content, s);
    let once = merged(ops, content, chain, incoming);
    lemma_apply_settled_unchanged(once.0, once.1, s);
    law_merge_log_idempotent(ops, content, chain, incoming);
}

/// What an operation holds, by view.
pub open spec fn op_view(o: Operation) -> (bool, Seq<char>) {
    match o {
        Operation::Add(d) => (true, d@),
        Operation::Remove(x) => (false, x@),
    }
}

/// What a message holds, by view.
pub open spec fn msg_view(m: Message) -> (Seq<char>, (bool, Seq<char>), int) {
    (m.id@, op_view(m.operation), m.timestamp@)
}

/// What a text entry holds, by view.
pub open spec fn text_view(t: Text) -> (Seq<char>, Seq<char>, int, bool) {
    (t.id@, t.data@, t.timestamp@, t.removed)
}

/// Two logs that hold the same messages, position by position, by view.
pub open spec fn msgs_eqv(a: Seq<Message>, b: Seq<Message>) -> bool {
    a.len() == b.len() && forall|i: int| 0 <= i < a.len() ==> msg_view(#[trigger] a[i]) == msg_view(b[i])
}

/// Two entry sequences that hold the same entries, position by position,
/// by view.
pub open spec fn texts_eqv(a: Seq<Text>, b: Seq<Text>) -> bool {
    a.len() == b.len() && forall|i: int| 0 <= i < a.len() ==> text_view(#[trigger] a[i]) == text_view(b[i])
}

/// Two sequences with the same key at every position.
pub open spec fn same_keys<T: Keyed>(a: Seq<T>, b: Seq<T>) -> bool {
    a.len() == b.len() && forall|i: int| 0 <= i < a.len() ==> ksame(#[trigger] a[i], b[i])
}

/// Inserting the same element into two sorted sequences with the same keys
/// leaves both unchanged or puts it at the same position in both.
pub proof fn lemma_insert_corresponds<T: Keyed>(a: Seq<T>, b: Seq<T>, x: T)
    requires
        strictly_sorted(a),
        strictly_sorted(b),
        same_keys(a, b),
    ensures
        (insert_by_key(a, x) == a && insert_by_key(b, x) == b) || exists|p: int|
            0 <= p <= a.len() && insert_by_key(a, x) == a.insert(p, x) && insert_by_key(b, x)
                == b.insert(p, x),
{
    if contains_key(a, x) {
        let i = choose|i: int| 0 <= i < a.len() && ksame(#[trigger] a[i], x);
        assert(ksame(b[i], x));
        assert(contains_key(b, x));
    } else {
        assert(!contains_key(b, x)) by {
            if contains_key(b, x) {
                let i = choose|i: int| 0 <= i < b.len() && ksame(#[trigger] b[i], x);
                assert(ksame(a[i], x));
            }
        }
        lemma_insert_pos_exists(a, x);
        lemma_insert_pos_exists(b, x);
        let p = choose|p: int| is_insert_pos(a, x, p);
        let q = choose|q: int| is_insert_pos(b, x, q);
        assert(is_insert_pos(b, x, p)) by {
            assert forall|j: int| 0 <= j < p implies klt(#[trigger] b[j], x) by {
                assert(klt(a[j], x));
                assert(ksame(a[j], b[j]));
            }
            assert forall|j: int| p <= j < b.len() implies !klt(#[trigger] b[j], x) by {
                assert(!klt(a[j], x));
                assert(ksame(a[j], b[j]));
            }
        }
        crate::sorted::lemma_insert_pos_unique(b, x, p, q);
    }
}

/// Logs equal by view have the same keys, and the second is sorted when
/// the first is.
pub proof fn lemma_msgs_eqv_keys(a: Seq<Message>, b: Seq<Message>)
    requires
        msgs_eqv(a, b),
    ensures
        same_keys(a, b),
        strictly_sorted(a) ==> strictly_sorted(b),
{
    assert forall|i: int| 0 <= i < a.len() implies ksame(#[trigger] a[i], b[i]) by {
        assert(msg_view(a[i]) == msg_view(b[i]));
    }
    if strictly_sorted(a) {
        assert forall|i: int, j: int| 0 <= i < j < b.len() implies klt(#[trigger] b[i], #[trigger] b[j]) by {
            assert(klt(a[i], a[j]));
            assert(msg_view(a[i]) == msg_view(b[i]));
            assert(msg_view(a[j]) == msg_view(b[j]));
        }
    }
}

/// Entry sequences equal by view have the same keys, and the second is
/// sorted when the first is.
pub proof fn lemma_texts_eqv_keys(a: Seq<Text>, b: Seq<Text>)
    requires
        texts_eqv(a, b),
    ensures
        same_keys(a, b),
        strictly_sorted(a) ==> strictly_sorted(b),
{
    assert forall|i: int| 0 <= i < a.len() implies ksame(#[trigger] a[i], b[i]) by {
        assert(text_view(a[i]) == text_view(b[i]));
    }
    if strictly_sorted(a) {
        assert forall|i: int, j: int| 0 <= i < j < b.len() implies klt(#[trigger] b[i], #[trigger] b[j]) by {
            assert(klt(a[i], a[j]));
            assert(text_view(a[i]) == text_view(b[i]));
            assert(text_view(a[j]) == text_view(b[j]));
        }
    }
}

/// Marking the same identifier in two equivalent entry sequences gives
/// equivalent sequences.
pub proof fn lemma_mark_removed_eqv(a: Seq<Text>, b: Seq<Text>, x: Seq<char>)
    requires
        texts_eqv(a, b),
    ensures
        texts_eqv(mark_removed(a, x), mark_removed(b, x)),
{
    assert forall|i: int| is_first_with_id(a, x, i) <==> is_first_with_id(b, x, i) by {
        if 0 <= i < a.len() {
            assert(text_view(a[i]) == text_view(b[i]));
        }
        if is_first_with_id(a, x, i) {
            assert forall|j: int| 0 <= j < i implies (#[trigger] b[j]).id@ != x by {
                assert(text_view(a[j]) == text_view(b[j]));
            }
        }
        if is_first_with_id(b, x, i) {
            assert forall|j: int| 0 <= j < i implies (#[trigger] a[j]).id@ != x by {
                assert(text_view(a[j]) == text_view(b[j]));
            }
        }
    }
    if exists|i: int| is_first_with_id(a, x, i) {
        let i = choose|i: int| is_first_with_id(a, x, i);
        assert(is_first_with_id(b, x, i));
        let k = choose|k: int| is_first_with_id(b, x, k);
        crate::content::lemma_first_with_id_unique(b, x, i, k);
        let ra = mark_removed(a, x);
        let rb = mark_removed(b, x);
        assert forall|j: int| 0 <= j < ra.len() implies text_view(#[trigger] ra[j]) == text_view(rb[j]) by {
            assert(text_view(a[j]) == text_view(b[j]));
        }
    } else {
        assert(!exists|i: int| is_first_with_id(b, x, i));
    }
}

/// Applying the same message to equivalent states gives equivalent states.
pub proof fn lemma_apply_message_eqv(
    o1: Seq<Message>,
    c1: Seq<Text>,
    o2: Seq<Message>,
    c2: Seq<Text>,
    m: Message,
)
    requires
        strictly_sorted(o1),
        strictly_sorted(c1),
        msgs_eqv(o1, o2),
        texts_eqv(c1, c2),
    ensures
        msgs_eqv(apply_message(o1, c1, m).0, apply_message(o2, c2, m).0),
        texts_eqv(apply_message(o1, c1, m).1, apply_message(o2, c2, m).1),
{
    lemma_msgs_eqv_keys(o1, o2);
    lemma_texts_eqv_keys(c1, c2);
    lemma_insert_corresponds(o1, o2, m);
    let r1 = insert_by_key(o1, m);
    let r2 = insert_by_key(o2, m);
    if !(r1 == o1 && r2 == o2) {
        let p = choose|p: int| 0 <= p <= o1.len() && r1 == o1.insert(p, m) && r2 == o2.insert(p, m);
        assert forall|i: int| 0 <= i < r1.len() implies msg_view(#[trigger] r1[i]) == msg_view(r2[i]) by {
            if i < p {
                assert(msg_view(o1[i]) == msg_view(o2[i]));
            } else if i > p {
                assert(msg_view(o1[i - 1]) == msg_view(o2[i - 1]));
            }
        }
    }
    match m.operation {
        Operation::Add(_) => {
            let t = Text::spec_from_message(m);
            lemma_insert_corresponds(c1, c2, t);
            let s1 = insert_by_key(c1, t);
            let s2 = insert_by_key(c2, t);
            if !(s1 == c1 && s2 == c2) {
                let p = choose|p: int| 0 <= p <= c1.len() && s1 == c1.insert(p, t) && s2 == c2.insert(p, t);
                assert forall|i: int| 0 <= i < s1.len() implies text_view(#[trigger] s1[i]) == text_view(s2[i]) by {
                    if i < p {
                        assert(text_view(c1[i]) == text_view(c2[i]));
                    } else if i > p {
                        assert(text_view(c1[i - 1]) == text_view(c2[i - 1]));
                    }
                }
            }
        },
        Operation::Remove(x) => {
            lemma_mark_removed_eqv(c1, c2, x@);
        },
    }
}

/// Applying the same messages to equivalent states gives equivalent states.
pub proof fn lemma_apply_messages_eqv(
    o1: Seq<Message>,
    c1: Seq<Text>,
    o2: Seq<Message>,
    c2: Seq<Text>,
    ms: Seq<Message>,
)
    requires
        strictly_sorted(o1),
        strictly_sorted(c1),
        msgs_eqv(o1, o2),
        texts_eqv(c1, c2),
    ensures
        msgs_eqv(apply_messages(o1, c1, ms).0, apply_messages(o2, c2, ms).0),
        texts_eqv(apply_messages(o1, c1, ms).1, apply_messages(o2, c2, ms).1),
    decreases ms.len(),
{
    if ms.len() > 0 {
        let d = ms.drop_last();
        lemma_apply_messages_eqv(o1, c1, o2, c2, d);
        lemma_apply_messages(o1, c1, d);
        let p1 = apply_messages(o1, c1, d);
        let p2 = apply_messages(o2, c2, d);
        lemma_apply_message_eqv(p1.0, p1.1, p2.0, p2.1, ms.last());
    }
}

/// Equivalent entries print the same text.
pub proof fn lemma_render_eqv(a: Seq<Text>, b: Seq<Text>)
    requires
        texts_eqv(a, b),
    ensures
        render(a) == render(b),
    decreases a.len(),
{
    if a.len() > 0 {
        assert(text_view(a[0]) == text_view(b[0]));
        assert(texts_eqv(a.drop_first(), b.drop_first())) by {
            assert forall|i: int| 0 <= i < a.drop_first().len() implies text_view(
                #[trigger] a.drop_first()[i],
            ) == text_view(b.drop_first()[i]) by {
                assert(text_view(a[i + 1]) == text_view(b[i + 1]));
            }
        }
        lemma_render_eqv(a.drop_first(), b.drop_first());
    }
}

/// Two replicas in equivalent states (such as two fresh ones) that merge two
/// arrangements of the same messages, where messages sharing a timestamp are
/// identical, end with the same log (by view), the same text and the same
/// chain.
pub proof fn law_replicas_converge(
    o1: Seq<Message>,
    c1: Seq<Text>,
    o2: Seq<Message>,
    c2: Seq<Text>,
    chain: Seq<BlockView>,
    a: Seq<Message>,
    b: Seq<Message>,
)
    requires
        strictly_sorted(o1),
        strictly_sorted(c1),
        msgs_eqv(o1, o2),
        texts_eqv(c1, c2),
        a.to_multiset() == b.to_multiset(),
        timestamps_identify(a.to_multiset()),
    ensures
        msgs_eqv(merged(o1, c1, chain, a).0, merged(o2, c2, chain, b).0),
        render(merged(o1, c1, chain, a).1) == render(merged(o2, c2, chain, b).1),
        merged(o1, c1, chain, a).2 == merged(o2, c2, chain, b).2,
{
    lemma_sort_ignores_arrangement(a, b);
    let s = sort_by_timestamp(a);
    lemma_apply_messages_eqv(o1, c1, o2, c2, s);
    let r1 = apply_messages(o1, c1, s);
    let r2 = apply_messages(o2, c2, s);
    lemma_render_eqv(r1.1, r2.1);
    assert(ids_after_first(r1.0) =~= ids_after_first(r2.0)) by {
        assert forall|i: int| 0 <= i < ids_after_first(r1.0).len() implies ids_after_first(r1.0)[i]
            == ids_after_first(r2.0)[i] by {
            assert(msg_view(r1.0[i + 1]) == msg_view(r2.0[i + 1]));
        }
    }
}

/// Two fresh replicas that merge two arrangements of the same messages,
/// where messages sharing a timestamp are identical, end with the same log
/// (by view), the same text and the same chain.
pub proof fn law_fresh_replicas_converge(x: CRDT, y: CRDT, a: Seq<Message>, b: Seq<Message>)
    requires
        x.is_initial(),
        y.is_initial(),
        a.to_multiset() == b.to_multiset(),
        timestamps_identify(a.to_multiset()),
    ensures
        ({
            let mx = merged(x.ops_view(), x.content_view(), x.chain_view(), a);
            let my = merged(y.ops_view(), y.content_view(), y.chain_view(), b);
            &&& msgs_eqv(mx.0, my.0)
            &&& render(mx.1) == render(my.1)
            &&& mx.2 == my.2
        }),
{
    law_fresh_replicas_equivalent(x, y);
    assert(strictly_sorted(x.ops_view()));
    assert(strictly_sorted(x.content_view()));
    law_replicas_converge(
        x.ops_view(),
        x.content_view(),
        y.ops_view(),
        y.content_view(),
        x.chain_view(),
        a,
        b,
    );
}

/// Two fresh replicas are in equivalent states.
pub proof fn law_fresh_replicas_equivalent(x: CRDT, y: CRDT)
    requires
        x.is_initial(),
        y.is_initial(),
    ensures
        msgs_eqv(x.ops_view(), y.ops_view()),
        texts_eqv(x.content_view(), y.content_view()),
        x.chain_view() == y.chain_view(),
{
    assert(msg_view(x.ops_view()[0]) == msg_view(y.ops_view()[0]));
}

/// Any two messages of `s` that share a key are equal by view.
pub open spec fn keys_identify(s: Seq<Message>) -> bool {
    forall|x: Message, y: Message|
        #[trigger] s.contains(x) && #[trigger] s.contains(y) && ksame(x, y) ==> msg_view(x)
            == msg_view(y)
}

/// Inserting by key adds nothing but the inserted element.
pub proof fn lemma_insert_by_key_from<T: Keyed>(s: Seq<T>, x: T)
    requires
        strictly_sorted(s),
    ensures
        forall|y: T| #[trigger] insert_by_key(s, x).contains(y) ==> s.contains(y) || y == x,
{
    if !contains_key(s, x) {
        lemma_insert_pos_exists(s, x);
        let p = choose|p: int| is_insert_pos(s, x, p);
        let r = insert_by_key(s, x);
        assert forall|y: T| #[trigger] r.contains(y) implies s.contains(y) || y == x by {
            let k = choose|k: int| 0 <= k < r.len() && r[k] == y;
            if k < p {
                assert(s[k] == y);
            } else if k > p {
                assert(s[k - 1] == y);
            }
        }
    }
}

/// The log after applying messages holds only messages of the old log or of
/// those applied.
pub proof fn lemma_apply_messages_from(ops: Seq<Message>, content: Seq<Text>, ms: Seq<Message>)
    requires
        strictly_sorted(ops),
        strictly_sorted(content),
    ensures
        forall|x: Message|
            #[trigger] apply_messages(ops, content, ms).0.contains(x) ==> ops.contains(x)
                || ms.contains(x),
    decreases ms.len(),
{
    if ms.len() > 0 {
        let d = ms.drop_last();
        lemma_apply_messages_from(ops, content, d);
        lemma_apply_messages(ops, content, d);
        let prev = apply_messages(ops, content, d);
        lemma_insert_by_key_from(prev.0, ms.last());
        assert forall|x: Message| #[trigger] apply_messages(ops, content, ms).0.contains(x)
            implies ops.contains(x) || ms.contains(x) by {
            assert(apply_messages(ops, content, ms).0 == insert_by_key(prev.0, ms.last()));
            if prev.0.contains(x) {
                if d.contains(x) {
                    let k = choose|k: int| 0 <= k < d.len() && d[k] == x;
                    assert(ms[k] == x);
                }
            } else {
                assert(ms[ms.len() - 1] == x);
            }
        }
    }
}

/// Two strictly sorted sequences in which every key of one occurs in the
/// other have the same key at every position.
pub proof fn lemma_same_key_set<T: Keyed>(a: Seq<T>, b: Seq<T>)
    requires
        strictly_sorted(a),
        strictly_sorted(b),
        forall|i: int| 0 <= i < a.len() ==> contains_key(b, #[trigger] a[i]),
        forall|j: int| 0 <= j < b.len() ==> contains_key(a, #[trigger] b[j]),
    ensures
        same_keys(a, b),
    decreases a.len(),
{
    if a.len() == 0 {
        if b.len() > 0 {
            assert(contains_key(a, b[0]));
        }
    } else {
        if b.len() == 0 {
            assert(contains_key(b, a[0]));
        }
        let j = choose|j: int| 0 <= j < b.len() && ksame(#[trigger] b[j], a[0]);
        let k = choose|k: int| 0 <= k < a.len() && ksame(#[trigger] a[k], b[0]);
        lemma_klt(a[0], b[0], a[0]);
        lemma_klt(b[0], a[0], b[0]);
        if j > 0 {
            assert(klt(b[0], b[j]));
            if k > 0 {
                assert(klt(a[0], a[k]));
            }
        }
        assert(ksame(a[0], b[0]));
        let a1 = a.drop_first();
        let b1 = b.drop_first();
        assert forall|i: int| 0 <= i < a1.len() implies contains_key(b1, #[trigger] a1[i]) by {
            assert(a1[i] == a[i + 1]);
            assert(contains_key(b, a[i + 1]));
            let q = choose|q: int| 0 <= q < b.len() && ksame(#[trigger] b[q], a[i + 1]);
            assert(klt(a[0], a[i + 1]));
            lemma_klt(a[0], a[0], a[0]);
            if q == 0 {
                assert(false);
            }
            assert(ksame(b1[q - 1], a1[i]));
        }
        assert forall|i: int| 0 <= i < b1.len() implies contains_key(a1, #[trigger] b1[i]) by {
            assert(b1[i] == b[i + 1]);
            assert(contains_key(a, b[i + 1]));
            let q = choose|q: int| 0 <= q < a.len() && ksame(#[trigger] a[q], b[i + 1]);
            assert(klt(b[0], b[i + 1]));
            lemma_klt(b[0], b[0], b[0]);
            if q == 0 {
                assert(false);
            }
            assert(ksame(a1[q - 1], b1[i]));
        }
        assert(strictly_sorted(a1)) by {
            assert forall|i: int, k: int| 0 <= i < k < a1.len() implies klt(#[trigger] a1[i], #[trigger] a1[k]) by {
                assert(klt(a[i + 1], a[k + 1]));
            }
        }
        assert(strictly_sorted(b1)) by {
            assert forall|i: int, k: int| 0 <= i < k < b1.len() implies klt(#[trigger] b1[i], #[trigger] b1[k]) by {
                assert(klt(b[i + 1], b[k + 1]));
            }
        }
        lemma_same_key_set(a1, b1);
        assert forall|i: int| 0 <= i < a.len() implies ksame(#[trigger] a[i], b[i]) by {
            if i > 0 {
                assert(ksame(a1[i - 1], b1[i - 1]));
            }
        }
    }
}

/// Every message of `o`, `a` or `b` is a message of `o + a + b`.
pub proof fn lemma_concat3_contains(o: Seq<Message>, a: Seq<Message>, b: Seq<Message>)
    ensures
        forall|x: Message|
            o.contains(x) || a.contains(x) || b.contains(x) ==> #[trigger] (o + a + b).contains(x),
{
    assert forall|x: Message| o.contains(x) || a.contains(x) || b.contains(x) implies #[trigger] (o
        + a + b).contains(x) by {
        if o.contains(x) {
            let k = choose|k: int| 0 <= k < o.len() && o[k] == x;
            assert((o + a + b)[k] == x);
        } else if a.contains(x) {
            let k = choose|k: int| 0 <= k < a.len() && a[k] == x;
            assert((o + a + b)[o.len() + k] == x);
        } else {
            let k = choose|k: int| 0 <= k < b.len() && b[k] == x;
            assert((o + a + b)[o.len() + a.len() + k] == x);
        }
    }
}

/// The log after merging `a` and then `b`: its messages come from `ops`,
/// `a` or `b`; it keeps `ops`, and holds the key of every message of `a`
/// and `b`.
proof fn lemma_two_merges_log(
    ops: Seq<Message>,
    content: Seq<Text>,
    chain: Seq<BlockView>,
    a: Seq<Message>,
    b: Seq<Message>,
)
    requires
        strictly_sorted(ops),
        strictly_sorted(content),
    ensures
        ({
            let m = merged(ops, content, chain, a);
            let l = merged(m.0, m.1, m.2, b).0;
            &&& strictly_sorted(l)
            &&& forall|x: Message| #[trigger] l.contains(x) ==> ops.contains(x) || a.contains(x) || b.contains(x)
            &&& forall|x: Message| ops.contains(x) ==> #[trigger] l.contains(x)
            &&& forall|x: Message| a.contains(x) ==> #[trigger] contains_key(l, x)
            &&& forall|x: Message| b.contains(x) ==> #[trigger] contains_key(l, x)
        }),
{
    let sa = sort_by_timestamp(a);
    let sb = sort_by_timestamp(b);
    lemma_sort_by_timestamp(a);
    lemma_sort_by_timestamp(b);
    let m = merged(ops, content, chain, a);
    let l = merged(m.0, m.1, m.2, b).0;
    lemma_apply_messages(ops, content, sa);
    lemma_apply_messages(m.0, m.1, sb);
    lemma_apply_messages_from(ops, content, sa);
    lemma_apply_messages_from(m.0, m.1, sb);
    assert forall|x: Message| #[trigger] l.contains(x) implies ops.contains(x) || a.contains(x)
        || b.contains(x) by {
        if sb.contains(x) {
            assert(sb.to_multiset().contains(x));
        } else {
            assert(m.0.contains(x));
            if sa.contains(x) {
                assert(sa.to_multiset().contains(x));
            }
        }
    }
    assert forall|x: Message| a.contains(x) implies #[trigger] contains_key(l, x) by {
        assert(a.to_multiset().contains(x));
        assert(sa.contains(x));
        let k = choose|k: int| 0 <= k < sa.len() && sa[k] == x;
        assert(contains_key(m.0, sa[k]));
        lemma_key_carried(m.0, l, x);
    }
    assert forall|x: Message| b.contains(x) implies #[trigger] contains_key(l, x) by {
        assert(b.to_multiset().contains(x));
        assert(sb.contains(x));
        let k = choose|k: int| 0 <= k < sb.len() && sb[k] == x;
        assert(contains_key(l, sb[k]));
    }
}

/// Merging two batches in either order gives the same log (by view), as
/// long as messages of the old log and of the batches that share a key are
/// equal by view.
pub proof fn law_two_batches_log_converges(
    ops: Seq<Message>,
    content: Seq<Text>,
    chain: Seq<BlockView>,
    a: Seq<Message>,
    b: Seq<Message>,
)
    requires
        strictly_sorted(ops),
        strictly_sorted(content),
        keys_identify(ops + a + b),
    ensures
        ({
            let ma = merged(ops, content, chain, a);
            let mb = merged(ops, content, chain, b);
            msgs_eqv(merged(ma.0, ma.1, ma.2, b).0, merged(mb.0, mb.1, mb.2, a).0)
        }),
{
    let ma = merged(ops, content, chain, a);
    let mb = merged(ops, content, chain, b);
    let l1 = merged(ma.0, ma.1, ma.2, b).0;
    let l2 = merged(mb.0, mb.1, mb.2, a).0;
    lemma_two_merges_log(ops, content, chain, a, b);
    lemma_two_merges_log(ops, content, chain, b, a);
    lemma_concat3_contains(ops, a, b);
    assert forall|i: int| 0 <= i < l1.len() implies contains_key(l2, #[trigger] l1[i]) by {
        assert(l1.contains(l1[i]));
        if ops.contains(l1[i]) {
            assert(l2.contains(l1[i]));
            let k = choose|k: int| 0 <= k < l2.len() && l2[k] == l1[i];
            assert(ksame(l2[k], l1[i]));
        }
    }
    assert forall|j: int| 0 <= j < l2.len() implies contains_key(l1, #[trigger] l2[j]) by {
        assert(l2.contains(l2[j]));
        if ops.contains(l2[j]) {
            assert(l1.contains(l2[j]));
            let k = choose|k: int| 0 <= k < l1.len() && l1[k] == l2[j];
            assert(ksame(l1[k], l2[j]));
        }
    }
    lemma_same_key_set(l1, l2);
    assert forall|i: int| 0 <= i < l1.len() implies msg_view(#[trigger] l1[i]) == msg_view(l2[i]) by {
        assert(ksame(l1[i], l2[i]));
        assert(l1.contains(l1[i]));
        assert(l2.contains(l2[i]));
        assert((ops + a + b).contains(l1[i]));
        assert((ops + a + b).contains(l2[i]));
    }
}

/// Two fresh replicas that receive two batches in opposite orders end with
/// the same log (by view), as long as messages that share a key (the
/// initial message among them) are equal by view.
pub proof fn law_fresh_replicas_two_batches(x: CRDT, y: CRDT, a: Seq<Message>, b: Seq<Message>)
    requires
        x.is_initial(),
        y.is_initial(),
        keys_identify(x.ops_view() + a + b),
    ensures
        ({
            let xa = merged(x.ops_view(), x.content_view(), x.chain_view(), a);
            let yb = merged(y.ops_view(), y.content_view(), y.chain_view(), b);
            msgs_eqv(merged(xa.0, xa.1, xa.2, b).0, merged(yb.0, yb.1, yb.2, a).0)
        }),
{
    let xa = merged(x.ops_view(), x.content_view(), x.chain_view(), a);
    let xb = merged(x.ops_view(), x.content_view(), x.chain_view(), b);
    let yb = merged(y.ops_view(), y.content_view(), y.chain_view(), b);
    assert(strictly_sorted(x.ops_view()));
    assert(strictly_sorted(x.content_view()));
    law_two_batches_log_converges(x.ops_view(), x.content_view(), x.chain_view(), a, b);
    law_fresh_replicas_equivalent(x, y);
    let sb = sort_by_timestamp(b);
    let sa = sort_by_timestamp(a);
    lemma_apply_messages_eqv(x.ops_view(), x.content_view(), y.ops_view(), y.content_view(), sb);
    lemma_apply_messages(x.ops_view(), x.content_view(), sb);
    lemma_apply_messages_eqv(xb.0, xb.1, yb.0, yb.1, sa);
    let l1 = merged(xa.0, xa.1, xa.2, b).0;
    let l2 = merged(xb.0, xb.1, xb.2, a).0;
    let l3 = merged(yb.0, yb.1, yb.2, a).0;
    assert forall|i: int| 0 <= i < l1.len() implies msg_view(#[trigger] l1[i]) == msg_view(l3[i]) by {
        assert(msg_view(l1[i]) == msg_view(l2[i]));
        assert(msg_view(l2[i]) == msg_view(l3[i]));
    }
}

/// A peer that reports a position past the end of the chain is refused,
/// whatever the log and the hash it sends; every other position is
/// answered.
pub proof fn law_compare_past_end_refused(
    ops: Seq<Message>,
    chain: Seq<BlockView>,
    pos: int,
    h: Seq<char>,
)
    ensures
        compare_diff(ops, chain, pos, h) is None <==> pos > chain.len(),
{
}

/// One entry that is not removed prints as a header line with its
/// identifier and timestamp, then its whole content.
pub proof fn law_render_one_entry(t: Text)
    requires
        !t.removed,
    ensures
        render(seq![t]) == "\n# id: "@ + t.id@ + ", timestamp: "@ + timestamp_text(
            t.timestamp@ as i128,
        ) + "\n"@ + t.data@,
{
    let one = seq![t];
    assert(one[0] == t);
    assert(one.drop_first() =~= Seq::<Text>::empty());
    assert(render(one.drop_first()) == Seq::<char>::empty());
    let e = crate::crdt::entry_text(t);
    assert(render(one) == render(one.drop_first()) + e);
    assert(Seq::<char>::empty() + e =~= e);
}

/// The text ends with the whole content of the first entry (by key) when
/// that entry is not removed, after its header line; a removed entry adds
/// nothing.
pub proof fn law_render_ends_with_first_content(s: Seq<Text>)
    requires
        s.len() > 0,
    ensures
        !s[0].removed ==> ({
            let r = render(s);
            let tail = "\n"@ + s[0].data@;
            &&& r.len() >= tail.len()
            &&& r.skip(r.len() - tail.len()) == tail
        }),
        s[0].removed ==> render(s) == render(s.drop_first()),
{
    let r = render(s);
    if s[0].removed {
        assert(r =~= render(s.drop_first()));
    } else {
        let head = render(s.drop_first()) + "\n# id: "@ + s[0].id@ + ", timestamp: "@ + timestamp_text(
            s[0].timestamp@ as i128,
        );
        let tail = "\n"@ + s[0].data@;
        assert(r =~= head + tail);
        assert(r.skip(r.len() - tail.len()) =~= tail);
    }
}

/// A block's hash text is the lower-case hexadecimal of the SHA-1 digest of
/// all the identifier's UTF-8 bytes followed by the previous digest; it
/// decodes back to that digest, so two blocks share a hash text exactly
/// when those digests are equal.
pub proof fn law_chain_hash_covers_whole_id(
    id1: Seq<char>,
    prev1: Seq<u8>,
    id2: Seq<char>,
    prev2: Seq<u8>,
)
    ensures
        chain_hash(id1, prev1) == hex_lower(sha1(encode_utf8(id1) + prev1)),
        hex_decode_text(chain_hash(id1, prev1)) == Some(sha1(encode_utf8(id1) + prev1)),
        chain_hash(id1, prev1) == chain_hash(id2, prev2) <==> sha1(encode_utf8(id1) + prev1) == sha1(
            encode_utf8(id2) + prev2,
        ),
{
    lemma_hex_round_trip(sha1(encode_utf8(id1) + prev1));
    lemma_hex_round_trip(sha1(encode_utf8(id2) + prev2));
}

/// An update timestamped no earlier than the last change puts in exactly
/// the content given (an empty one included), records its time and its
/// client, and counts one more version; an earlier one changes nothing.
/// The identifier and the name never change.
pub proof fn law_update_applies(d: Document, c: String, a: u128, t: UtcTime)
    requires
        can_update(d, t),
    ensures
        !utc_lt(t, d.last_modified) ==> {
            let u = updated(d, c, a, t);
            &&& u.content == c
            &&& u.last_modified == t
            &&& u.last_modified_by == Some(a)
            &&& u.version == d.version + 1
        },
        utc_lt(t, d.last_modified) ==> updated(d, c, a, t) == d,
        updated(d, c, a, t).id == d.id,
        updated(d, c, a, t).name == d.name,
{
}

/// A document's summary reports its identifier, name, time of last change
/// and the full byte length of its content.
pub proof fn law_info_reports_content_bytes(d: Document)
    requires
        encode_utf8(d.content@).len() <= usize::MAX,
    ensures
        info_of(d).id == d.id,
        info_of(d).name == d.name,
        info_of(d).last_modified == d.last_modified,
        info_of(d).content_length == encode_utf8(d.content@).len(),
{
}

/// At the end of the chain a peer with the same last hash is missing
/// nothing, and one with any other hash is sent the last message.
pub proof fn law_compare_at_end(ops: Seq<Message>, chain: Seq<BlockView>, h: Seq<char>)
    requires
        chain.len() > 0,
    ensures
        chain.last().1 == h ==> compare_diff(ops, chain, chain.len() as int, h) == Some(
            Seq::<Message>::empty(),
        ),
        chain.last().1 != h ==> compare_diff(ops, chain, chain.len() as int, h) == Some(
            seq![ops.last()],
        ),
{
}

/// The last block before `pos` that carries `h` is at `j`.
proof fn lemma_last_match_at(chain: Seq<BlockView>, pos: int, h: Seq<char>, j: int)
    requires
        0 <= j < pos <= chain.len(),
        chain[j].1 == h,
        forall|k: int| j < k < pos ==> (#[trigger] chain[k]).1 != h,
    ensures
        crate::crdt::last_match_before(chain, pos, h) == Some(j),
    decreases pos,
{
    if pos - 1 != j {
        assert(chain[pos - 1].1 != h);
        lemma_last_match_at(chain, pos - 1, h, j);
    }
}

/// The last matching block before `n`, if any, is before `n`.
proof fn lemma_last_match_range(chain: Seq<BlockView>, n: int, h: Seq<char>)
    ensures
        crate::crdt::last_match_before(chain, n, h) matches Some(i) ==> 0 <= i < n,
    decreases n,
{
    if n > 0 {
        lemma_last_match_range(chain, n - 1, h);
    }
}

/// No block before `pos` carries `h`.
proof fn lemma_no_match(chain: Seq<BlockView>, pos: int, h: Seq<char>)
    requires
        pos <= chain.len(),
        forall|k: int| 0 <= k < pos ==> (#[trigger] chain[k]).1 != h,
    ensures
        crate::crdt::last_match_before(chain, pos, h) is None,
    decreases pos,
{
    if pos > 0 {
        assert(chain[pos - 1].1 != h);
        lemma_no_match(chain, pos - 1, h);
    }
}

/// Before the end of the chain, a peer is sent the log after the last
/// block before its position that carries its hash (nothing when that block
/// is past the log), or the whole log when no block before its position
/// carries it; either way it is sent a suffix of the log.
pub proof fn law_compare_before_end(
    ops: Seq<Message>,
    chain: Seq<BlockView>,
    pos: int,
    h: Seq<char>,
    j: int,
)
    requires
        pos < chain.len(),
    ensures
        0 <= j < pos && chain[j].1 == h && (forall|k: int| j < k < pos ==> (#[trigger] chain[k]).1
            != h) ==> compare_diff(ops, chain, pos, h) == Some(
            if j + 1 < ops.len() {
                ops.skip(j + 1)
            } else {
                Seq::<Message>::empty()
            },
        ),
        (forall|k: int| 0 <= k < pos ==> (#[trigger] chain[k]).1 != h) ==> compare_diff(
            ops,
            chain,
            pos,
            h,
        ) == Some(ops),
        exists|k: int| 0 <= k <= ops.len() && compare_diff(ops, chain, pos, h) == Some(ops.skip(k)),
{
    if 0 <= j < pos && chain[j].1 == h && (forall|k: int| j < k < pos ==> (#[trigger] chain[k]).1
        != h) {
        lemma_last_match_at(chain, pos, h, j);
    }
    if forall|k: int| 0 <= k < pos ==> (#[trigger] chain[k]).1 != h {
        lemma_no_match(chain, pos, h);
    }
    lemma_last_match_range(chain, pos, h);
    match crate::crdt::last_match_before(chain, pos, h) {
        Some(i) => {
            if i + 1 < ops.len() {
                assert(compare_diff(ops, chain, pos, h) == Some(ops.skip(i + 1)));
            } else {
                assert(ops.skip(ops.len() as int) =~= Seq::<Message>::empty());
                assert(compare_diff(ops, chain, pos, h) == Some(ops.skip(ops.len() as int)));
            }
        },
        None => {
            assert(ops.skip(0) =~= ops);
            assert(compare_diff(ops, chain, pos, h) == Some(ops.skip(0)));
        },
    }
}

/// The text of two runs of entries is the text of the later run followed by
/// the text of the earlier one: entries print from the last to the first.
pub proof fn law_render_reverses_order(s1: Seq<Text>, s2: Seq<Text>)
    ensures
        render(s1 + s2) == render(s2) + render(s1),
    decreases s1.len(),
{
    if s1.len() == 0 {
        assert(s1 + s2 =~= s2);
        assert(render(s2) + render(s1) =~= render(s2));
    } else {
        let t = s1 + s2;
        assert(t[0] == s1[0]);
        assert(t.drop_first() =~= s1.drop_first() + s2);
        law_render_reverses_order(s1.drop_first(), s2);
        let e = if s1[0].removed {
            Seq::<char>::empty()
        } else {
            crate::crdt::entry_text(s1[0])
        };
        assert(render(t) == render(t.drop_first()) + e);
        assert(render(s1) == render(s1.drop_first()) + e);
        assert(render(t) =~= render(s2) + render(s1));
    }
}

/// The hexadecimal text of a byte string has two characters per byte, each
/// a digit or a lower-case letter from `a` to `f`, and decodes back to the
/// bytes.
pub proof fn law_hex_text_is_lower_case(b: Seq<u8>)
    ensures
        hex_lower(b).len() == 2 * b.len(),
        forall|i: int|
            0 <= i < hex_lower(b).len() ==> ('0' <= #[trigger] hex_lower(b)[i] <= '9' || 'a'
                <= hex_lower(b)[i] <= 'f'),
        hex_decode_text(hex_lower(b)) == Some(b),
{
    lemma_hex_round_trip(b);
}

} // verus!
