//! The CRDT: an ordered log of messages, the text entries they build, and a
//! hash chain over the log.

use vstd::prelude::*;
use vstd::utf8::encode_utf8;

use crate::content::{
    apply_message, apply_messages, lemma_insert_by_key_elements, mark_removed_exec,
};
use crate::digest::sha1_input_fits;
use crate::hexcode::hex_decode_text;
use crate::sorted::{insert_by_key_exec, strictly_sorted};
use crate::timesort::{lemma_sort_by_timestamp, sort_by_timestamp, sort_messages_by_timestamp};
use crate::timestamp::timestamp_text;
use crate::{chain_hash, HashBlock, Message, Operation, Text, Timestamp};

verus! {

broadcast use vstd::seq_lib::group_to_multiset_ensures;

/// A hash block seen as (identifier, hash text).
pub type BlockView = (Seq<char>, Seq<char>);

/// The views of a sequence of hash blocks.
pub open spec fn block_views(s: Seq<HashBlock>) -> Seq<BlockView> {
    Seq::new(s.len(), |i: int| s[i]@)
}

/// Hash text that decodes to a twenty-byte digest.
pub open spec fn valid_block_hash(h: Seq<char>) -> bool {
    match hex_decode_text(h) {
        Some(b) => b.len() == 20,
        None => false,
    }
}

/// An identifier short enough to be hashed together with a digest.
pub open spec fn id_fits(id: Seq<char>) -> bool {
    sha1_input_fits(encode_utf8(id).len() + 20)
}

/// The identifiers of the log after its first message.
pub open spec fn ids_after_first(ops: Seq<Message>) -> Seq<Seq<char>> {
    Seq::new(
        if ops.len() > 0 {
            (ops.len() - 1) as nat
        } else {
            0
        },
        |i: int| ops[i + 1].id@,
    )
}

/// `chain` followed by one block per identifier of `ids`, each hashing its
/// identifier with the digest of the block before it.
pub open spec fn extend_chain(chain: Seq<BlockView>, ids: Seq<Seq<char>>) -> Seq<BlockView>
    decreases ids.len(),
{
    if ids.len() == 0 {
        chain
    } else {
        let c = extend_chain(chain, ids.drop_last());
        c.push((ids.last(), chain_hash(ids.last(), hex_decode_text(c.last().1).unwrap())))
    }
}

/// The state after merging `incoming`: the messages are sorted by timestamp
/// (stably), applied one by one, and then the chain gets one new block for
/// every message of the resulting log after the first.
pub open spec fn merged(
    ops: Seq<Message>,
    content: Seq<Text>,
    chain: Seq<BlockView>,
    incoming: Seq<Message>,
) -> (Seq<Message>, Seq<Text>, Seq<BlockView>) {
    let applied = apply_messages(ops, content, sort_by_timestamp(incoming));
    (applied.0, applied.1, extend_chain(chain, ids_after_first(applied.0)))
}

/// One text entry as printed: a header line with its identifier and
/// timestamp, then its content.
pub open spec fn entry_text(t: Text) -> Seq<char> {
    "\n# id: "@ + t.id@ + ", timestamp: "@ + timestamp_text(t.timestamp@ as i128) + "\n"@
        + t.data@
}

/// The entries that are not removed, printed from the last to the first.
pub open spec fn render(s: Seq<Text>) -> Seq<char>
    decreases s.len(),
{
    if s.len() == 0 {
        Seq::empty()
    } else {
        render(s.drop_first()) + if s[0].removed {
            Seq::<char>::empty()
        } else {
            entry_text(s[0])
        }
    }
}

/// The last position before `n` whose block has hash text `h`.
pub open spec fn last_match_before(chain: Seq<BlockView>, n: int, h: Seq<char>) -> Option<int>
    decreases n,
{
    if n <= 0 {
        None
    } else if chain[n - 1].1 == h {
        Some(n - 1)
    } else {
        last_match_before(chain, n - 1, h)
    }
}

/// The messages of `ops` from position `k` on (none when `k` is past the end).
pub open spec fn suffix_from(ops: Seq<Message>, k: int) -> Seq<Message> {
    if k >= ops.len() {
        Seq::empty()
    } else {
        ops.skip(k)
    }
}

/// What a peer at chain position `pos` with hash text `h` is missing:
/// nothing past the end of the chain (an error); at the end, the last
/// message unless the hashes agree; before it, the messages after the last
/// block before `pos` that carries `h`, or the whole log if none does.
pub open spec fn compare_diff(ops: Seq<Message>, chain: Seq<BlockView>, pos: int, h: Seq<char>) -> Option<Seq<Message>> {
    if pos > chain.len() {
        None
    } else if pos == chain.len() {
        Some(
            if chain.last().1 == h {
                Seq::empty()
            } else {
                seq![ops.last()]
            },
        )
    } else {
        Some(
            match last_match_before(chain, pos, h) {
                Some(j) => suffix_from(ops, j + 1),
                None => ops,
            },
        )
    }
}

/// What a peer sends to learn which messages it is missing.
#[derive(Debug, Clone)]
pub struct CompareMessage {
    pub hash_block: HashBlock,
    pub timestamp: Timestamp,
    pub message_position: usize,
}

/// The messages a peer is missing.
#[derive(Debug, Clone)]
pub struct Compare {
    pub diff: Vec<Message>,
}

/// Why a comparison failed.
#[derive(Debug, Clone, Copy, PartialEq, Eq, Structural)]
pub enum CrdtError {
    /// The peer's position lies past the end of this chain.
    IndexOutOfBounds,
}

impl CrdtError {
    /// The error's description.
    pub fn message(&self) -> (s: &'static str)
        ensures
            s@ == "index out of bounds"@,
    {
        "index out of bounds"
    }
}

/// RGA-inspired CRDT: messages ordered by (timestamp, id), the text entries
/// built from them, and a hash chain over the log. A replica has one owner:
/// tasks that share a replica hold it behind a lock, so every holder sees
/// every merge.
#[derive(Debug)]
pub struct CRDT {
    ops: Vec<Message>,
    content: Vec<Text>,
    hash_chain: Vec<HashBlock>,
}

impl CRDT {
    /// The log, in key order.
    pub closed spec fn ops_view(&self) -> Seq<Message> {
        self.ops@
    }

    /// The text entries, in key order.
    pub closed spec fn content_view(&self) -> Seq<Text> {
        self.content@
    }

    /// The hash chain.
    pub closed spec fn blocks(&self) -> Seq<HashBlock> {
        self.hash_chain@
    }

    /// The hash chain as (identifier, hash text) pairs.
    pub open spec fn chain_view(&self) -> Seq<BlockView> {
        block_views(self.blocks())
    }

    /// Only the genesis message, no entries, only the genesis block.
    pub open spec fn is_initial(&self) -> bool {
        &&& self.ops_view().len() == 1
        &&& self.ops_view()[0].id@ == "0"@
        &&& self.ops_view()[0].operation matches Operation::Add(d) && d@ == "0"@
        &&& self.ops_view()[0].timestamp@ == 0
        &&& self.content_view().len() == 0
        &&& self.chain_view() == seq![("0"@, "0000000000000000000000000000000000000000"@)]
    }

    /// The log and the entries are sorted by key, the log is never empty,
    /// its identifiers can be hashed, and the chain is non-empty with every
    /// hash text decoding to a digest.
    pub open spec fn wf(&self) -> bool {
        &&& strictly_sorted(self.ops_view())
        &&& self.ops_view().len() > 0
        &&& forall|i: int|
            0 <= i < self.ops_view().len() ==> id_fits(#[trigger] self.ops_view()[i].id@)
        &&& strictly_sorted(self.content_view())
        &&& self.blocks().len() > 0
        &&& forall|i: int|
            0 <= i < self.blocks().len() ==> valid_block_hash(#[trigger] self.blocks()[i].hash@)
    }
}

impl CRDT {
    /// A CRDT holding only the genesis message (id `"0"`, adding `"0"`, at
    /// the Unix epoch), no text entries, and the genesis block (id `"0"`,
    /// forty zeros).
    pub fn new() -> (c: Self)
        ensures
            c.wf(),
            c.is_initial(),
    {
        let zeros = String::from_str("0000000000000000000000000000000000000000");
        let genesis_block = HashBlock::new(String::from_str("0"), zeros);
        let genesis = Message {
            id: String::from_str("0"),
            operation: Operation::Add(String::from_str("0")),
            timestamp: Timestamp::unix_epoch(),
        };
        proof {
            reveal_strlit("0");
            reveal_strlit("0000000000000000000000000000000000000000");
            let z = genesis_block.hash@;
            assert(vstd::utf8::is_ascii_chars(z));
            vstd::utf8::is_ascii_chars_encode_utf8(z);
            let e = encode_utf8(z);
            assert forall|i: int| 0 <= i < e.len() implies (#[trigger] crate::hexcode::hex_value(
                e[i],
            )) is Some by {
                assert(e[i] == z[i] as u8);
            }
            assert(valid_block_hash(z));
            vstd::utf8::is_ascii_chars_encode_utf8(genesis.id@);
        }
        let mut hash_chain: Vec<HashBlock> = Vec::new();
        hash_chain.push(genesis_block);
        let mut ops: Vec<Message> = Vec::new();
        ops.push(genesis);
        let c = CRDT { ops, content: Vec::new(), hash_chain };
        assert(c.chain_view() =~= seq![("0"@, "0000000000000000000000000000000000000000"@)]);
        c
    }

    /// Applies one message to the log and the text entries: see
    /// `apply_message`.
    fn update(ops: &mut Vec<Message>, content: &mut Vec<Text>, message: Message)
        requires
            strictly_sorted(old(ops)@),
            strictly_sorted(old(content)@),
        ensures
            (final(ops)@, final(content)@) == apply_message(old(ops)@, old(content)@, message),
            strictly_sorted(final(ops)@),
            strictly_sorted(final(content)@),
            final(ops)@.len() >= old(ops)@.len(),
            forall|i: int|
                0 <= i < final(ops)@.len() ==> #[trigger] final(ops)@[i] == message || old(
                    ops,
                )@.contains(final(ops)@[i]),
    {
        proof {
            lemma_insert_by_key_elements(ops@, message);
        }
        match &message.operation {
            Operation::Add(_) => {
                let t = Text::from_message(&message);
                insert_by_key_exec(content, t);
            },
            Operation::Remove(id) => {
                mark_removed_exec(content, id);
            },
        }
        insert_by_key_exec(ops, message);
    }

    /// Merges `ops` into the CRDT: see `merged`.
    pub fn merge(&mut self, ops: Vec<Message>)
        requires
            old(self).wf(),
            forall|i: int| 0 <= i < ops@.len() ==> id_fits(#[trigger] ops@[i].id@),
        ensures
            final(self).wf(),
            (final(self).ops_view(), final(self).content_view(), final(self).chain_view())
                == merged(
                old(self).ops_view(),
                old(self).content_view(),
                old(self).chain_view(),
                ops@,
            ),
    {
        let ghost incoming = ops@;
        let ghost s0 = sort_by_timestamp(incoming);
        proof {
            lemma_sort_by_timestamp(incoming);
            assert forall|i: int| 0 <= i < s0.len() implies id_fits(#[trigger] s0[i].id@) by {
                assert(s0.to_multiset().contains(s0[i]));
                assert(incoming.to_multiset().contains(s0[i]));
                let j = choose|j: int| 0 <= j < incoming.len() && incoming[j] == s0[i];
                assert(id_fits(incoming[j].id@));
            }
        }
        let mut pending = sort_messages_by_timestamp(ops);
        let ghost ops0 = self.ops@;
        let ghost content0 = self.content@;
        let ghost mut k: int = 0;
        assert(s0.take(0) =~= Seq::<Message>::empty());
        assert(s0.skip(0) =~= s0);
        while pending.len() > 0
            invariant
                0 <= k <= s0.len(),
                pending@ == s0.skip(k),
                (self.ops@, self.content@) == apply_messages(ops0, content0, s0.take(k)),
                strictly_sorted(self.ops@),
                self.ops@.len() > 0,
                forall|i: int| 0 <= i < self.ops@.len() ==> id_fits(#[trigger] self.ops@[i].id@),
                strictly_sorted(self.content@),
                forall|i: int| 0 <= i < s0.len() ==> id_fits(#[trigger] s0[i].id@),
                self.hash_chain@ == old(self).hash_chain@,
            decreases pending@.len(),
        {
            let m = pending.remove(0);
            proof {
                assert(s0.take(k + 1).drop_last() =~= s0.take(k));
                assert(s0.take(k + 1).last() == m);
                assert(pending@ =~= s0.skip(k + 1));
            }
            let ghost before = self.ops@;
            Self::update(&mut self.ops, &mut self.content, m);
            proof {
                assert forall|i: int| 0 <= i < self.ops@.len() implies id_fits(
                    #[trigger] self.ops@[i].id@,
                ) by {
                    if self.ops@[i] != m {
                        let j = choose|j: int| 0 <= j < before.len() && before[j] == self.ops@[i];
                        assert(id_fits(before[j].id@));
                    }
                }
                k = k + 1;
            }
        }
        assert(s0.take(k) =~= s0);
        let n = self.ops.len();
        let ghost ops1 = self.ops@;
        let ghost content1 = self.content@;
        let ghost ids = ids_after_first(self.ops@);
        let ghost chain0 = block_views(self.hash_chain@);
        let mut i: usize = 1;
        assert(ids.take(0) =~= Seq::<Seq<char>>::empty());
        while i < n
            invariant
                1 <= i <= n,
                n == self.ops@.len(),
                self.ops@ == ops1,
                self.content@ == content1,
                strictly_sorted(self.ops@),
                strictly_sorted(self.content@),
                ids == ids_after_first(self.ops@),
                forall|j: int| 0 <= j < self.ops@.len() ==> id_fits(#[trigger] self.ops@[j].id@),
                block_views(self.hash_chain@) == extend_chain(chain0, ids.take(i - 1)),
                self.hash_chain@.len() > 0,
                forall|j: int|
                    0 <= j < self.hash_chain@.len() ==> valid_block_hash(
                        #[trigger] self.hash_chain@[j].hash@,
                    ),
            decreases n - i,
        {
            let last = self.hash_chain.len() - 1;
            assert(valid_block_hash(self.hash_chain@[last as int].hash@));
            let prev = self.hash_chain[last].hash();
            assert(id_fits(self.ops@[i as int].id@));
            let block = HashBlock::compute_from(self.ops[i].id.clone(), prev.as_slice());
            let ghost old_chain = self.hash_chain@;
            self.hash_chain.push(block);
            proof {
                let c = extend_chain(chain0, ids.take(i - 1));
                assert(ids.take(i as int).drop_last() =~= ids.take(i - 1));
                assert(ids.take(i as int).last() == ids[i - 1]);
                assert(c.last() == old_chain[last as int]@);
                assert(block_views(self.hash_chain@) =~= block_views(old_chain).push(block@));
            }
            i = i + 1;
        }
        assert(ids.take(n - 1) =~= ids);
    }
}

/// Copies of the messages of `v`.
pub fn copy_messages(v: &Vec<Message>) -> (r: Vec<Message>)
    ensures
        r@ == v@,
{
    let r = copy_messages_from(v, 0);
    assert(v@.len() == 0 ==> v@ =~= Seq::<Message>::empty());
    assert(v@.skip(0) =~= v@);
    r
}

/// Copies of the messages of `v` from position `start` on.
fn copy_messages_from(v: &Vec<Message>, start: usize) -> (r: Vec<Message>)
    ensures
        r@ == suffix_from(v@, start as int),
{
    let mut r: Vec<Message> = Vec::new();
    let n = v.len();
    if start >= n {
        return r;
    }
    let mut i = start;
    while i < n
        invariant
            start <= i <= n,
            n == v@.len(),
            r@ == v@.subrange(start as int, i as int),
        decreases n - i,
    {
        r.push(v[i].copy());
        assert(r@ =~= v@.subrange(start as int, i + 1));
        i = i + 1;
    }
    r
}

impl CRDT {
    /// The log, in key order.
    pub fn list(&self) -> (r: Vec<Message>)
        ensures
            r@ == self.ops_view(),
    {
        copy_messages(&self.ops)
    }

    /// The text: every entry that is not removed, from the last (by key) to
    /// the first, each as a header line `# id: <id>, timestamp: <RFC 3339>`
    /// after a line break, then a line break and its content.
    pub fn text(&self) -> (t: String)
        ensures
            t@ == render(self.content_view()),
    {
        let mut text = String::new();
        let mut i = self.content.len();
        assert(self.content@.skip(i as int) =~= Seq::<Text>::empty());
        while i > 0
            invariant
                i <= self.content@.len(),
                text@ == render(self.content@.skip(i as int)),
            decreases i,
        {
            i = i - 1;
            let ghost rest = self.content@.skip(i as int);
            assert(rest.drop_first() =~= self.content@.skip(i + 1));
            assert(rest[0] == self.content@[i as int]);
            let entry = &self.content[i];
            if !entry.removed {
                let stamp = entry.timestamp.to_rfc3339();
                text.append("\n# id: ");
                text.append(entry.id.as_str());
                text.append(", timestamp: ");
                text.append(stamp.as_str());
                text.append("\n");
                text.append(entry.data.as_str());
                assert(text@ =~= render(self.content@.skip(i + 1)) + entry_text(*entry));
            } else {
                assert(text@ =~= render(self.content@.skip(i + 1)) + Seq::<char>::empty());
            }
        }
        assert(self.content@.skip(0) =~= self.content@);
        text
    }

    /// The hash chain.
    pub fn hash_chain(&self) -> (r: Vec<HashBlock>)
        ensures
            r@ == self.blocks(),
    {
        let mut r: Vec<HashBlock> = Vec::new();
        let n = self.hash_chain.len();
        let mut i: usize = 0;
        while i < n
            invariant
                i <= n,
                n == self.hash_chain@.len(),
                r@ == self.hash_chain@.take(i as int),
            decreases n - i,
        {
            r.push(self.hash_chain[i].copy());
            assert(r@ =~= self.hash_chain@.take(i + 1));
            i = i + 1;
        }
        assert(self.hash_chain@.take(n as int) =~= self.hash_chain@);
        r
    }

    /// The last position before `n` whose block has hash text `h`.
    fn find_last_match(&self, n: usize, h: &String) -> (r: Option<usize>)
        requires
            n <= self.hash_chain@.len(),
        ensures
            match r {
                Some(j) => j < n && last_match_before(self.chain_view(), n as int, h@) == Some(
                    j as int,
                ),
                None => last_match_before(self.chain_view(), n as int, h@) is None,
            },
    {
        let mut k = n;
        while k > 0
            invariant
                k <= n <= self.hash_chain@.len(),
                last_match_before(self.chain_view(), n as int, h@) == last_match_before(
                    self.chain_view(),
                    k as int,
                    h@,
                ),
            decreases k,
        {
            if self.hash_chain[k - 1].hash == *h {
                return Some(k - 1);
            }
            k = k - 1;
        }
        None
    }

    /// The messages a peer at `other.message_position` with hash text
    /// `other.hash_block.hash` is missing: see `compare_diff`.
    pub fn compare(&self, other: CompareMessage) -> (r: Result<Compare, CrdtError>)
        requires
            self.wf(),
        ensures
            r is Err <==> other.message_position as int > self.chain_view().len(),
            match r {
                Ok(c) => compare_diff(
                    self.ops_view(),
                    self.chain_view(),
                    other.message_position as int,
                    other.hash_block.hash@,
                ) == Some(c.diff@),
                Err(e) => e == CrdtError::IndexOutOfBounds && compare_diff(
                    self.ops_view(),
                    self.chain_view(),
                    other.message_position as int,
                    other.hash_block.hash@,
                ) is None,
            },
    {
        let hash_chain_len = self.hash_chain.len();
        let pos = other.message_position;
        if pos == hash_chain_len {
            if self.hash_chain[hash_chain_len - 1].hash != other.hash_block.hash {
                let last = self.ops[self.ops.len() - 1].copy();
                let mut diff: Vec<Message> = Vec::new();
                diff.push(last);
                assert(diff@ =~= seq![self.ops@.last()]);
                return Ok(Compare { diff });
            }
            let diff: Vec<Message> = Vec::new();
            assert(diff@ =~= Seq::<Message>::empty());
            Ok(Compare { diff })
        } else if pos < hash_chain_len {
            let diff = match self.find_last_match(pos, &other.hash_block.hash) {
                Some(j) => copy_messages_from(&self.ops, j + 1),
                None => {
                    let all = copy_messages_from(&self.ops, 0);
                    assert(self.ops@.skip(0) =~= self.ops@);
                    all
                },
            };
            Ok(Compare { diff })
        } else {
            Err(CrdtError::IndexOutOfBounds)
        }
    }
}

} // verus!
