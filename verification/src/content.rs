//! Applying one message to the ordered log and the ordered text entries.

use vstd::prelude::*;

use crate::sorted::{
    contains_key, insert_by_key, is_insert_pos, klt, ksame, lemma_klt,
    strictly_sorted,
};
use crate::{Message, Operation, Text};

verus! {

/// `i` is the first position of `s` whose entry has identifier `id`.
pub open spec fn is_first_with_id(s: Seq<Text>, id: Seq<char>, i: int) -> bool {
    &&& 0 <= i < s.len()
    &&& s[i].id@ == id
    &&& forall|j: int| 0 <= j < i ==> (#[trigger] s[j]).id@ != id
}

/// `s` with the first entry whose identifier is `id` marked as removed;
/// unchanged when no entry has that identifier.
pub open spec fn mark_removed(s: Seq<Text>, id: Seq<char>) -> Seq<Text> {
    if exists|i: int| is_first_with_id(s, id, i) {
        let i = choose|i: int| is_first_with_id(s, id, i);
        s.update(
            i,
            Text { id: s[i].id, data: s[i].data, timestamp: s[i].timestamp, removed: true },
        )
    } else {
        s
    }
}

/// The log and the text entries after one message: an `Add` puts a new
/// entry in place unless one with its key exists, a `Remove` marks the
/// first entry with the named identifier, and the message itself joins
/// the log unless one with its key is already there.
pub open spec fn apply_message(ops: Seq<Message>, content: Seq<Text>, m: Message) -> (
    Seq<Message>,
    Seq<Text>,
) {
    let c = match m.operation {
        Operation::Add(_) => insert_by_key(content, Text::spec_from_message(m)),
        Operation::Remove(id) => mark_removed(content, id@),
    };
    (insert_by_key(ops, m), c)
}

/// The messages of `ms` applied in order.
pub open spec fn apply_messages(ops: Seq<Message>, content: Seq<Text>, ms: Seq<Message>) -> (
    Seq<Message>,
    Seq<Text>,
)
    decreases ms.len(),
{
    if ms.len() == 0 {
        (ops, content)
    } else {
        let prev = apply_messages(ops, content, ms.drop_last());
        apply_message(prev.0, prev.1, ms.last())
    }
}

pub proof fn lemma_first_with_id_unique(s: Seq<Text>, id: Seq<char>, i: int, j: int)
    requires
        is_first_with_id(s, id, i),
        is_first_with_id(s, id, j),
    ensures
        i == j,
{
    if i < j {
        assert(s[i].id@ != id);
    } else if j < i {
        assert(s[j].id@ != id);
    }
}

/// Replacing an element by one with the same key keeps the order.
pub proof fn lemma_update_same_key_sorted<T: crate::sorted::Keyed>(s: Seq<T>, i: int, x: T)
    requires
        strictly_sorted(s),
        0 <= i < s.len(),
        ksame(s[i], x),
    ensures
        strictly_sorted(s.update(i, x)),
{
    let r = s.update(i, x);
    assert forall|a: int, b: int| 0 <= a < b < r.len() implies klt(#[trigger] r[a], #[trigger] r[b]) by {
        assert(klt(s[a], s[b]));
        if a == i {
            lemma_klt(s[i], x, s[b]);
        }
        if b == i {
            lemma_klt(s[i], x, s[a]);
        }
    }
}

/// Every element of `insert_by_key(s, x)` is `x` or an element of `s`.
pub proof fn lemma_insert_by_key_elements<T: crate::sorted::Keyed>(s: Seq<T>, x: T)
    requires
        strictly_sorted(s),
    ensures
        forall|i: int|
            0 <= i < insert_by_key(s, x).len() ==> #[trigger] insert_by_key(s, x)[i] == x
                || s.contains(insert_by_key(s, x)[i]),
        insert_by_key(s, x).len() >= s.len(),
{
    if !contains_key(s, x) {
        crate::sorted::lemma_insert_pos_exists(s, x);
        let p = choose|p: int| is_insert_pos(s, x, p);
        let r = s.insert(p, x);
        assert forall|i: int| 0 <= i < r.len() implies #[trigger] r[i] == x || s.contains(r[i]) by {
            if i < p {
                assert(r[i] == s[i]);
            } else if i > p {
                assert(r[i] == s[i - 1]);
            }
        }
    }
}

/// Marks the first entry of `v` with identifier `id` as removed.
pub fn mark_removed_exec(v: &mut Vec<Text>, id: &String)
    requires
        strictly_sorted(old(v)@),
    ensures
        final(v)@ == mark_removed(old(v)@, id@),
        strictly_sorted(final(v)@),
{
    let n = v.len();
    let mut i: usize = 0;
    while i < n
        invariant
            n == v@.len(),
            v@ == old(v)@,
            i <= n,
            forall|j: int| 0 <= j < i ==> (#[trigger] v@[j]).id@ != id@,
        ensures
            i <= n,
            forall|j: int| 0 <= j < i ==> (#[trigger] v@[j]).id@ != id@,
            i < n ==> v@[i as int].id@ == id@,
        decreases n - i,
    {
        if v[i].id == *id {
            break;
        }
        i = i + 1;
    }
    if i < n {
        proof {
            assert(is_first_with_id(v@, id@, i as int));
            let c = choose|c: int| is_first_with_id(v@, id@, c);
            lemma_first_with_id_unique(v@, id@, c, i as int);
        }
        let t = Text {
            id: v[i].id.clone(),
            data: v[i].data.clone(),
            timestamp: v[i].timestamp,
            removed: true,
        };
        proof {
            lemma_update_same_key_sorted(v@, i as int, t);
        }
        v.set(i, t);
    } else {
        assert(!exists|c: int| is_first_with_id(v@, id@, c));
    }
}

} // verus!
