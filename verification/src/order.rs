//! The order in which the CRDT keeps its messages and text entries: by
//! timestamp, then by identifier compared byte by byte.

use vstd::prelude::*;
use vstd::utf8::encode_utf8;

verus! {

/// Lexicographic order on byte strings, a proper prefix first.
pub open spec fn bytes_lt(a: Seq<u8>, b: Seq<u8>) -> bool
    decreases a.len(),
{
    if a.len() == 0 {
        b.len() > 0
    } else if b.len() == 0 {
        false
    } else if a[0] != b[0] {
        a[0] < b[0]
    } else {
        bytes_lt(a.drop_first(), b.drop_first())
    }
}

/// Strict order on (timestamp, identifier) keys: earlier timestamp first,
/// then the identifier's UTF-8 bytes in lexicographic order.
pub open spec fn key_lt(t1: int, id1: Seq<char>, t2: int, id2: Seq<char>) -> bool {
    t1 < t2 || (t1 == t2 && bytes_lt(encode_utf8(id1), encode_utf8(id2)))
}

/// The outcome of comparing two keys.
#[derive(Debug, Clone, Copy, PartialEq, Eq, Structural)]
pub enum KeyOrder {
    Less,
    Equal,
    Greater,
}

pub proof fn lemma_bytes_lt_irreflexive(a: Seq<u8>)
    ensures
        !bytes_lt(a, a),
    decreases a.len(),
{
    if a.len() > 0 {
        lemma_bytes_lt_irreflexive(a.drop_first());
    }
}

pub proof fn lemma_bytes_lt_asymmetric(a: Seq<u8>, b: Seq<u8>)
    ensures
        bytes_lt(a, b) ==> !bytes_lt(b, a),
    decreases a.len(),
{
    if a.len() > 0 && b.len() > 0 && a[0] == b[0] {
        lemma_bytes_lt_asymmetric(a.drop_first(), b.drop_first());
    }
}

pub proof fn lemma_bytes_lt_transitive(a: Seq<u8>, b: Seq<u8>, c: Seq<u8>)
    requires
        bytes_lt(a, b),
        bytes_lt(b, c),
    ensures
        bytes_lt(a, c),
    decreases a.len(),
{
    if a.len() > 0 && b.len() > 0 && c.len() > 0 && a[0] == b[0] && b[0] == c[0] {
        lemma_bytes_lt_transitive(a.drop_first(), b.drop_first(), c.drop_first());
    }
}

pub proof fn lemma_bytes_lt_total(a: Seq<u8>, b: Seq<u8>)
    ensures
        a == b || bytes_lt(a, b) || bytes_lt(b, a),
    decreases a.len(),
{
    if a.len() > 0 && b.len() > 0 && a[0] == b[0] {
        lemma_bytes_lt_total(a.drop_first(), b.drop_first());
        if a.drop_first() == b.drop_first() {
            assert(a =~= seq![a[0]] + a.drop_first());
            assert(b =~= seq![b[0]] + b.drop_first());
        }
    } else if a.len() == 0 && b.len() == 0 {
        assert(a =~= b);
    }
}

/// Distinct strings have distinct UTF-8 encodings.
pub proof fn lemma_encode_utf8_injective(x: Seq<char>, y: Seq<char>)
    requires
        encode_utf8(x) == encode_utf8(y),
    ensures
        x == y,
{
    vstd::utf8::encode_utf8_decode_utf8(x);
    vstd::utf8::encode_utf8_decode_utf8(y);
}

/// `key_lt` is a strict total order on keys.
pub proof fn lemma_key_order(t1: int, id1: Seq<char>, t2: int, id2: Seq<char>, t3: int, id3: Seq<char>)
    ensures
        !key_lt(t1, id1, t1, id1),
        key_lt(t1, id1, t2, id2) ==> !key_lt(t2, id2, t1, id1),
        key_lt(t1, id1, t2, id2) && key_lt(t2, id2, t3, id3) ==> key_lt(t1, id1, t3, id3),
        (t1 == t2 && id1 == id2) || key_lt(t1, id1, t2, id2) || key_lt(t2, id2, t1, id1),
{
    let (e1, e2, e3) = (encode_utf8(id1), encode_utf8(id2), encode_utf8(id3));
    lemma_bytes_lt_irreflexive(e1);
    lemma_bytes_lt_asymmetric(e1, e2);
    if bytes_lt(e1, e2) && bytes_lt(e2, e3) {
        lemma_bytes_lt_transitive(e1, e2, e3);
    }
    lemma_bytes_lt_total(e1, e2);
    if e1 == e2 {
        lemma_encode_utf8_injective(id1, id2);
    }
}

/// Compares two byte strings lexicographically.
pub fn compare_bytes(a: &[u8], b: &[u8]) -> (r: KeyOrder)
    ensures
        (r == KeyOrder::Less) <==> bytes_lt(a@, b@),
        (r == KeyOrder::Equal) <==> a@ == b@,
        (r == KeyOrder::Greater) <==> bytes_lt(b@, a@),
{
    proof {
        lemma_bytes_lt_irreflexive(a@);
        lemma_bytes_lt_asymmetric(a@, b@);
        lemma_bytes_lt_total(a@, b@);
    }
    let mut i: usize = 0;
    assert(a@.skip(0) =~= a@);
    assert(b@.skip(0) =~= b@);
    while i < a.len() && i < b.len()
        invariant
            i <= a@.len(),
            i <= b@.len(),
            forall|j: int| 0 <= j < i ==> a@[j] == b@[j],
            bytes_lt(a@, b@) == bytes_lt(a@.skip(i as int), b@.skip(i as int)),
            bytes_lt(b@, a@) == bytes_lt(b@.skip(i as int), a@.skip(i as int)),
        decreases a@.len() - i,
    {
        if a[i] < b[i] {
            return KeyOrder::Less;
        } else if a[i] > b[i] {
            return KeyOrder::Greater;
        }
        assert(a@.skip(i as int).drop_first() =~= a@.skip(i + 1));
        assert(b@.skip(i as int).drop_first() =~= b@.skip(i + 1));
        i = i + 1;
    }
    if a.len() == b.len() {
        assert(a@ =~= b@);
        KeyOrder::Equal
    } else if a.len() < b.len() {
        KeyOrder::Less
    } else {
        KeyOrder::Greater
    }
}

/// Compares the keys (t1, id1) and (t2, id2).
pub fn compare_keys(t1: i128, id1: &str, t2: i128, id2: &str) -> (r: KeyOrder)
    ensures
        (r == KeyOrder::Less) <==> key_lt(t1 as int, id1@, t2 as int, id2@),
        (r == KeyOrder::Equal) <==> (t1 == t2 && id1@ == id2@),
        (r == KeyOrder::Greater) <==> key_lt(t2 as int, id2@, t1 as int, id1@),
{
    proof {
        lemma_key_order(t1 as int, id1@, t2 as int, id2@, t1 as int, id1@);
        lemma_key_order(t2 as int, id2@, t1 as int, id1@, t2 as int, id2@);
    }
    if t1 < t2 {
        KeyOrder::Less
    } else if t1 > t2 {
        KeyOrder::Greater
    } else {
        let r = compare_bytes(id1.as_bytes(), id2.as_bytes());
        proof {
            if r == KeyOrder::Equal {
                lemma_encode_utf8_injective(id1@, id2@);
            }
        }
        r
    }
}

} // verus!
