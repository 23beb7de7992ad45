//! Sequences kept strictly increasing by (timestamp, identifier) key, with
//! insertion that keeps the first element of each key.

use vstd::prelude::*;

use crate::order::{key_lt, lemma_key_order, KeyOrder};
use crate::{Message, Text};

verus! {

/// Values ordered by a (timestamp, identifier) key.
pub trait Keyed: Sized {
    spec fn key_time(&self) -> int;

    spec fn key_ident(&self) -> Seq<char>;

    /// Compares the keys of `self` and `other`.
    fn compare_key(&self, other: &Self) -> (r: KeyOrder)
        ensures
            (r == KeyOrder::Less) <==> key_lt(
                self.key_time(),
                self.key_ident(),
                other.key_time(),
                other.key_ident(),
            ),
            (r == KeyOrder::Equal) <==> (self.key_time() == other.key_time() && self.key_ident()
                == other.key_ident()),
            (r == KeyOrder::Greater) <==> key_lt(
                other.key_time(),
                other.key_ident(),
                self.key_time(),
                self.key_ident(),
            ),
    ;
}

/// `a` orders strictly before `b`.
pub open spec fn klt<T: Keyed>(a: T, b: T) -> bool {
    key_lt(a.key_time(), a.key_ident(), b.key_time(), b.key_ident())
}

/// `a` and `b` have the same key.
pub open spec fn ksame<T: Keyed>(a: T, b: T) -> bool {
    a.key_time() == b.key_time() && a.key_ident() == b.key_ident()
}

/// Strictly increasing by key, so no key occurs twice.
pub open spec fn strictly_sorted<T: Keyed>(s: Seq<T>) -> bool {
    forall|i: int, j: int| 0 <= i < j < s.len() ==> klt(#[trigger] s[i], #[trigger] s[j])
}

/// Some element of `s` has the key of `x`.
pub open spec fn contains_key<T: Keyed>(s: Seq<T>, x: T) -> bool {
    exists|i: int| 0 <= i < s.len() && ksame(#[trigger] s[i], x)
}

/// Position `p` splits `s` into the elements before `x` and the rest.
pub open spec fn is_insert_pos<T: Keyed>(s: Seq<T>, x: T, p: int) -> bool {
    &&& 0 <= p <= s.len()
    &&& forall|j: int| 0 <= j < p ==> klt(#[trigger] s[j], x)
    &&& forall|j: int| p <= j < s.len() ==> !klt(#[trigger] s[j], x)
}

/// `s` with `x` put in its place by key, unless an element with the same key
/// is already there, in which case `s` is unchanged.
pub open spec fn insert_by_key<T: Keyed>(s: Seq<T>, x: T) -> Seq<T> {
    if contains_key(s, x) {
        s
    } else {
        s.insert(choose|p: int| is_insert_pos(s, x, p), x)
    }
}

pub proof fn lemma_klt<T: Keyed>(a: T, b: T, c: T)
    ensures
        !klt(a, a),
        klt(a, b) ==> !klt(b, a),
        klt(a, b) && klt(b, c) ==> klt(a, c),
        ksame(a, b) || klt(a, b) || klt(b, a),
        ksame(a, b) ==> !klt(a, b) && !klt(b, a),
        ksame(a, b) ==> (klt(a, c) == klt(b, c) && klt(c, a) == klt(c, b)),
{
    lemma_key_order(a.key_time(), a.key_ident(), b.key_time(), b.key_ident(), c.key_time(), c.key_ident());
}

pub proof fn lemma_insert_pos_unique<T: Keyed>(s: Seq<T>, x: T, p: int, q: int)
    requires
        is_insert_pos(s, x, p),
        is_insert_pos(s, x, q),
    ensures
        p == q,
{
    if p < q {
        assert(klt(s[p], x));
    } else if q < p {
        assert(klt(s[q], x));
    }
}

/// A sorted sequence has a split position for every key.
pub proof fn lemma_insert_pos_exists<T: Keyed>(s: Seq<T>, x: T)
    requires
        strictly_sorted(s),
    ensures
        exists|p: int| is_insert_pos(s, x, p),
    decreases s.len(),
{
    if s.len() == 0 {
        assert(is_insert_pos(s, x, 0));
    } else {
        let d = s.drop_last();
        assert(strictly_sorted(d)) by {
            assert forall|i: int, j: int| 0 <= i < j < d.len() implies klt(#[trigger] d[i], #[trigger] d[j]) by {
                assert(d[i] == s[i] && d[j] == s[j]);
            }
        }
        lemma_insert_pos_exists(d, x);
        let q = choose|q: int| is_insert_pos(d, x, q);
        if klt(s.last(), x) {
            assert(is_insert_pos(s, x, s.len() as int)) by {
                assert forall|j: int| 0 <= j < s.len() implies klt(#[trigger] s[j], x) by {
                    if j < s.len() - 1 {
                        assert(klt(s[j], s.last()));
                        lemma_klt(s[j], s.last(), x);
                    }
                }
            }
        } else {
            assert(is_insert_pos(s, x, q)) by {
                assert forall|j: int| 0 <= j < q implies klt(#[trigger] s[j], x) by {
                    assert(s[j] == d[j]);
                }
                assert forall|j: int| q <= j < s.len() implies !klt(#[trigger] s[j], x) by {
                    if j < s.len() - 1 {
                        assert(s[j] == d[j]);
                    }
                }
            }
        }
    }
}

/// Inserting at the split position of a key absent from a sorted sequence
/// keeps it sorted.
pub proof fn lemma_insert_keeps_sorted<T: Keyed>(s: Seq<T>, x: T, p: int)
    requires
        strictly_sorted(s),
        is_insert_pos(s, x, p),
        !contains_key(s, x),
    ensures
        strictly_sorted(s.insert(p, x)),
{
    let r = s.insert(p, x);
    assert forall|i: int, j: int| 0 <= i < j < r.len() implies klt(#[trigger] r[i], #[trigger] r[j]) by {
        if j < p {
            assert(r[i] == s[i] && r[j] == s[j]);
        } else if j == p {
            assert(r[i] == s[i]);
        } else if i < p {
            assert(r[i] == s[i] && r[j] == s[j - 1]);
            assert(klt(s[i], x));
            assert(!klt(s[j - 1], x));
            assert(!ksame(s[j - 1], x));
            lemma_klt(s[j - 1], x, s[i]);
            lemma_klt(s[i], x, s[j - 1]);
        } else if i == p {
            assert(r[j] == s[j - 1]);
            assert(!klt(s[j - 1], x));
            assert(!ksame(s[j - 1], x));
            lemma_klt(s[j - 1], x, x);
        } else {
            assert(r[i] == s[i - 1] && r[j] == s[j - 1]);
        }
    }
}

/// Inserts `x` into the sorted vector `v` unless its key is already there.
pub fn insert_by_key_exec<T: Keyed>(v: &mut Vec<T>, x: T)
    requires
        strictly_sorted(old(v)@),
    ensures
        final(v)@ == insert_by_key(old(v)@, x),
        strictly_sorted(final(v)@),
{
    let mut i: usize = 0;
    let n = v.len();
    while i < n
        invariant
            n == v@.len(),
            v@ == old(v)@,
            strictly_sorted(v@),
            i <= n,
            forall|j: int| 0 <= j < i ==> klt(#[trigger] v@[j], x),
        ensures
            i <= n,
            forall|j: int| 0 <= j < i ==> klt(#[trigger] v@[j], x),
            i < n ==> klt(x, v@[i as int]),
        decreases n - i,
    {
        match v[i].compare_key(&x) {
            KeyOrder::Less => {
                i = i + 1;
            },
            KeyOrder::Equal => {
                assert(contains_key(v@, x));
                return;
            },
            KeyOrder::Greater => {
                break;
            },
        }
    }
    proof {
        assert forall|j: int| i <= j < v@.len() implies !klt(#[trigger] v@[j], x) by {
            lemma_klt(v@[j], x, v@[i as int]);
            if j > i {
                assert(klt(v@[i as int], v@[j]));
                lemma_klt(x, v@[i as int], v@[j]);
            }
        }
        assert(is_insert_pos(v@, x, i as int));
        assert(!contains_key(v@, x)) by {
            if contains_key(v@, x) {
                let k = choose|k: int| 0 <= k < v@.len() && ksame(#[trigger] v@[k], x);
                lemma_klt(v@[k], x, x);
            }
        }
        let p = choose|p: int| is_insert_pos(v@, x, p);
        lemma_insert_pos_unique(v@, x, p, i as int);
        lemma_insert_keeps_sorted(v@, x, i as int);
    }
    v.insert(i, x);
}

impl Keyed for Message {
    open spec fn key_time(&self) -> int {
        self.timestamp@
    }

    open spec fn key_ident(&self) -> Seq<char> {
        self.id@
    }

    fn compare_key(&self, other: &Self) -> (r: KeyOrder) {
        crate::order::compare_keys(
            self.timestamp.as_nanosecond(),
            self.id.as_str(),
            other.timestamp.as_nanosecond(),
            other.id.as_str(),
        )
    }
}

impl Keyed for Text {
    open spec fn key_time(&self) -> int {
        self.timestamp@
    }

    open spec fn key_ident(&self) -> Seq<char> {
        self.id@
    }

    fn compare_key(&self, other: &Self) -> (r: KeyOrder) {
        crate::order::compare_keys(
            self.timestamp.as_nanosecond(),
            self.id.as_str(),
            other.timestamp.as_nanosecond(),
            other.id.as_str(),
        )
    }
}

} // verus!
