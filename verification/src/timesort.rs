//! Stable sorting of messages by timestamp alone.

use vstd::multiset::Multiset;
use vstd::prelude::*;

use crate::Message;

verus! {

broadcast use vstd::seq_lib::group_to_multiset_ensures;

/// Timestamps never decrease along `s`.
pub open spec fn ts_sorted(s: Seq<Message>) -> bool {
    forall|i: int, j: int|
        0 <= i < j < s.len() ==> (#[trigger] s[i]).timestamp@ <= (#[trigger] s[j]).timestamp@
}

/// Position `p` puts an element with timestamp `t` after every element of
/// `s` that is not later than `t` and before every later one.
pub open spec fn is_upper_pos(s: Seq<Message>, t: int, p: int) -> bool {
    &&& 0 <= p <= s.len()
    &&& forall|j: int| 0 <= j < p ==> (#[trigger] s[j]).timestamp@ <= t
    &&& forall|j: int| p <= j < s.len() ==> (#[trigger] s[j]).timestamp@ > t
}

/// `s` with `m` inserted after all elements whose timestamp is not later.
pub open spec fn insert_by_timestamp(s: Seq<Message>, m: Message) -> Seq<Message> {
    s.insert(choose|p: int| is_upper_pos(s, m.timestamp@, p), m)
}

/// Stable sort by timestamp: each element in turn goes after all earlier
/// elements whose timestamp is not later, so elements with equal timestamps
/// keep their relative order.
pub open spec fn sort_by_timestamp(s: Seq<Message>) -> Seq<Message>
    decreases s.len(),
{
    if s.len() == 0 {
        s
    } else {
        insert_by_timestamp(sort_by_timestamp(s.drop_last()), s.last())
    }
}

/// Messages of `ms` that share a timestamp are the same message.
pub open spec fn timestamps_identify(ms: Multiset<Message>) -> bool {
    forall|x: Message, y: Message|
        #[trigger] ms.contains(x) && #[trigger] ms.contains(y) && x.timestamp@ == y.timestamp@
            ==> x == y
}

pub proof fn lemma_upper_pos_exists(s: Seq<Message>, t: int)
    requires
        ts_sorted(s),
    ensures
        exists|p: int| is_upper_pos(s, t, p),
    decreases s.len(),
{
    if s.len() == 0 {
        assert(is_upper_pos(s, t, 0));
    } else {
        let d = s.drop_last();
        lemma_upper_pos_exists(d, t);
        let q = choose|q: int| is_upper_pos(d, t, q);
        if s.last().timestamp@ <= t {
            assert(is_upper_pos(s, t, s.len() as int)) by {
                assert forall|j: int| 0 <= j < s.len() implies (#[trigger] s[j]).timestamp@ <= t by {
                    if j < s.len() - 1 {
                        assert(s[j] == d[j]);
                    }
                }
            }
        } else {
            assert(is_upper_pos(s, t, q)) by {
                assert forall|j: int| 0 <= j < q implies (#[trigger] s[j]).timestamp@ <= t by {
                    assert(s[j] == d[j]);
                }
                assert forall|j: int| q <= j < s.len() implies (#[trigger] s[j]).timestamp@ > t by {
                    if j < s.len() - 1 {
                        assert(s[j] == d[j]);
                    }
                }
            }
        }
    }
}

pub proof fn lemma_upper_pos_unique(s: Seq<Message>, t: int, p: int, q: int)
    requires
        is_upper_pos(s, t, p),
        is_upper_pos(s, t, q),
    ensures
        p == q,
{
    if p < q {
        assert(s[p].timestamp@ <= t);
    } else if q < p {
        assert(s[q].timestamp@ <= t);
    }
}

/// Inserting at the upper position keeps the timestamps in order and adds
/// the element to the multiset.
pub proof fn lemma_insert_by_timestamp(s: Seq<Message>, m: Message)
    requires
        ts_sorted(s),
    ensures
        ts_sorted(insert_by_timestamp(s, m)),
        insert_by_timestamp(s, m).to_multiset() == s.to_multiset().insert(m),
        insert_by_timestamp(s, m).len() == s.len() + 1,
{
    lemma_upper_pos_exists(s, m.timestamp@);
    let p = choose|p: int| is_upper_pos(s, m.timestamp@, p);
    let r = s.insert(p, m);
    assert forall|i: int, j: int| 0 <= i < j < r.len() implies (#[trigger] r[i]).timestamp@ <= (
    #[trigger] r[j]).timestamp@ by {
        if j < p {
            assert(r[i] == s[i] && r[j] == s[j]);
        } else if j == p {
            assert(r[i] == s[i]);
        } else if i < p {
            assert(r[i] == s[i] && r[j] == s[j - 1]);
        } else if i == p {
            assert(r[j] == s[j - 1]);
        } else {
            assert(r[i] == s[i - 1] && r[j] == s[j - 1]);
        }
    }
    assert(r.remove(p) =~= s);
    assert(r[p] == m);
    assert(r.to_multiset().remove(m) == s.to_multiset());
    assert(r.to_multiset().contains(m));
    assert(r.to_multiset() =~= s.to_multiset().insert(m));
}

/// The stable sort orders by timestamp and permutes its input.
pub proof fn lemma_sort_by_timestamp(s: Seq<Message>)
    ensures
        ts_sorted(sort_by_timestamp(s)),
        sort_by_timestamp(s).to_multiset() == s.to_multiset(),
        sort_by_timestamp(s).len() == s.len(),
    decreases s.len(),
{
    if s.len() == 0 {
    } else {
        let d = s.drop_last();
        lemma_sort_by_timestamp(d);
        lemma_insert_by_timestamp(sort_by_timestamp(d), s.last());
        assert(s =~= d.push(s.last()));
        assert(s.to_multiset() == d.to_multiset().insert(s.last()));
    }
}

/// Two timestamp-sorted sequences with the same elements are equal when
/// elements that share a timestamp are identical.
pub proof fn lemma_ts_sorted_unique(a: Seq<Message>, b: Seq<Message>)
    requires
        ts_sorted(a),
        ts_sorted(b),
        a.to_multiset() == b.to_multiset(),
        timestamps_identify(a.to_multiset()),
    ensures
        a == b,
    decreases a.len(),
{
    if a.len() == 0 {
        assert(b.len() == 0);
        assert(a =~= b);
    } else {
        assert(a.to_multiset().len() == a.len());
        assert(b.to_multiset().len() == b.len());
        let ma = a.to_multiset();
        assert(ma.contains(a[0]));
        assert(b.to_multiset().contains(a[0]));
        let k = choose|k: int| 0 <= k < b.len() && b[k] == a[0];
        assert(ma.contains(b[0]));
        let l = choose|l: int| 0 <= l < a.len() && a[l] == b[0];
        assert(a[0].timestamp@ <= a[l].timestamp@);
        assert(b[0].timestamp@ <= b[k].timestamp@);
        assert(a[0] == b[0]);
        let ta = a.drop_first();
        let tb = b.drop_first();
        assert(a.remove(0) =~= ta);
        assert(b.remove(0) =~= tb);
        assert(ta.to_multiset() == ma.remove(a[0]));
        assert(tb.to_multiset() == b.to_multiset().remove(b[0]));
        assert forall|x: Message, y: Message|
            #[trigger] ta.to_multiset().contains(x) && #[trigger] ta.to_multiset().contains(y)
                && x.timestamp@ == y.timestamp@ implies x == y by {
            assert(ma.contains(x));
            assert(ma.contains(y));
        }
        assert forall|i: int, j: int| 0 <= i < j < ta.len() implies (#[trigger] ta[i]).timestamp@
            <= (#[trigger] ta[j]).timestamp@ by {
            assert(ta[i] == a[i + 1] && ta[j] == a[j + 1]);
        }
        assert forall|i: int, j: int| 0 <= i < j < tb.len() implies (#[trigger] tb[i]).timestamp@
            <= (#[trigger] tb[j]).timestamp@ by {
            assert(tb[i] == b[i + 1] && tb[j] == b[j + 1]);
        }
        lemma_ts_sorted_unique(ta, tb);
        assert(a =~= seq![a[0]] + ta);
        assert(b =~= seq![b[0]] + tb);
    }
}

/// Sorting two arrangements of the same messages gives the same sequence,
/// provided messages that share a timestamp are identical.
pub proof fn lemma_sort_ignores_arrangement(a: Seq<Message>, b: Seq<Message>)
    requires
        a.to_multiset() == b.to_multiset(),
        timestamps_identify(a.to_multiset()),
    ensures
        sort_by_timestamp(a) == sort_by_timestamp(b),
{
    lemma_sort_by_timestamp(a);
    lemma_sort_by_timestamp(b);
    lemma_ts_sorted_unique(sort_by_timestamp(a), sort_by_timestamp(b));
}

/// Sorts `ops` by timestamp, keeping the input order among equal timestamps.
pub fn sort_messages_by_timestamp(ops: Vec<Message>) -> (r: Vec<Message>)
    ensures
        r@ == sort_by_timestamp(ops@),
{
    let ghost orig = ops@;
    assert(orig.len() == ops.len());
    let mut input = ops;
    let mut out: Vec<Message> = Vec::new();
    let mut k: usize = 0;
    assert(orig.take(0) =~= Seq::<Message>::empty());
    assert(orig.skip(0) =~= orig);
    while input.len() > 0
        invariant
            k <= orig.len(),
            orig.len() <= usize::MAX,
            input@ == orig.skip(k as int),
            out@ == sort_by_timestamp(orig.take(k as int)),
        decreases input@.len(),
    {
        proof {
            lemma_sort_by_timestamp(orig.take(k as int));
        }
        assert(k < orig.len());
        let m = input.remove(0);
        let t = m.timestamp.as_nanosecond();
        let mut i: usize = 0;
        let n = out.len();
        while i < n && out[i].timestamp.as_nanosecond() <= t
            invariant
                n == out@.len(),
                i <= n,
                forall|j: int| 0 <= j < i ==> (#[trigger] out@[j]).timestamp@ <= t,
            decreases n - i,
        {
            i = i + 1;
        }
        proof {
            assert forall|j: int| i <= j < out@.len() implies (#[trigger] out@[j]).timestamp@ > t by {
                assert(out@[i as int].timestamp@ > t);
                if j > i {
                    assert(out@[i as int].timestamp@ <= out@[j].timestamp@);
                }
            }
            assert(is_upper_pos(out@, m.timestamp@, i as int));
            let p = choose|p: int| is_upper_pos(out@, m.timestamp@, p);
            lemma_upper_pos_unique(out@, m.timestamp@, p, i as int);
            assert(orig.take(k + 1).drop_last() =~= orig.take(k as int));
            assert(orig.take(k + 1).last() == m);
            assert(input@ =~= orig.skip(k + 1));
        }
        out.insert(i, m);
        k = k + 1;
    }
    assert(orig.take(k as int) =~= orig);
    out
}

} // verus!
