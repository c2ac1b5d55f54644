//! Deriving per-topic publish and subscribe information from a route
//! snapshot: deterministic ordering, permission filtering, and the
//! primary-replica requirement.
use vstd::prelude::*;

use crate::alist::il_has_key;
use crate::order_conf::{order_queues, valid_order_conf, build_order_queues};
use crate::route::{
    MessageQueue, MqView, QueueData, QdView, BrokerData, BdView, TopicRouteData, RouteView,
    spec_is_writeable, spec_is_readable, is_writeable, is_readable, MASTER_ID,
};
use crate::strutil::{char_seq_le, str_eq, str_le};

verus! {

/// Strict natural order of queue descriptors: broker name first, then the
/// numeric attributes.
pub open spec fn qd_lt(a: QdView, b: QdView) -> bool {
    if a.broker_name != b.broker_name {
        char_seq_le(a.broker_name, b.broker_name)
    } else if a.read_queue_nums != b.read_queue_nums {
        a.read_queue_nums < b.read_queue_nums
    } else if a.write_queue_nums != b.write_queue_nums {
        a.write_queue_nums < b.write_queue_nums
    } else {
        a.perm < b.perm
    }
}

/// Executable `qd_lt`.
pub fn qd_lt_exec(a: &QueueData, b: &QueueData) -> (r: bool)
    ensures
        r == qd_lt(a@, b@),
{
    if !str_eq(a.broker_name.as_str(), b.broker_name.as_str()) {
        str_le(a.broker_name.as_str(), b.broker_name.as_str())
    } else if a.read_queue_nums != b.read_queue_nums {
        a.read_queue_nums < b.read_queue_nums
    } else if a.write_queue_nums != b.write_queue_nums {
        a.write_queue_nums < b.write_queue_nums
    } else {
        a.perm < b.perm
    }
}

/// Insert `x` into a sorted run: before the first element it precedes.
pub open spec fn qd_insert(x: QdView, s: Seq<QdView>) -> Seq<QdView>
    decreases s.len(),
{
    if s.len() == 0 {
        seq![x]
    } else if qd_lt(x, s[0]) {
        seq![x] + s
    } else {
        seq![s[0]] + qd_insert(x, s.skip(1))
    }
}

/// Insertion sort of queue descriptors, the order every client reproduces.
pub open spec fn qd_sort(s: Seq<QdView>) -> Seq<QdView>
    decreases s.len(),
{
    if s.len() == 0 {
        Seq::<QdView>::empty()
    } else {
        qd_insert(s.last(), qd_sort(s.drop_last()))
    }
}

/// `qd_insert` places `x` exactly at the first position whose element it
/// precedes.
proof fn lemma_qd_insert_at(x: QdView, s: Seq<QdView>, j: int)
    requires
        0 <= j <= s.len(),
        forall|k: int| 0 <= k < j ==> !qd_lt(x, s[k]),
        j < s.len() ==> qd_lt(x, s[j]),
    ensures
        qd_insert(x, s) == s.take(j) + seq![x] + s.skip(j),
    decreases j,
{
    if j == 0 {
        if s.len() == 0 {
            assert(qd_insert(x, s) =~= s.take(0) + seq![x] + s.skip(0));
        } else {
            assert(qd_lt(x, s[0]));
            assert(qd_insert(x, s) =~= s.take(0) + seq![x] + s.skip(0));
        }
    } else {
        assert(!qd_lt(x, s[0]));
        let rest = s.skip(1);
        assert(forall|i: int| 0 <= i < rest.len() ==> rest[i] == s[i + 1]);
        lemma_qd_insert_at(x, rest, j - 1);
        assert(qd_insert(x, s) == seq![s[0]] + (rest.take(j - 1) + seq![x] + rest.skip(j - 1)));
        assert(rest.skip(j - 1) =~= s.skip(j));
        assert(seq![s[0]] + rest.take(j - 1) =~= s.take(j));
        assert(qd_insert(x, s) =~= s.take(j) + seq![x] + s.skip(j));
    }
}

/// First position in `v` whose descriptor `x` precedes.
fn qd_find_pos(v: &Vec<QueueData>, x: &QueueData) -> (j: usize)
    ensures
        j <= v@.len(),
        forall|k: int| 0 <= k < j ==> !qd_lt(x@, v@[k]@),
        j < v@.len() ==> qd_lt(x@, v@[j as int]@),
{
    let mut j: usize = 0;
    while j < v.len()
        invariant
            j <= v@.len(),
            forall|k: int| 0 <= k < j ==> !qd_lt(x@, v@[k]@),
        decreases v@.len() - j,
    {
        if qd_lt_exec(x, &v[j]) {
            return j;
        }
        j = j + 1;
    }
    j
}

/// Insert a descriptor into a vector, matching `qd_insert` on the views.
fn qd_insert_exec(v: &mut Vec<QueueData>, x: QueueData)
    ensures
        final(v)@.map_values(|q: QueueData| q@) == qd_insert(
            x@,
            old(v)@.map_values(|q: QueueData| q@),
        ),
{
    let ghost s = v@.map_values(|q: QueueData| q@);
    let j = qd_find_pos(v, &x);
    proof {
        lemma_qd_insert_at(x@, s, j as int);
    }
    v.insert(j, x);
    proof {
        assert(v@.map_values(|q: QueueData| q@) =~= s.take(j as int) + seq![x@] + s.skip(j as int));
    }
}

/// Sort the descriptors, matching `qd_sort` on the views.
pub fn qd_sort_exec(src: &Vec<QueueData>) -> (out: Vec<QueueData>)
    ensures
        out@.map_values(|q: QueueData| q@) == qd_sort(src@.map_values(|q: QueueData| q@)),
{
    let ghost sm = src@.map_values(|q: QueueData| q@);
    let mut out: Vec<QueueData> = Vec::new();
    let n = src.len();
    proof {
        assert(out@.map_values(|q: QueueData| q@) =~= qd_sort(sm.take(0)));
    }
    for i in 0..n
        invariant
            n == src@.len(),
            sm == src@.map_values(|q: QueueData| q@),
            out@.map_values(|q: QueueData| q@) == qd_sort(sm.take(i as int)),
    {
        let x = src[i].copy();
        proof {
            assert(sm.take(i + 1).drop_last() =~= sm.take(i as int));
            assert(sm.take(i + 1).last() == x@);
        }
        qd_insert_exec(&mut out, x);
    }
    proof {
        assert(sm.take(n as int) =~= sm);
    }
    out
}

/// No inversions: each descriptor precedes no earlier one.
pub open spec fn qd_sorted(s: Seq<QdView>) -> bool {
    forall|i: int, j: int| 0 <= i < j < s.len() ==> !qd_lt(s[j], s[i])
}

/// The descriptor order is transitive.
pub proof fn lemma_qd_lt_trans(a: QdView, b: QdView, c: QdView)
    requires
        qd_lt(a, b),
        qd_lt(b, c),
    ensures
        qd_lt(a, c),
{
    if a.broker_name != b.broker_name && b.broker_name != c.broker_name {
        crate::strutil::lemma_char_seq_le_trans(a.broker_name, b.broker_name, c.broker_name);
        if a.broker_name == c.broker_name {
            crate::strutil::lemma_char_seq_le_antisym(a.broker_name, b.broker_name);
        }
    }
}

/// Every element of an insertion is the inserted one or one of the run.
proof fn lemma_qd_insert_elems(x: QdView, s: Seq<QdView>, i: int)
    requires
        0 <= i < qd_insert(x, s).len(),
    ensures
        qd_insert(x, s)[i] == x || s.contains(qd_insert(x, s)[i]),
    decreases s.len(),
{
    let r = qd_insert(x, s);
    if s.len() == 0 {
    } else if qd_lt(x, s[0]) {
        if i > 0 {
            assert(r[i] == s[i - 1]);
            assert(s.contains(s[i - 1]));
        }
    } else {
        if i == 0 {
            assert(s.contains(s[0]));
        } else {
            let rest = s.skip(1);
            assert(r[i] == qd_insert(x, rest)[i - 1]);
            lemma_qd_insert_elems(x, rest, i - 1);
            if qd_insert(x, rest)[i - 1] != x {
                let m = choose|m: int| 0 <= m < rest.len() && rest[m] == qd_insert(x, rest)[i - 1];
                assert(s[m + 1] == rest[m]);
                assert(s.contains(s[m + 1]));
            }
        }
    }
}

/// Inserting into a sorted run keeps it sorted.
proof fn lemma_qd_insert_sorted(x: QdView, s: Seq<QdView>)
    requires
        qd_sorted(s),
    ensures
        qd_sorted(qd_insert(x, s)),
    decreases s.len(),
{
    let r = qd_insert(x, s);
    if s.len() == 0 {
    } else if qd_lt(x, s[0]) {
        assert forall|i: int, j: int| 0 <= i < j < r.len() implies !qd_lt(r[j], r[i]) by {
            if i == 0 {
                assert(r[j] == s[j - 1]);
                if qd_lt(r[j], x) {
                    lemma_qd_lt_trans(s[j - 1], x, s[0]);
                    assert(qd_lt(s[j - 1], s[0]));
                    assert(j - 1 > 0 ==> !qd_lt(s[j - 1], s[0]));
                    assert(j - 1 == 0 ==> !qd_lt(s[0], s[0]));
                }
            } else {
                assert(r[i] == s[i - 1] && r[j] == s[j - 1]);
            }
        }
    } else {
        let rest = s.skip(1);
        assert(qd_sorted(rest)) by {
            assert(forall|m: int| 0 <= m < rest.len() ==> rest[m] == s[m + 1]);
        }
        lemma_qd_insert_sorted(x, rest);
        let ri = qd_insert(x, rest);
        assert forall|i: int, j: int| 0 <= i < j < r.len() implies !qd_lt(r[j], r[i]) by {
            if i == 0 {
                assert(r[j] == ri[j - 1]);
                lemma_qd_insert_elems(x, rest, j - 1);
                if ri[j - 1] == x {
                    assert(!qd_lt(x, s[0]));
                } else {
                    let m = choose|m: int| 0 <= m < rest.len() && rest[m] == ri[j - 1];
                    assert(rest[m] == s[m + 1]);
                    assert(!qd_lt(s[m + 1], s[0]));
                }
            } else {
                assert(r[i] == ri[i - 1] && r[j] == ri[j - 1]);
            }
        }
    }
}

/// Insertion adds exactly the inserted descriptor.
proof fn lemma_qd_insert_to_multiset(x: QdView, s: Seq<QdView>)
    ensures
        qd_insert(x, s).to_multiset() == s.to_multiset().insert(x),
    decreases s.len(),
{
    broadcast use vstd::seq_lib::group_to_multiset_ensures;

    let r = qd_insert(x, s);
    if s.len() == 0 {
        assert(r =~= Seq::<QdView>::empty().push(x));
        assert(r.to_multiset() =~= s.to_multiset().insert(x));
    } else if qd_lt(x, s[0]) {
        vstd::seq_lib::lemma_multiset_commutative(seq![x], s);
        assert(seq![x] =~= Seq::<QdView>::empty().push(x));
        assert(r.to_multiset() =~= s.to_multiset().insert(x));
    } else {
        let rest = s.skip(1);
        lemma_qd_insert_to_multiset(x, rest);
        vstd::seq_lib::lemma_multiset_commutative(seq![s[0]], qd_insert(x, rest));
        vstd::seq_lib::lemma_multiset_commutative(seq![s[0]], rest);
        assert(seq![s[0]] + rest =~= s);
        assert(r.to_multiset() =~= s.to_multiset().insert(x));
    }
}

/// Sorting law: the derivation's descriptor order is a sorted permutation
/// of the snapshot's descriptors, so every client facing the same
/// snapshot enumerates the same queues.
pub proof fn lemma_qd_sort_sorted(s: Seq<QdView>)
    ensures
        qd_sorted(qd_sort(s)),
        qd_sort(s).to_multiset() == s.to_multiset(),
    decreases s.len(),
{
    broadcast use vstd::seq_lib::group_to_multiset_ensures;

    if s.len() > 0 {
        lemma_qd_sort_sorted(s.drop_last());
        lemma_qd_insert_sorted(s.last(), qd_sort(s.drop_last()));
        lemma_qd_insert_to_multiset(s.last(), qd_sort(s.drop_last()));
        assert(s =~= s.drop_last().push(s.last()));
        assert(qd_sort(s).to_multiset() =~= s.to_multiset());
    }
}

/// Strict order of queues by queue id alone; ties keep their order.
pub open spec fn mq_lt_by_id(a: MqView, b: MqView) -> bool {
    a.queue_id < b.queue_id
}

/// Insert a queue into a run sorted by id.
pub open spec fn mq_insert_by_id(x: MqView, s: Seq<MqView>) -> Seq<MqView>
    decreases s.len(),
{
    if s.len() == 0 {
        seq![x]
    } else if mq_lt_by_id(x, s[0]) {
        seq![x] + s
    } else {
        seq![s[0]] + mq_insert_by_id(x, s.skip(1))
    }
}

/// Stable insertion sort of queues by ascending queue id.
pub open spec fn mq_sort_by_id(s: Seq<MqView>) -> Seq<MqView>
    decreases s.len(),
{
    if s.len() == 0 {
        Seq::<MqView>::empty()
    } else {
        mq_insert_by_id(s.last(), mq_sort_by_id(s.drop_last()))
    }
}

/// No inversions by queue id.
pub open spec fn mq_sorted_by_id(s: Seq<MqView>) -> bool {
    forall|i: int, j: int| 0 <= i < j < s.len() ==> !mq_lt_by_id(s[j], s[i])
}

/// Every element of an insertion is the inserted one or one of the run.
proof fn lemma_mq_insert_elems(x: MqView, s: Seq<MqView>, i: int)
    requires
        0 <= i < mq_insert_by_id(x, s).len(),
    ensures
        mq_insert_by_id(x, s)[i] == x || s.contains(mq_insert_by_id(x, s)[i]),
    decreases s.len(),
{
    let r = mq_insert_by_id(x, s);
    if s.len() == 0 {
    } else if mq_lt_by_id(x, s[0]) {
        if i > 0 {
            assert(r[i] == s[i - 1]);
            assert(s.contains(s[i - 1]));
        }
    } else {
        if i == 0 {
            assert(s.contains(s[0]));
        } else {
            let rest = s.skip(1);
            assert(r[i] == mq_insert_by_id(x, rest)[i - 1]);
            lemma_mq_insert_elems(x, rest, i - 1);
            if mq_insert_by_id(x, rest)[i - 1] != x {
                let m = choose|m: int|
                    0 <= m < rest.len() && rest[m] == mq_insert_by_id(x, rest)[i - 1];
                assert(s[m + 1] == rest[m]);
                assert(s.contains(s[m + 1]));
            }
        }
    }
}

/// Inserting by id into a sorted run keeps it sorted.
proof fn lemma_mq_insert_sorted(x: MqView, s: Seq<MqView>)
    requires
        mq_sorted_by_id(s),
    ensures
        mq_sorted_by_id(mq_insert_by_id(x, s)),
    decreases s.len(),
{
    let r = mq_insert_by_id(x, s);
    if s.len() == 0 {
    } else if mq_lt_by_id(x, s[0]) {
        assert forall|i: int, j: int| 0 <= i < j < r.len() implies !mq_lt_by_id(r[j], r[i]) by {
            if i == 0 {
                assert(r[j] == s[j - 1]);
                if mq_lt_by_id(r[j], x) {
                    assert(s[j - 1].queue_id < s[0].queue_id);
                    if j - 1 > 0 {
                        assert(!mq_lt_by_id(s[j - 1], s[0]));
                    }
                    assert(false);
                }
            } else {
                assert(r[i] == s[i - 1] && r[j] == s[j - 1]);
            }
        }
    } else {
        let rest = s.skip(1);
        assert(mq_sorted_by_id(rest)) by {
            assert(forall|m: int| 0 <= m < rest.len() ==> rest[m] == s[m + 1]);
        }
        lemma_mq_insert_sorted(x, rest);
        let ri = mq_insert_by_id(x, rest);
        assert forall|i: int, j: int| 0 <= i < j < r.len() implies !mq_lt_by_id(r[j], r[i]) by {
            if i == 0 {
                assert(r[j] == ri[j - 1]);
                lemma_mq_insert_elems(x, rest, j - 1);
                if ri[j - 1] != x {
                    let m = choose|m: int| 0 <= m < rest.len() && rest[m] == ri[j - 1];
                    assert(rest[m] == s[m + 1]);
                    assert(!mq_lt_by_id(s[m + 1], s[0]));
                }
            } else {
                assert(r[i] == ri[i - 1] && r[j] == ri[j - 1]);
            }
        }
    }
}

/// Insertion by id adds exactly the inserted queue.
proof fn lemma_mq_insert_to_multiset(x: MqView, s: Seq<MqView>)
    ensures
        mq_insert_by_id(x, s).to_multiset() == s.to_multiset().insert(x),
    decreases s.len(),
{
    broadcast use vstd::seq_lib::group_to_multiset_ensures;

    let r = mq_insert_by_id(x, s);
    if s.len() == 0 {
        assert(r =~= Seq::<MqView>::empty().push(x));
        assert(r.to_multiset() =~= s.to_multiset().insert(x));
    } else if mq_lt_by_id(x, s[0]) {
        vstd::seq_lib::lemma_multiset_commutative(seq![x], s);
        assert(seq![x] =~= Seq::<MqView>::empty().push(x));
        assert(r.to_multiset() =~= s.to_multiset().insert(x));
    } else {
        let rest = s.skip(1);
        lemma_mq_insert_to_multiset(x, rest);
        vstd::seq_lib::lemma_multiset_commutative(seq![s[0]], mq_insert_by_id(x, rest));
        vstd::seq_lib::lemma_multiset_commutative(seq![s[0]], rest);
        assert(seq![s[0]] + rest =~= s);
        assert(r.to_multiset() =~= s.to_multiset().insert(x));
    }
}

/// Sorting law for the static-topic branch: the queue list is a
/// permutation of the mapped queues, in ascending queue-id order.
pub proof fn lemma_mq_sort_by_id_sorted(s: Seq<MqView>)
    ensures
        mq_sorted_by_id(mq_sort_by_id(s)),
        mq_sort_by_id(s).to_multiset() == s.to_multiset(),
    decreases s.len(),
{
    broadcast use vstd::seq_lib::group_to_multiset_ensures;

    if s.len() > 0 {
        lemma_mq_sort_by_id_sorted(s.drop_last());
        lemma_mq_insert_sorted(s.last(), mq_sort_by_id(s.drop_last()));
        lemma_mq_insert_to_multiset(s.last(), mq_sort_by_id(s.drop_last()));
        assert(s =~= s.drop_last().push(s.last()));
        assert(mq_sort_by_id(s).to_multiset() =~= s.to_multiset());
    }
}

/// `mq_insert_by_id` places `x` exactly at the first position whose element
/// it precedes.
proof fn lemma_mq_insert_at(x: MqView, s: Seq<MqView>, j: int)
    requires
        0 <= j <= s.len(),
        forall|k: int| 0 <= k < j ==> !mq_lt_by_id(x, s[k]),
        j < s.len() ==> mq_lt_by_id(x, s[j]),
    ensures
        mq_insert_by_id(x, s) == s.take(j) + seq![x] + s.skip(j),
    decreases j,
{
    if j == 0 {
        if s.len() == 0 {
            assert(mq_insert_by_id(x, s) =~= s.take(0) + seq![x] + s.skip(0));
        } else {
            assert(mq_insert_by_id(x, s) =~= s.take(0) + seq![x] + s.skip(0));
        }
    } else {
        assert(!mq_lt_by_id(x, s[0]));
        let rest = s.skip(1);
        assert(forall|i: int| 0 <= i < rest.len() ==> rest[i] == s[i + 1]);
        lemma_mq_insert_at(x, rest, j - 1);
        assert(mq_insert_by_id(x, s) == seq![s[0]] + (rest.take(j - 1) + seq![x] + rest.skip(
            j - 1,
        )));
        assert(rest.skip(j - 1) =~= s.skip(j));
        assert(seq![s[0]] + rest.take(j - 1) =~= s.take(j));
        assert(mq_insert_by_id(x, s) =~= s.take(j) + seq![x] + s.skip(j));
    }
}

/// First position in `v` whose queue id is greater than that of `x`.
fn mq_find_pos(v: &Vec<MessageQueue>, x: &MessageQueue) -> (j: usize)
    ensures
        j <= v@.len(),
        forall|k: int| 0 <= k < j ==> !mq_lt_by_id(x@, v@[k]@),
        j < v@.len() ==> mq_lt_by_id(x@, v@[j as int]@),
{
    let mut j: usize = 0;
    while j < v.len()
        invariant
            j <= v@.len(),
            forall|k: int| 0 <= k < j ==> !mq_lt_by_id(x@, v@[k]@),
        decreases v@.len() - j,
    {
        if x.queue_id < v[j].queue_id {
            return j;
        }
        j = j + 1;
    }
    j
}

/// Sort queues by ascending queue id, matching `mq_sort_by_id`.
pub fn mq_sort_by_id_exec(src: Vec<MessageQueue>) -> (out: Vec<MessageQueue>)
    ensures
        out@.map_values(|m: MessageQueue| m@) == mq_sort_by_id(
            src@.map_values(|m: MessageQueue| m@),
        ),
{
    let ghost sm = src@.map_values(|m: MessageQueue| m@);
    let mut out: Vec<MessageQueue> = Vec::new();
    let n = src.len();
    proof {
        assert(out@.map_values(|m: MessageQueue| m@) =~= mq_sort_by_id(sm.take(0)));
    }
    for i in 0..n
        invariant
            n == src@.len(),
            sm == src@.map_values(|m: MessageQueue| m@),
            out@.map_values(|m: MessageQueue| m@) == mq_sort_by_id(sm.take(i as int)),
    {
        let x = src[i].copy();
        proof {
            assert(sm.take(i + 1).drop_last() =~= sm.take(i as int));
            assert(sm.take(i + 1).last() == x@);
        }
        let ghost s0 = out@.map_values(|m: MessageQueue| m@);
        let j = mq_find_pos(&out, &x);
        proof {
            lemma_mq_insert_at(x@, s0, j as int);
        }
        out.insert(j, x);
        proof {
            assert(out@.map_values(|m: MessageQueue| m@) =~= s0.take(j as int) + seq![x@] + s0.skip(
                j as int,
            ));
        }
    }
    proof {
        assert(sm.take(n as int) =~= sm);
    }
    out
}

/// First broker descriptor carrying `name`, or -1.
pub open spec fn bdv_find(s: Seq<BdView>, name: Seq<char>) -> int
    decreases s.len(),
{
    if s.len() == 0 {
        -1
    } else if s[0].broker_name == name {
        0
    } else if bdv_find(s.skip(1), name) == -1 {
        -1
    } else {
        bdv_find(s.skip(1), name) + 1
    }
}

/// Characterization of `bdv_find` as the first match.
pub proof fn lemma_bdv_find(s: Seq<BdView>, name: Seq<char>)
    ensures
        bdv_find(s, name) == -1 ==> forall|i: int| 0 <= i < s.len() ==> s[i].broker_name != name,
        bdv_find(s, name) != -1 ==> 0 <= bdv_find(s, name) < s.len() && s[bdv_find(
            s,
            name,
        )].broker_name == name,
        bdv_find(s, name) != -1 ==> forall|j: int|
            0 <= j < bdv_find(s, name) ==> s[j].broker_name != name,
    decreases s.len(),
{
    if s.len() > 0 {
        lemma_bdv_find(s.skip(1), name);
        let rest = s.skip(1);
        assert(forall|i: int| 0 <= i < rest.len() ==> rest[i] == s[i + 1]);
        if s[0].broker_name != name {
            let fr = bdv_find(rest, name);
            if fr == -1 {
                assert forall|i: int| 0 <= i < s.len() implies s[i].broker_name != name by {
                    if i > 0 {
                        assert(rest[i - 1].broker_name != name);
                    }
                }
            } else {
                assert(s[fr + 1] == rest[fr]);
                assert forall|j: int| 0 <= j < fr + 1 implies s[j].broker_name != name by {
                    if j > 0 {
                        assert(rest[j - 1].broker_name != name);
                    }
                }
            }
        }
    }
}

/// Find the first broker descriptor carrying `name`.
pub fn bd_find_exec<'a>(v: &'a Vec<BrokerData>, name: &str) -> (r: Option<&'a BrokerData>)
    ensures
        match r {
            Some(bd) => {
                let f = bdv_find(v@.map_values(|b: BrokerData| b@), name@);
                f != -1 && bd@ == v@.map_values(|b: BrokerData| b@)[f]
            },
            None => bdv_find(v@.map_values(|b: BrokerData| b@), name@) == -1,
        },
{
    let ghost s = v@.map_values(|b: BrokerData| b@);
    proof {
        lemma_bdv_find(s, name@);
    }
    let n = v.len();
    for i in 0..n
        invariant
            n == v@.len(),
            s == v@.map_values(|b: BrokerData| b@),
            forall|j: int| 0 <= j < i ==> s[j].broker_name != name@,
    {
        if str_eq(v[i].broker_name.as_str(), name) {
            proof {
                lemma_bdv_find(s, name@);
                assert(s[i as int] == v@[i as int]@);
                assert(s[i as int].broker_name == name@);
                let f = bdv_find(s, name@);
                assert(f != -1);
                assert(f == i as int) by {
                    if f < i as int {
                        assert(s[f].broker_name != name@);
                    } else if f > i as int {
                        assert(s[i as int].broker_name != name@);
                    }
                }
            }
            return Some(&v[i]);
        }
    }
    proof {
        lemma_bdv_find(s, name@);
    }
    None
}

/// Whether a broker descriptor lists a primary-replica address.
pub fn has_master_addr(bd: &BrokerData) -> (r: bool)
    ensures
        r == il_has_key(bd@.broker_addrs, MASTER_ID),
{
    let n = bd.broker_addrs.len();
    for i in 0..n
        invariant
            n == bd.broker_addrs@.len(),
            forall|j: int| 0 <= j < i ==> bd@.broker_addrs[j].0 != MASTER_ID,
    {
        if bd.broker_addrs[i].0 == MASTER_ID {
            proof {
                assert(bd@.broker_addrs[i as int].0 == MASTER_ID);
            }
            return true;
        }
    }
    false
}

/// A queue descriptor yields publish queues only when it is writable and
/// its broker is known with a primary-replica address.
pub open spec fn qd_eligible(q: QdView, bds: Seq<BdView>) -> bool {
    &&& spec_is_writeable(q.perm)
    &&& bdv_find(bds, q.broker_name) != -1
    &&& il_has_key(bds[bdv_find(bds, q.broker_name)].broker_addrs, MASTER_ID)
}

/// The queues one eligible descriptor enumerates for publishing.
pub open spec fn qd_write_queues(topic: Seq<char>, q: QdView) -> Seq<MqView> {
    Seq::new(
        q.write_queue_nums as nat,
        |i: int| MqView { topic, broker_name: q.broker_name, queue_id: i as u32 },
    )
}

/// Publish queues of a normal topic: eligible descriptors in sorted order,
/// each enumerating ids `0..write_queue_nums`.
pub open spec fn normal_queues(topic: Seq<char>, qds: Seq<QdView>, bds: Seq<BdView>) -> Seq<MqView>
    decreases qds.len(),
{
    if qds.len() == 0 {
        Seq::<MqView>::empty()
    } else {
        normal_queues(topic, qds.drop_last(), bds) + (if qd_eligible(qds.last(), bds) {
            qd_write_queues(topic, qds.last())
        } else {
            Seq::<MqView>::empty()
        })
    }
}

/// Whether the route marks the topic ordered.
pub open spec fn route_order_topic(r: RouteView) -> bool {
    r.order_topic_conf is Some && r.order_topic_conf->0.len() > 0
}

/// An order-topic configuration, when present and used, must parse.
pub open spec fn route_conf_valid(r: RouteView) -> bool {
    route_order_topic(r) ==> valid_order_conf(r.order_topic_conf->0)
}

/// The exact queue list the derivation produces for a route.
pub open spec fn expected_publish_queues(topic: Seq<char>, r: RouteView) -> Seq<MqView> {
    if route_order_topic(r) {
        order_queues(topic, r.order_topic_conf->0)
    } else if r.order_topic_conf is None && r.queue_mapping_endpoints is Some
        && r.queue_mapping_endpoints->0.len() > 0 {
        mq_sort_by_id(r.queue_mapping_endpoints->0.map_values(|e: crate::route::EpView| e.queue))
    } else {
        normal_queues(topic, qd_sort(r.queue_datas), r.broker_datas)
    }
}

/// Derived publish-side information of one topic.
pub struct TopicPublishInfo {
    pub order_topic: bool,
    pub have_topic_router_info: bool,
    pub message_queue_list: Vec<MessageQueue>,
}

/// Mathematical image of a `TopicPublishInfo`.
pub ghost struct PubInfoView {
    pub order_topic: bool,
    pub have_topic_router_info: bool,
    pub message_queue_list: Seq<MqView>,
}

impl View for TopicPublishInfo {
    type V = PubInfoView;

    open spec fn view(&self) -> PubInfoView {
        PubInfoView {
            order_topic: self.order_topic,
            have_topic_router_info: self.have_topic_router_info,
            message_queue_list: self.message_queue_list@.map_values(|m: MessageQueue| m@),
        }
    }
}

/// Publish info is usable once it lists at least one queue.
pub open spec fn pubinfo_ok(p: PubInfoView) -> bool {
    p.message_queue_list.len() > 0
}

impl TopicPublishInfo {
    /// Whether this info can serve publishing.
    pub fn ok(&self) -> (r: bool)
        ensures
            r == pubinfo_ok(self@),
    {
        self.message_queue_list.len() > 0
    }

    /// A field-by-field copy.
    pub fn copy(&self) -> (r: TopicPublishInfo)
        ensures
            r@ == self@,
    {
        let mut list: Vec<MessageQueue> = Vec::new();
        let n = self.message_queue_list.len();
        for i in 0..n
            invariant
                n == self.message_queue_list@.len(),
                list@.len() == i,
                forall|j: int| 0 <= j < i ==> list@[j]@ == self.message_queue_list@[j]@,
        {
            let m = self.message_queue_list[i].copy();
            list.push(m);
        }
        let r = TopicPublishInfo {
            order_topic: self.order_topic,
            have_topic_router_info: self.have_topic_router_info,
            message_queue_list: list,
        };
        proof {
            assert(r@.message_queue_list =~= self@.message_queue_list);
        }
        r
    }
}

/// Derive the publish info of a topic from a route snapshot: order-topic
/// entries when configured, the static queue mapping sorted by queue id
/// when present, and otherwise the sorted, filtered queue descriptors.
pub fn topic_route_data2topic_publish_info(topic: &str, route: &TopicRouteData) -> (info:
    TopicPublishInfo)
    requires
        route_conf_valid(route@),
    ensures
        info@.message_queue_list == expected_publish_queues(topic@, route@),
        info@.order_topic == route_order_topic(route@),
        info@.have_topic_router_info == false,
{
    let mut list: Vec<MessageQueue> = Vec::new();
    let mut order_topic = false;
    let use_order = match &route.order_topic_conf {
        Some(conf) => !conf.as_str().is_empty(),
        None => false,
    };
    if use_order {
        let conf = match &route.order_topic_conf {
            Some(c) => c,
            None => unreached(),
        };
        proof {
            assert(list@.map_values(|m: MessageQueue| m@) =~= Seq::<MqView>::empty());
        }
        build_order_queues(topic, conf.as_str(), &mut list);
        proof {
            assert(list@.map_values(|m: MessageQueue| m@) =~= order_queues(topic@, conf@));
        }
        order_topic = true;
    } else {
        let use_mapping = match (&route.order_topic_conf, &route.queue_mapping_endpoints) {
            (None, Some(eps)) => eps.len() > 0,
            _ => false,
        };
        if use_mapping {
            let eps = match &route.queue_mapping_endpoints {
                Some(e) => e,
                None => unreached(),
            };
            let mut collected: Vec<MessageQueue> = Vec::new();
            let n = eps.len();
            for i in 0..n
                invariant
                    n == eps@.len(),
                    collected@.len() == i,
                    forall|j: int| 0 <= j < i ==> collected@[j]@ == eps@[j]@.queue,
            {
                let q = eps[i].queue.copy();
                collected.push(q);
            }
            proof {
                assert(collected@.map_values(|m: MessageQueue| m@) =~= eps@.map_values(
                    |e: crate::route::QueueEndpoint| e@,
                ).map_values(|e: crate::route::EpView| e.queue));
            }
            list = mq_sort_by_id_exec(collected);
        } else {
            let sorted = qd_sort_exec(&route.queue_datas);
            let ghost sortedm = qd_sort(route@.queue_datas);
            proof {
                assert(sorted@.map_values(|q: QueueData| q@) == sortedm);
                assert(list@.map_values(|m: MessageQueue| m@) =~= normal_queues(
                    topic@,
                    sortedm.take(0),
                    route@.broker_datas,
                ));
            }
            let n = sorted.len();
            for i in 0..n
                invariant
                    n == sorted@.len(),
                    sorted@.map_values(|q: QueueData| q@) == sortedm,
                    list@.map_values(|m: MessageQueue| m@) == normal_queues(
                        topic@,
                        sortedm.take(i as int),
                        route@.broker_datas,
                    ),
            {
                let qd = &sorted[i];
                let ghost before = list@.map_values(|m: MessageQueue| m@);
                let mut eligible = false;
                if is_writeable(qd.perm) {
                    match bd_find_exec(&route.broker_datas, qd.broker_name.as_str()) {
                        Some(bd) => {
                            if has_master_addr(bd) {
                                eligible = true;
                            }
                        },
                        None => {},
                    }
                }
                proof {
                    assert(eligible == qd_eligible(qd@, route@.broker_datas));
                }
                if eligible {
                    let w = qd.write_queue_nums;
                    for q in 0..w
                        invariant
                            w == qd.write_queue_nums,
                            list@.map_values(|m: MessageQueue| m@) == before + Seq::new(
                                q as nat,
                                |k: int|
                                    MqView {
                                        topic: topic@,
                                        broker_name: qd@.broker_name,
                                        queue_id: k as u32,
                                    },
                            ),
                    {
                        let mq = MessageQueue::from_parts(topic, qd.broker_name.as_str(), q);
                        proof {
                            let f = |k: int| MqView {
                                topic: topic@,
                                broker_name: qd@.broker_name,
                                queue_id: k as u32,
                            };
                            assert((list@.push(mq)).map_values(|m: MessageQueue| m@)
                                =~= list@.map_values(|m: MessageQueue| m@).push(mq@));
                            assert(Seq::new((q + 1) as nat, f) =~= Seq::new(q as nat, f).push(f(
                                q as int,
                            )));
                            assert(list@.map_values(|m: MessageQueue| m@).push(mq@) =~= before
                                + Seq::new((q + 1) as nat, f));
                        }
                        list.push(mq);
                    }
                    proof {
                        assert(list@.map_values(|m: MessageQueue| m@) =~= before + qd_write_queues(
                            topic@,
                            qd@,
                        ));
                    }
                }
                proof {
                    assert(sortedm.take(i + 1).drop_last() =~= sortedm.take(i as int));
                    assert(sortedm.take(i + 1).last() == qd@);
                    if !eligible {
                        assert(list@.map_values(|m: MessageQueue| m@) =~= before + Seq::<
                            MqView,
                        >::empty());
                    }
                    assert(list@.map_values(|m: MessageQueue| m@) =~= normal_queues(
                        topic@,
                        sortedm.take(i + 1),
                        route@.broker_datas,
                    ));
                }
            }
            proof {
                assert(sortedm.take(n as int) =~= sortedm);
            }
        }
    }
    TopicPublishInfo { order_topic, have_topic_router_info: false, message_queue_list: list }
}

/// Subscribe-side queues of a route: every readable descriptor enumerates
/// ids `0..read_queue_nums`, in descriptor order.
pub open spec fn expected_subscribe_queues(topic: Seq<char>, r: RouteView) -> Seq<MqView>
    decreases r.queue_datas.len(),
{
    if r.queue_datas.len() == 0 {
        Seq::<MqView>::empty()
    } else {
        let prefix = RouteView { queue_datas: r.queue_datas.drop_last(), ..r };
        expected_subscribe_queues(topic, prefix) + (if spec_is_readable(
            r.queue_datas.last().perm,
        ) {
            Seq::new(
                r.queue_datas.last().read_queue_nums as nat,
                |i: int|
                    MqView {
                        topic,
                        broker_name: r.queue_datas.last().broker_name,
                        queue_id: i as u32,
                    },
            )
        } else {
            Seq::<MqView>::empty()
        })
    }
}

/// Derive the subscribe-side queue set of a topic from a route snapshot.
pub fn topic_route_data2topic_subscribe_info(topic: &str, route: &TopicRouteData) -> (qs: Vec<
    MessageQueue,
>)
    ensures
        qs@.map_values(|m: MessageQueue| m@) == expected_subscribe_queues(topic@, route@),
{
    let mut out: Vec<MessageQueue> = Vec::new();
    let n = route.queue_datas.len();
    proof {
        let r0 = RouteView { queue_datas: route@.queue_datas.take(0), ..route@ };
        assert(r0.queue_datas =~= Seq::<QdView>::empty());
        assert(out@.map_values(|m: MessageQueue| m@) =~= expected_subscribe_queues(topic@, r0));
    }
    for i in 0..n
        invariant
            n == route.queue_datas@.len(),
            out@.map_values(|m: MessageQueue| m@) == expected_subscribe_queues(
                topic@,
                (RouteView { queue_datas: route@.queue_datas.take(i as int), ..route@ }),
            ),
    {
        let qd = &route.queue_datas[i];
        let ghost before = out@.map_values(|m: MessageQueue| m@);
        if is_readable(qd.perm) {
            let rn = qd.read_queue_nums;
            for q in 0..rn
                invariant
                    rn == qd.read_queue_nums,
                    out@.map_values(|m: MessageQueue| m@) == before + Seq::new(
                        q as nat,
                        |k: int|
                            MqView {
                                topic: topic@,
                                broker_name: qd@.broker_name,
                                queue_id: k as u32,
                            },
                    ),
            {
                let mq = MessageQueue::from_parts(topic, qd.broker_name.as_str(), q);
                proof {
                    let f = |k: int| MqView {
                        topic: topic@,
                        broker_name: qd@.broker_name,
                        queue_id: k as u32,
                    };
                    assert((out@.push(mq)).map_values(|m: MessageQueue| m@) =~= out@.map_values(
                        |m: MessageQueue| m@,
                    ).push(mq@));
                    assert(Seq::new((q + 1) as nat, f) =~= Seq::new(q as nat, f).push(f(q as int)));
                    assert(out@.map_values(|m: MessageQueue| m@).push(mq@) =~= before + Seq::new(
                        (q + 1) as nat,
                        f,
                    ));
                }
                out.push(mq);
            }
        }
        proof {
            let rp = RouteView { queue_datas: route@.queue_datas.take(i as int), ..route@ };
            let rc = RouteView { queue_datas: route@.queue_datas.take(i + 1), ..route@ };
            assert(rc.queue_datas.drop_last() =~= rp.queue_datas);
            assert((RouteView { queue_datas: rc.queue_datas.drop_last(), ..rc }) == rp);
            assert(rc.queue_datas.last() == qd@);
            assert(out@.map_values(|m: MessageQueue| m@) =~= expected_subscribe_queues(topic@, rc));
        }
    }
    proof {
        let rn = RouteView { queue_datas: route@.queue_datas.take(n as int), ..route@ };
        assert(rn.queue_datas =~= route@.queue_datas);
        assert(rn == route@);
    }
    out
}

} // verus!
