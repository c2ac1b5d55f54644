//! The general properties of the core, proved once and for all states:
//! registration stays idempotent-reject, route-change detection is
//! monotonic, the idle fan-out reaches only primaries, and a heartbeat
//! success touches exactly one version slot.
use vstd::prelude::*;

use crate::alist::{
    al_find, al_get, al_has_key, al_unique, al_upserted, lemma_al_find,
};
use crate::instance::{
    MQClientInstance, all_targets, broker_targets, version_recorded, need_update_any,
};
use crate::resolver::{
    cached_route, route_changed, resolver_applied, route_table_upserted,
};
use crate::route::{RouteView, MASTER_ID, addrs_view};

verus! {

/// How many entries of the table carry key `k`.
pub open spec fn al_count<V>(s: Seq<(String, V)>, k: Seq<char>) -> int
    decreases s.len(),
{
    if s.len() == 0 {
        0
    } else {
        al_count(s.drop_last(), k) + (if s.last().0@ == k {
            1int
        } else {
            0int
        })
    }
}

/// A table without the key holds no entry counting for it.
pub proof fn lemma_al_count_zero<V>(s: Seq<(String, V)>, k: Seq<char>)
    requires
        !al_has_key(s, k),
    ensures
        al_count(s, k) == 0,
    decreases s.len(),
{
    if s.len() > 0 {
        assert(forall|i: int| 0 <= i < s.drop_last().len() ==> s.drop_last()[i] == s[i]);
        assert(!al_has_key(s.drop_last(), k)) by {
            if al_has_key(s.drop_last(), k) {
                let i = choose|i: int| 0 <= i < s.drop_last().len() && s.drop_last()[i].0@ == k;
                assert(s[i].0@ == k);
            }
        }
        lemma_al_count_zero(s.drop_last(), k);
        assert(s.last().0@ != k);
    }
}

/// Registration is idempotent-reject: after a group is registered into a
/// table that did not hold it, the table holds exactly one entry for the
/// group, and a second registration of the same group is rejected (the
/// registration functions return false exactly when the key is present or
/// empty).
pub proof fn lemma_registration_idempotent_reject<V>(t: Seq<(String, V)>, k: String, v: V)
    requires
        al_unique(t),
        k@.len() > 0,
        !al_has_key(t, k@),
    ensures
        al_has_key(t.push((k, v)), k@),
        al_count(t.push((k, v)), k@) == 1,
    decreases t.len(),
{
    let n = t.push((k, v));
    assert(n[t.len() as int].0@ == k@);
    assert(n.drop_last() =~= t);
    lemma_al_count_zero(t, k@);
    assert(al_count(n, k@) == al_count(t, k@) + 1);
}

/// An upserted table answers the new value under the key and the old
/// value under every other key.
pub proof fn lemma_al_upserted_get<V>(
    o: Seq<(String, V)>,
    n: Seq<(String, V)>,
    k: Seq<char>,
    v: V,
)
    requires
        al_unique(o),
        al_upserted(o, n, k, v),
    ensures
        al_get(n, k) == Some(v),
        forall|k2: Seq<char>| k2 != k ==> al_get(n, k2) == al_get(o, k2),
{
    lemma_al_find(o, k);
    lemma_al_find(n, k);
    let fo = al_find(o, k);
    assert forall|k2: Seq<char>| true implies (k2 == k ==> al_get(n, k2) == Some(v)) && (k2 != k
        ==> al_get(n, k2) == al_get(o, k2)) by {
        lemma_al_find(n, k2);
        lemma_al_find(o, k2);
        let fn2 = al_find(n, k2);
        let fo2 = al_find(o, k2);
        let slot = if fo == -1 {
            o.len() as int
        } else {
            fo
        };
        assert(n[slot].0@ == k);
        if k2 == k {
            assert(fn2 != -1);
            assert(n[fn2].0@ == k2);
            assert(fn2 == slot) by {
                if fn2 < slot {
                    if fo == -1 {
                        assert(n[fn2] == o[fn2]);
                        assert(o[fn2].0@ == k);
                    } else {
                        assert(n[fn2] == o[fn2]);
                        assert(o[fn2].0@ == k);
                        assert(fo != -1 && fn2 < fo);
                        assert(o[fo].0@ == k);
                    }
                } else if fn2 > slot {
                    assert(n[slot].0@ != k2);
                }
            }
            assert(al_get(n, k2) == Some(n[slot].1));
            assert(n[slot].1 == v);
        } else {
            if fo2 == -1 {
                assert(fn2 == -1) by {
                    if fn2 != -1 {
                        assert(n[fn2].0@ == k2);
                        if fn2 != slot {
                            if fn2 < o.len() {
                                assert(n[fn2] == o[fn2]);
                                assert(o[fn2].0@ == k2);
                            }
                        } else {
                            assert(n[slot].0@ == k);
                        }
                        assert(false);
                    }
                }
            } else {
                assert(o[fo2].0@ == k2);
                assert(fo2 != slot ==> n[fo2] == o[fo2]);
                assert(fo2 != slot) by {
                    if fo2 == slot {
                        if fo == -1 {
                            assert(fo2 < o.len());
                        } else {
                            assert(o[fo].0@ == k);
                        }
                    }
                }
                assert(n[fo2].0@ == k2);
                assert(fn2 != -1);
                assert(n[fn2].0@ == k2);
                assert(fn2 == fo2) by {
                    if fn2 < fo2 {
                        if fn2 == slot {
                            assert(n[slot].0@ == k);
                        } else {
                            assert(n[fn2] == o[fn2]);
                            assert(o[fn2].0@ == k2);
                        }
                        assert(false);
                    } else if fn2 > fo2 {
                        assert(n[fo2].0@ != k2);
                    }
                }
                assert(al_get(n, k2) == Some(n[fo2].1));
                assert(n[fo2].1 == o[fo2].1);
            }
        }
    }
}

/// After a change was applied, the cache answers the applied snapshot.
pub proof fn lemma_cached_after_apply(
    o: MQClientInstance,
    n: MQClientInstance,
    topic: Seq<char>,
    av: RouteView,
)
    requires
        al_unique(o.topic_route_table@),
        route_table_upserted(o.topic_route_table@, n.topic_route_table@, topic, av),
    ensures
        cached_route(n, topic) == Some(av),
{
    let ot = o.topic_route_table@;
    let nt = n.topic_route_table@;
    lemma_al_find(ot, topic);
    lemma_al_find(nt, topic);
    let fo = al_find(ot, topic);
    let slot = if fo == -1 {
        ot.len() as int
    } else {
        fo
    };
    assert(nt[slot].0@ == topic);
    let fn2 = al_find(nt, topic);
    assert(fn2 != -1);
    assert(nt[fn2].0@ == topic);
    assert(fn2 == slot) by {
        if fn2 < slot {
            if fo == -1 {
                assert(nt[fn2] == ot[fn2]);
                assert(ot[fn2].0@ == topic);
            } else {
                assert(nt[fn2] == ot[fn2]);
                assert(ot[fn2].0@ == topic);
                assert(ot[fo].0@ == topic);
            }
            assert(false);
        } else if fn2 > slot {
            assert(nt[slot].0@ != topic);
        }
    }
    assert(nt[slot].1@ == av);
}

/// Route-change detection is monotonic: once a snapshot has been applied,
/// offering the identical snapshot again is no change, as long as no
/// registered client reports a need for fresh data.
pub proof fn lemma_route_change_monotonic(
    o: MQClientInstance,
    n: MQClientInstance,
    topic: Seq<char>,
    av: RouteView,
)
    requires
        al_unique(o.topic_route_table@),
        resolver_applied(o, n, topic, av),
        !need_update_any(n, topic),
    ensures
        !route_changed(n, topic, av),
{
    lemma_cached_after_apply(o, n, topic, av);
}

/// With no consumer registered, every heartbeat target of one broker is
/// its primary replica.
pub proof fn lemma_broker_targets_primary(name: Seq<char>, addrs: Seq<(u64, Seq<char>)>)
    ensures
        forall|i: int|
            0 <= i < broker_targets(name, addrs, true).len() ==> (#[trigger] broker_targets(
                name,
                addrs,
                true,
            )[i]).id == MASTER_ID,
    decreases addrs.len(),
{
    if addrs.len() > 0 {
        lemma_broker_targets_primary(name, addrs.drop_last());
        let whole = broker_targets(name, addrs, true);
        let prev = broker_targets(name, addrs.drop_last(), true);
        assert forall|i: int| 0 <= i < whole.len() implies whole[i].id == MASTER_ID by {
            if i < prev.len() {
                assert(whole[i] == prev[i]);
                assert(prev[i].id == MASTER_ID);
            } else {
                assert(addrs.last().1.len() > 0 && addrs.last().0 == MASTER_ID);
            }
        }
    }
}

/// The idle fan-out reaches only primaries: with no consumer registered,
/// every target of the full fan-out carries the primary replica id.
pub proof fn lemma_fanout_no_consumers(t: Seq<(String, Vec<(u64, String)>)>)
    ensures
        forall|i: int|
            0 <= i < all_targets(t, true).len() ==> (#[trigger] all_targets(t, true)[i]).id
                == MASTER_ID,
    decreases t.len(),
{
    if t.len() > 0 {
        lemma_fanout_no_consumers(t.drop_last());
        lemma_broker_targets_primary(t.last().0@, addrs_view(t.last().1@));
        let whole = all_targets(t, true);
        let prev = all_targets(t.drop_last(), true);
        let tail = broker_targets(t.last().0@, addrs_view(t.last().1@), true);
        assert forall|i: int| 0 <= i < whole.len() implies whole[i].id == MASTER_ID by {
            if i < prev.len() {
                assert(whole[i] == prev[i]);
                assert(prev[i].id == MASTER_ID);
            } else {
                assert(whole[i] == tail[i - prev.len()]);
                assert(tail[i - prev.len()].id == MASTER_ID);
            }
        }
    }
}

/// A heartbeat success updates only the targeted (broker, address)
/// version slot: every other broker keeps its whole entry, and within the
/// targeted broker every other address keeps its version.
pub proof fn lemma_heartbeat_version_isolated(
    old_t: Seq<(String, Vec<(String, i32)>)>,
    new_t: Seq<(String, Vec<(String, i32)>)>,
    broker: Seq<char>,
    addr: Seq<char>,
    version: i32,
)
    requires
        al_unique(old_t),
        version_recorded(old_t, new_t, broker, addr, version),
    ensures
        forall|b2: Seq<char>| b2 != broker ==> al_get(new_t, b2) == al_get(old_t, b2),
        al_find(old_t, broker) != -1 ==> {
            let f = al_find(old_t, broker);
            &&& al_unique(old_t[f].1@) ==> al_get(new_t[f].1@, addr) == Some(version)
            &&& forall|a2: Seq<char>|
                a2 != addr && al_unique(old_t[f].1@) ==> al_get(new_t[f].1@, a2) == al_get(
                    old_t[f].1@,
                    a2,
                )
        },
{
    let f = al_find(old_t, broker);
    lemma_al_find(old_t, broker);
    if f == -1 {
        assert forall|b2: Seq<char>| b2 != broker implies al_get(new_t, b2) == al_get(
            old_t,
            b2,
        ) by {
            lemma_al_find(new_t, b2);
            lemma_al_find(old_t, b2);
            let fn2 = al_find(new_t, b2);
            let fo2 = al_find(old_t, b2);
            if fo2 == -1 {
                if fn2 != -1 {
                    assert(new_t[fn2].0@ == b2);
                    if fn2 < old_t.len() {
                        assert(new_t[fn2] == old_t[fn2]);
                        assert(old_t[fn2].0@ == b2);
                    } else {
                        assert(new_t[fn2].0@ == broker);
                    }
                    assert(false);
                }
            } else {
                assert(old_t[fo2].0@ == b2);
                assert(new_t[fo2] == old_t[fo2]);
                assert(fn2 != -1);
                assert(new_t[fn2].0@ == b2);
                assert(fn2 == fo2) by {
                    if fn2 < fo2 {
                        assert(new_t[fn2] == old_t[fn2]);
                        assert(old_t[fn2].0@ == b2);
                        assert(false);
                    } else if fn2 > fo2 {
                        assert(new_t[fo2].0@ != b2);
                    }
                }
            }
        }
    } else {
        assert(old_t[f].0@ == broker);
        assert forall|b2: Seq<char>| b2 != broker implies al_get(new_t, b2) == al_get(
            old_t,
            b2,
        ) by {
            lemma_al_find(new_t, b2);
            lemma_al_find(old_t, b2);
            let fn2 = al_find(new_t, b2);
            let fo2 = al_find(old_t, b2);
            assert(new_t[f].0@ == broker);
            if fo2 == -1 {
                if fn2 != -1 {
                    assert(new_t[fn2].0@ == b2);
                    if fn2 == f {
                        assert(new_t[f].0@ == broker);
                    } else {
                        assert(new_t[fn2] == old_t[fn2]);
                        assert(old_t[fn2].0@ == b2);
                    }
                    assert(false);
                }
            } else {
                assert(old_t[fo2].0@ == b2);
                assert(fo2 != f);
                assert(new_t[fo2] == old_t[fo2]);
                assert(fn2 != -1);
                assert(new_t[fn2].0@ == b2);
                assert(fn2 == fo2) by {
                    if fn2 < fo2 {
                        if fn2 == f {
                            assert(new_t[f].0@ == broker);
                        } else {
                            assert(new_t[fn2] == old_t[fn2]);
                            assert(old_t[fn2].0@ == b2);
                        }
                        assert(false);
                    } else if fn2 > fo2 {
                        assert(new_t[fo2].0@ != b2);
                    }
                }
            }
        }
        if al_unique(old_t[f].1@) {
            lemma_al_upserted_get(old_t[f].1@, new_t[f].1@, addr, version);
        }
    }
}

} // verus!
