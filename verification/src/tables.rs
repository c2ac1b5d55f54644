//! Table maintenance and lookups: pruning brokers that left routing,
//! resolving a queue to its hosting broker, and the scan a connection
//! event triggers.
use vstd::prelude::*;

use crate::alist::{al_get, al_unique, al_get_ref};
use crate::heartbeat::{HeartbeatTarget, TargetView};
use crate::instance::{MQClientInstance, inst_wf, ns_has_addr};
use crate::route::{MessageQueue, MqView, QueueEndpoint, addrs_view};
use crate::strutil::str_eq;

verus! {

/// The replica addresses of one broker that the naming service still
/// lists, in their original order.
pub open spec fn kept_addrs(s0: MQClientInstance, addrs: Seq<(u64, Seq<char>)>) -> Seq<
    (u64, Seq<char>),
>
    decreases addrs.len(),
{
    if addrs.len() == 0 {
        Seq::<(u64, Seq<char>)>::empty()
    } else {
        kept_addrs(s0, addrs.drop_last()) + (if ns_has_addr(s0, addrs.last().1) {
            seq![addrs.last()]
        } else {
            Seq::<(u64, Seq<char>)>::empty()
        })
    }
}

/// The broker-address table as plain values.
pub open spec fn addr_table_deep(t: Seq<(String, Vec<(u64, String)>)>) -> Seq<
    (Seq<char>, Seq<(u64, Seq<char>)>),
> {
    t.map_values(|e: (String, Vec<(u64, String)>)| (e.0@, addrs_view(e.1@)))
}

/// The table after pruning: every broker keeps only its still-listed
/// addresses, and a broker left with none is dropped.
pub open spec fn cleaned_table(
    s0: MQClientInstance,
    dt: Seq<(Seq<char>, Seq<(u64, Seq<char>)>)>,
) -> Seq<(Seq<char>, Seq<(u64, Seq<char>)>)>
    decreases dt.len(),
{
    if dt.len() == 0 {
        Seq::<(Seq<char>, Seq<(u64, Seq<char>)>)>::empty()
    } else {
        cleaned_table(s0, dt.drop_last()) + (if kept_addrs(s0, dt.last().1).len() > 0 {
            seq![(dt.last().0, kept_addrs(s0, dt.last().1))]
        } else {
            Seq::<(Seq<char>, Seq<(u64, Seq<char>)>)>::empty()
        })
    }
}

/// First endpoint entry for the queue `m`, or -1.
pub open spec fn ep_find(eps: Seq<QueueEndpoint>, m: MqView) -> int
    decreases eps.len(),
{
    if eps.len() == 0 {
        -1
    } else if eps[0].queue@ == m {
        0
    } else if ep_find(eps.skip(1), m) == -1 {
        -1
    } else {
        ep_find(eps.skip(1), m) + 1
    }
}

/// Characterization of `ep_find` as the first match.
pub proof fn lemma_ep_find(eps: Seq<QueueEndpoint>, m: MqView)
    ensures
        ep_find(eps, m) == -1 ==> forall|i: int| 0 <= i < eps.len() ==> eps[i].queue@ != m,
        ep_find(eps, m) != -1 ==> 0 <= ep_find(eps, m) < eps.len() && eps[ep_find(eps, m)].queue@
            == m,
        ep_find(eps, m) != -1 ==> forall|j: int| 0 <= j < ep_find(eps, m) ==> eps[j].queue@ != m,
    decreases eps.len(),
{
    if eps.len() > 0 {
        lemma_ep_find(eps.skip(1), m);
        let rest = eps.skip(1);
        assert(forall|i: int| 0 <= i < rest.len() ==> rest[i] == eps[i + 1]);
        if eps[0].queue@ != m {
            let fr = ep_find(rest, m);
            if fr == -1 {
                assert forall|i: int| 0 <= i < eps.len() implies eps[i].queue@ != m by {
                    if i > 0 {
                        assert(rest[i - 1].queue@ != m);
                    }
                }
            } else {
                assert(eps[fr + 1] == rest[fr]);
                assert forall|j: int| 0 <= j < fr + 1 implies eps[j].queue@ != m by {
                    if j > 0 {
                        assert(rest[j - 1].queue@ != m);
                    }
                }
            }
        }
    }
}

/// The broker name a queue resolves to: the endpoint mapping of its
/// topic where one exists, else the name the queue itself carries.
pub open spec fn broker_name_for(s: MQClientInstance, m: MqView) -> Seq<char> {
    match al_get(s.topic_end_points_table@, m.topic) {
        None => m.broker_name,
        Some(eps) => {
            if ep_find(eps@, m) == -1 {
                m.broker_name
            } else {
                eps@[ep_find(eps@, m)].broker_name@
            }
        },
    }
}

/// The (broker, replica, address) triples whose address is `remote`: what
/// a connection notification for `remote` concerns.
pub open spec fn matching_in_broker(
    name: Seq<char>,
    addrs: Seq<(u64, Seq<char>)>,
    remote: Seq<char>,
) -> Seq<TargetView>
    decreases addrs.len(),
{
    if addrs.len() == 0 {
        Seq::<TargetView>::empty()
    } else {
        matching_in_broker(name, addrs.drop_last(), remote) + (if addrs.last().1 == remote {
            seq![TargetView { id: addrs.last().0, broker_name: name, addr: addrs.last().1 }]
        } else {
            Seq::<TargetView>::empty()
        })
    }
}

/// All matches of `remote` over the broker-address table, in table order.
pub open spec fn all_matching(
    t: Seq<(String, Vec<(u64, String)>)>,
    remote: Seq<char>,
) -> Seq<TargetView>
    decreases t.len(),
{
    if t.len() == 0 {
        Seq::<TargetView>::empty()
    } else {
        all_matching(t.drop_last(), remote) + matching_in_broker(
            t.last().0@,
            addrs_view(t.last().1@),
            remote,
        )
    }
}

impl MQClientInstance {
    /// Prune offline brokers: drop every address the naming service no
    /// longer lists, and every broker left without addresses.
    pub fn clean_offline_broker(&mut self)
        requires
            inst_wf(*old(self)),
        ensures
            inst_wf(*final(self)),
            addr_table_deep(final(self).broker_addr_table@) == cleaned_table(
                *old(self),
                addr_table_deep(old(self).broker_addr_table@),
            ),
            *final(self) == (MQClientInstance {
                broker_addr_table: final(self).broker_addr_table,
                ..*old(self)
            }),
    {
        let ghost s0 = *self;
        let mut out: Vec<(String, Vec<(u64, String)>)> = Vec::new();
        let n = self.broker_addr_table.len();
        proof {
            assert(addr_table_deep(self.broker_addr_table@).take(0) =~= addr_table_deep(
                self.broker_addr_table@.take(0),
            ));
            assert(addr_table_deep(out@) =~= cleaned_table(
                s0,
                addr_table_deep(self.broker_addr_table@).take(0),
            ));
        }
        for i in 0..n
            invariant
                n == self.broker_addr_table@.len(),
                *self == s0,
                inst_wf(s0),
                addr_table_deep(out@) == cleaned_table(
                    s0,
                    addr_table_deep(self.broker_addr_table@).take(i as int),
                ),
                forall|j: int|
                    0 <= j < out@.len() ==> exists|k: int|
                        0 <= k < i && (#[trigger] out@[j].0)@ == self.broker_addr_table@[k].0@,
                al_unique(out@),
                forall|j: int| 0 <= j < out@.len() ==> crate::alist::il_unique(#[trigger] out@[j].1@),
        {
            let name = &self.broker_addr_table[i].0;
            let addrs = &self.broker_addr_table[i].1;
            let ghost av = addrs_view(addrs@);
            let mut filtered: Vec<(u64, String)> = Vec::new();
            let na = addrs.len();
            proof {
                assert(kept_addrs(s0, av.take(0)) =~= Seq::<(u64, Seq<char>)>::empty());
                assert(addrs_view(filtered@) =~= kept_addrs(s0, av.take(0)));
            }
            for k in 0..na
                invariant
                    na == addrs@.len(),
                    *self == s0,
                    inst_wf(s0),
                    0 <= i < self.broker_addr_table@.len(),
                    addrs == &self.broker_addr_table@[i as int].1,
                    av == addrs_view(addrs@),
                    addrs_view(filtered@) == kept_addrs(s0, av.take(k as int)),
                    forall|j: int|
                        0 <= j < filtered@.len() ==> exists|t: int|
                            0 <= t < k && (#[trigger] filtered@[j]).0 == addrs@[t].0,
                    crate::alist::il_unique(filtered@),
            {
                let pair_id = addrs[k].0;
                let addr = &addrs[k].1;
                proof {
                    assert(av.take(k + 1).drop_last() =~= av.take(k as int));
                    assert(av.take(k + 1).last() == av[k as int]);
                    assert(av[k as int] == (addrs@[k as int].0, addrs@[k as int].1@));
                }
                if self.is_broker_in_name_server(addr.as_str()) {
                    let p = (pair_id, addr.clone());
                    proof {
                        assert((filtered@.push(p)).map_values(|q: (u64, String)| (q.0, q.1@))
                            =~= addrs_view(filtered@).push((p.0, p.1@)));
                        assert(addrs_view(filtered@).push((p.0, p.1@)) =~= kept_addrs(
                            s0,
                            av.take(k + 1),
                        ));
                        assert forall|j: int|
                            0 <= j < filtered@.len() implies (#[trigger] filtered@[j]).0
                            != pair_id by {
                            let t = choose|t: int|
                                0 <= t < k && filtered@[j].0 == addrs@[t].0;
                            assert(crate::alist::il_unique(s0.broker_addr_table@[i as int].1@));
                            assert(addrs@[t].0 != addrs@[k as int].0);
                        }
                    }
                    filtered.push(p);
                } else {
                    proof {
                        assert(addrs_view(filtered@) =~= kept_addrs(s0, av.take(k + 1)));
                    }
                }
            }
            proof {
                assert(av.take(na as int) =~= av);
            }
            let ghost dt = addr_table_deep(self.broker_addr_table@);
            proof {
                assert(dt.take(i + 1).drop_last() =~= dt.take(i as int));
                assert(dt.take(i + 1).last() == dt[i as int]);
                assert(dt[i as int] == (self.broker_addr_table@[i as int].0@, av));
            }
            if filtered.len() > 0 {
                let entry = (name.clone(), filtered);
                proof {
                    assert(addr_table_deep(out@.push(entry)) =~= addr_table_deep(out@).push(
                        (entry.0@, addrs_view(entry.1@)),
                    ));
                    assert(addr_table_deep(out@).push((entry.0@, addrs_view(entry.1@)))
                        =~= cleaned_table(s0, dt.take(i + 1)));
                    assert forall|j: int|
                        0 <= j < out@.len() implies (#[trigger] out@[j].0)@ != entry.0@ by {
                        let k2 = choose|k2: int|
                            0 <= k2 < i && out@[j].0@ == self.broker_addr_table@[k2].0@;
                        assert(al_unique(s0.broker_addr_table@));
                        assert(self.broker_addr_table@[k2].0@
                            != self.broker_addr_table@[i as int].0@);
                    }
                }
                out.push(entry);
            } else {
                proof {
                    assert(kept_addrs(s0, av).len() == addrs_view(filtered@).len());
                    assert(addr_table_deep(out@) =~= cleaned_table(s0, dt.take(i + 1)));
                }
            }
        }
        proof {
            assert(addr_table_deep(self.broker_addr_table@).take(n as int) =~= addr_table_deep(
                self.broker_addr_table@,
            ));
        }
        self.broker_addr_table = out;
    }

    /// The broker a queue belongs to: looked up in the endpoint table of
    /// its topic, falling back to the name the queue carries.
    pub fn get_broker_name_from_message_queue(&self, message_queue: &MessageQueue) -> (r: String)
        ensures
            r@ == broker_name_for(*self, message_queue@),
    {
        match al_get_ref(&self.topic_end_points_table, message_queue.topic.as_str()) {
            None => message_queue.broker_name.clone(),
            Some(eps) => {
                proof {
                    lemma_ep_find(eps@, message_queue@);
                }
                let ne = eps.len();
                for i in 0..ne
                    invariant
                        ne == eps@.len(),
                        al_get(self.topic_end_points_table@, message_queue@.topic) == Some(*eps),
                        forall|j: int| 0 <= j < i ==> eps@[j].queue@ != message_queue@,
                {
                    if eps[i].queue.same_queue(message_queue) {
                        proof {
                            lemma_ep_find(eps@, message_queue@);
                            let f = ep_find(eps@, message_queue@);
                            assert(f != -1);
                            assert(f == i as int) by {
                                if f < i as int {
                                    assert(eps@[f].queue@ != message_queue@);
                                } else if f > i as int {
                                    assert(eps@[i as int].queue@ != message_queue@);
                                }
                            }
                        }
                        return eps[i].broker_name.clone();
                    }
                }
                proof {
                    lemma_ep_find(eps@, message_queue@);
                }
                message_queue.broker_name.clone()
            },
        }
    }

    /// Every (broker, replica) pair whose address is `remote`: the pairs
    /// a connection notification for `remote` makes worth a heartbeat.
    pub fn connected_brokers(&self, remote: &str) -> (ts: Vec<HeartbeatTarget>)
        ensures
            ts@.map_values(|t: HeartbeatTarget| t@) == all_matching(
                self.broker_addr_table@,
                remote@,
            ),
    {
        let mut ts: Vec<HeartbeatTarget> = Vec::new();
        let n = self.broker_addr_table.len();
        proof {
            assert(ts@.map_values(|t: HeartbeatTarget| t@) =~= all_matching(
                self.broker_addr_table@.take(0),
                remote@,
            ));
        }
        for i in 0..n
            invariant
                n == self.broker_addr_table@.len(),
                ts@.map_values(|t: HeartbeatTarget| t@) == all_matching(
                    self.broker_addr_table@.take(i as int),
                    remote@,
                ),
        {
            let name = &self.broker_addr_table[i].0;
            let addrs = &self.broker_addr_table[i].1;
            let ghost base = ts@.map_values(|t: HeartbeatTarget| t@);
            let ghost av = addrs_view(addrs@);
            let na = addrs.len();
            proof {
                assert(matching_in_broker(name@, av.take(0), remote@) =~= Seq::<
                    TargetView,
                >::empty());
                assert(ts@.map_values(|t: HeartbeatTarget| t@) =~= base + matching_in_broker(
                    name@,
                    av.take(0),
                    remote@,
                ));
            }
            for k in 0..na
                invariant
                    na == addrs@.len(),
                    0 <= i < self.broker_addr_table@.len(),
                    name@ == self.broker_addr_table@[i as int].0@,
                    addrs == &self.broker_addr_table@[i as int].1,
                    av == addrs_view(addrs@),
                    ts@.map_values(|t: HeartbeatTarget| t@) == base + matching_in_broker(
                        name@,
                        av.take(k as int),
                        remote@,
                    ),
            {
                let id = addrs[k].0;
                let addr = &addrs[k].1;
                proof {
                    assert(av.take(k + 1).drop_last() =~= av.take(k as int));
                    assert(av.take(k + 1).last() == av[k as int]);
                    assert(av[k as int] == (addrs@[k as int].0, addrs@[k as int].1@));
                }
                if str_eq(addr.as_str(), remote) {
                    let t = HeartbeatTarget { id, broker_name: name.clone(), addr: addr.clone() };
                    proof {
                        assert((ts@.push(t)).map_values(|x: HeartbeatTarget| x@)
                            =~= ts@.map_values(|x: HeartbeatTarget| x@).push(t@));
                        assert(ts@.map_values(|x: HeartbeatTarget| x@).push(t@) =~= base
                            + matching_in_broker(name@, av.take(k + 1), remote@));
                    }
                    ts.push(t);
                } else {
                    proof {
                        assert(ts@.map_values(|x: HeartbeatTarget| x@) =~= base
                            + matching_in_broker(name@, av.take(k + 1), remote@));
                    }
                }
            }
            proof {
                assert(av.take(na as int) =~= av);
                assert(self.broker_addr_table@.take(i + 1).drop_last()
                    =~= self.broker_addr_table@.take(i as int));
                assert(self.broker_addr_table@.take(i + 1).last()
                    == self.broker_addr_table@[i as int]);
                assert(ts@.map_values(|t: HeartbeatTarget| t@) =~= all_matching(
                    self.broker_addr_table@.take(i + 1),
                    remote@,
                ));
            }
        }
        proof {
            assert(self.broker_addr_table@.take(n as int) =~= self.broker_addr_table@);
        }
        ts
    }
}

} // verus!
