//! The topic-route resolver: diff a fetched snapshot against the cache
//! and, on a change, propagate it to every table and every registered
//! client, then replace the snapshot.
use vstd::prelude::*;

use crate::alist::{
    al_find, al_get, al_unique, al_get_ref, al_put_exec, al_upserted, lemma_al_find,
    lemma_al_put_unique, lemma_al_put_get, lemma_al_put_is_upserted, il_unique,
};
use crate::entries::{
    ConsumerEntry, pe_wf, ce_wf, ce_subscribed, pub_table_upserted, sub_table_upserted,
};
use crate::instance::{MQClientInstance, ProducerConfig, inst_wf, need_update_any, addrs_of};
use crate::publish::{
    topic_route_data2topic_publish_info, topic_route_data2topic_subscribe_info,
    expected_publish_queues, expected_subscribe_queues, route_order_topic, route_conf_valid,
    PubInfoView,
};
use crate::route::{
    MessageQueue, MqView, QueueData, QdView, BdView, TopicRouteData, RouteView, QueueEndpoint,
    EpView, addrs_view, route_wf,
};

verus! {

/// One queue descriptor after the default-topic floor: read and write
/// counts raised to at least `floor`.
pub open spec fn adjust_qd(q: QdView, floor: u32) -> QdView {
    let m = if floor > q.read_queue_nums {
        floor
    } else {
        q.read_queue_nums
    };
    QdView { broker_name: q.broker_name, read_queue_nums: m, write_queue_nums: m, perm: q.perm }
}

/// The snapshot the resolver works with: the fetched one, with the floor
/// applied to every descriptor when resolving the default topic.
pub open spec fn spec_adjusted(rv: RouteView, apply: bool, floor: u32) -> RouteView {
    if apply {
        RouteView { queue_datas: rv.queue_datas.map_values(|q: QdView| adjust_qd(q, floor)), ..rv }
    } else {
        rv
    }
}

/// The cached snapshot of a topic, by view.
pub open spec fn cached_route(s: MQClientInstance, topic: Seq<char>) -> Option<RouteView> {
    match al_get(s.topic_route_table@, topic) {
        None => None,
        Some(rt) => Some(rt@),
    }
}

/// Whether a fetched snapshot counts as a change: no cache yet, a
/// structural difference, or some client asking for fresh data.
pub open spec fn route_changed(s: MQClientInstance, topic: Seq<char>, av: RouteView) -> bool {
    match cached_route(s, topic) {
        None => true,
        Some(c) => c != av || need_update_any(s, topic),
    }
}

/// Index of the last broker descriptor carrying `name`, or -1; with
/// duplicate names the last merge wins.
pub open spec fn bdv_last_find(bds: Seq<BdView>, name: Seq<char>) -> int
    decreases bds.len(),
{
    if bds.len() == 0 {
        -1
    } else if bds.last().broker_name == name {
        bds.len() - 1
    } else {
        bdv_last_find(bds.drop_last(), name)
    }
}

/// A found last index is in range and carries the name.
pub proof fn lemma_bdv_last_find(bds: Seq<BdView>, name: Seq<char>)
    ensures
        bdv_last_find(bds, name) != -1 ==> 0 <= bdv_last_find(bds, name) < bds.len()
            && bds[bdv_last_find(bds, name)].broker_name == name,
    decreases bds.len(),
{
    if bds.len() > 0 && bds.last().broker_name != name {
        lemma_bdv_last_find(bds.drop_last(), name);
        if bdv_last_find(bds.drop_last(), name) != -1 {
            assert(bds.drop_last()[bdv_last_find(bds.drop_last(), name)] == bds[bdv_last_find(
                bds,
                name,
            )]);
        }
    }
}

/// Every broker named by the snapshot now maps to that snapshot's address
/// map, wholesale; every other broker keeps its addresses.
pub open spec fn brokers_merged(
    old_t: Seq<(String, Vec<(u64, String)>)>,
    new_t: Seq<(String, Vec<(u64, String)>)>,
    bds: Seq<BdView>,
) -> bool {
    forall|name: Seq<char>|
        #![trigger addrs_of(new_t, name)]
        {
            if bdv_last_find(bds, name) == -1 {
                addrs_of(new_t, name) == addrs_of(old_t, name)
            } else {
                addrs_of(new_t, name) == Some(bds[bdv_last_find(bds, name)].broker_addrs)
            }
        }
}

/// The topic-route table was upserted under `k` with a snapshot reading
/// `rv`.
pub open spec fn route_table_upserted(
    old_t: Seq<(String, TopicRouteData)>,
    new_t: Seq<(String, TopicRouteData)>,
    k: Seq<char>,
    rv: RouteView,
) -> bool {
    if al_find(old_t, k) == -1 {
        new_t.len() == old_t.len() + 1 && new_t.take(old_t.len() as int) == old_t
            && new_t.last().0@ == k && new_t.last().1@ == rv
    } else {
        let f = al_find(old_t, k);
        new_t.len() == old_t.len() && new_t[f].0@ == k && new_t[f].1@ == rv && forall|j: int|
            0 <= j < old_t.len() && j != f ==> new_t[j] == old_t[j]
    }
}

/// The endpoint table was upserted under `k` with endpoints reading `ev`.
pub open spec fn ep_table_upserted(
    old_t: Seq<(String, Vec<QueueEndpoint>)>,
    new_t: Seq<(String, Vec<QueueEndpoint>)>,
    k: Seq<char>,
    ev: Seq<EpView>,
) -> bool {
    if al_find(old_t, k) == -1 {
        new_t.len() == old_t.len() + 1 && new_t.take(old_t.len() as int) == old_t
            && new_t.last().0@ == k && new_t.last().1@.map_values(|e: QueueEndpoint| e@) == ev
    } else {
        let f = al_find(old_t, k);
        new_t.len() == old_t.len() && new_t[f].0@ == k && new_t[f].1@.map_values(
            |e: QueueEndpoint| e@,
        ) == ev && forall|j: int| 0 <= j < old_t.len() && j != f ==> new_t[j] == old_t[j]
    }
}

/// The publish info every producer receives for a changed topic.
pub open spec fn expected_pub_view(topic: Seq<char>, av: RouteView) -> PubInfoView {
    PubInfoView {
        order_topic: route_order_topic(av),
        have_topic_router_info: true,
        message_queue_list: expected_publish_queues(topic, av),
    }
}

/// How one consumer entry looks after the propagation.
pub open spec fn consumer_updated(
    oe: ConsumerEntry,
    ne: ConsumerEntry,
    topic: Seq<char>,
    qv: Seq<MqView>,
) -> bool {
    if !ce_subscribed(oe, topic) {
        ne == oe
    } else {
        &&& sub_table_upserted(oe.subscribe_table@, ne.subscribe_table@, topic, qv)
        &&& ne.consume_type == oe.consume_type
        &&& ne.message_model == oe.message_model
        &&& ne.consume_from_where == oe.consume_from_where
        &&& ne.unit_mode == oe.unit_mode
        &&& ne.subscriptions == oe.subscriptions
    }
}

/// Everything a change application does, table by table.
pub open spec fn resolver_applied(
    o: MQClientInstance,
    n: MQClientInstance,
    topic: Seq<char>,
    av: RouteView,
) -> bool {
    &&& brokers_merged(o.broker_addr_table@, n.broker_addr_table@, av.broker_datas)
    &&& (if av.queue_mapping_endpoints is Some && av.queue_mapping_endpoints->0.len() > 0 {
        ep_table_upserted(
            o.topic_end_points_table@,
            n.topic_end_points_table@,
            topic,
            av.queue_mapping_endpoints->0,
        )
    } else {
        n.topic_end_points_table == o.topic_end_points_table
    })
    &&& n.producer_table@.len() == o.producer_table@.len()
    &&& forall|j: int|
        0 <= j < o.producer_table@.len() ==> (#[trigger] n.producer_table@[j]).0
            == o.producer_table@[j].0 && pub_table_upserted(
            o.producer_table@[j].1.publish_table@,
            n.producer_table@[j].1.publish_table@,
            topic,
            expected_pub_view(topic, av),
        )
    &&& (if o.consumer_table@.len() == 0 {
        n.consumer_table == o.consumer_table
    } else {
        n.consumer_table@.len() == o.consumer_table@.len() && forall|j: int|
            0 <= j < o.consumer_table@.len() ==> (#[trigger] n.consumer_table@[j]).0
                == o.consumer_table@[j].0 && consumer_updated(
                o.consumer_table@[j].1,
                n.consumer_table@[j].1,
                topic,
                expected_subscribe_queues(topic, av),
            )
    })
    &&& route_table_upserted(o.topic_route_table@, n.topic_route_table@, topic, av)
    &&& n.client_id == o.client_id
    &&& n.boot_timestamp == o.boot_timestamp
    &&& n.client_config == o.client_config
    &&& n.service_state == o.service_state
    &&& n.admin_table == o.admin_table
    &&& n.broker_version_table == o.broker_version_table
    &&& n.heartbeat_lock_held == o.heartbeat_lock_held
    &&& n.send_heartbeat_times_total == o.send_heartbeat_times_total
}

/// Apply the default-topic floor to a fetched snapshot.
fn apply_floor(route: TopicRouteData, floor: u32) -> (r: TopicRouteData)
    ensures
        r@ == spec_adjusted(route@, true, floor),
{
    let mut queue_datas: Vec<QueueData> = Vec::new();
    let n = route.queue_datas.len();
    for i in 0..n
        invariant
            n == route.queue_datas@.len(),
            queue_datas@.len() == i,
            forall|j: int|
                0 <= j < i ==> (#[trigger] queue_datas@[j])@ == adjust_qd(route.queue_datas@[j]@, floor),
    {
        let qd = &route.queue_datas[i];
        let m = if floor > qd.read_queue_nums {
            floor
        } else {
            qd.read_queue_nums
        };
        let nq = QueueData {
            broker_name: qd.broker_name.clone(),
            read_queue_nums: m,
            write_queue_nums: m,
            perm: qd.perm,
        };
        queue_datas.push(nq);
    }
    let r = TopicRouteData {
        order_topic_conf: route.order_topic_conf,
        queue_datas,
        broker_datas: route.broker_datas,
        queue_mapping_endpoints: route.queue_mapping_endpoints,
    };
    proof {
        assert(r@.queue_datas =~= spec_adjusted(route@, true, floor).queue_datas);
        assert(r@ == spec_adjusted(route@, true, floor));
    }
    r
}

impl MQClientInstance {
    /// Whether some registered producer or consumer still wants fresh
    /// route data for `topic`; the first affirmative answer wins.
    pub fn is_need_update_topic_route_info(&self, topic: &str) -> (r: bool)
        ensures
            r == need_update_any(*self, topic@),
    {
        let np = self.producer_table.len();
        for i in 0..np
            invariant
                np == self.producer_table@.len(),
                forall|j: int|
                    0 <= j < i ==> !crate::entries::pe_need_update(
                        #[trigger] self.producer_table@[j].1,
                        topic@,
                    ),
        {
            if self.producer_table[i].1.is_publish_topic_need_update(topic) {
                return true;
            }
        }
        let nc = self.consumer_table.len();
        for i in 0..nc
            invariant
                nc == self.consumer_table@.len(),
                forall|j: int|
                    0 <= j < np as int ==> !crate::entries::pe_need_update(
                        #[trigger] self.producer_table@[j].1,
                        topic@,
                    ),
                np == self.producer_table@.len(),
                forall|j: int|
                    0 <= j < i ==> !crate::entries::ce_need_update(
                        #[trigger] self.consumer_table@[j].1,
                        topic@,
                    ),
        {
            if self.consumer_table[i].1.is_subscribe_topic_need_update(topic) {
                return true;
            }
        }
        false
    }

    /// Resolve a specific topic: the default-topic path is not taken.
    pub fn update_topic_route_info_from_name_server_topic(
        &mut self,
        topic: &str,
        fetched: Option<TopicRouteData>,
    ) -> (r: bool)
        requires
            inst_wf(*old(self)),
            match fetched {
                Some(rt) => route_wf(rt@) && route_conf_valid(rt@),
                None => true,
            },
        ensures
            inst_wf(*final(self)),
            match fetched {
                None => r == false && *final(self) == *old(self),
                Some(rt) => {
                    let changed = route_changed(*old(self), topic@, rt@);
                    &&& r == changed
                    &&& !changed ==> *final(self) == *old(self)
                    &&& changed ==> resolver_applied(*old(self), *final(self), topic@, rt@)
                },
            },
    {
        self.update_topic_route_info_from_name_server_default(topic, false, None, fetched)
    }

    /// Resolve one topic against a snapshot the naming service answered
    /// with: detect a change, merge broker addresses, refresh endpoints,
    /// push publish and subscribe info to every registered client, and
    /// replace the cached snapshot. An absent snapshot means "unchanged,
    /// try again next cycle".
    pub fn update_topic_route_info_from_name_server_default(
        &mut self,
        topic: &str,
        is_default: bool,
        producer_config: Option<&ProducerConfig>,
        fetched: Option<TopicRouteData>,
    ) -> (r: bool)
        requires
            inst_wf(*old(self)),
            match fetched {
                Some(rt) => route_wf(rt@) && route_conf_valid(rt@),
                None => true,
            },
        ensures
            inst_wf(*final(self)),
            match fetched {
                None => r == false && *final(self) == *old(self),
                Some(rt) => {
                    let av = spec_adjusted(
                        rt@,
                        is_default && producer_config is Some,
                        match producer_config {
                            Some(pc) => pc.default_topic_queue_nums,
                            None => 0,
                        },
                    );
                    let changed = route_changed(*old(self), topic@, av);
                    &&& r == changed
                    &&& !changed ==> *final(self) == *old(self)
                    &&& changed ==> resolver_applied(*old(self), *final(self), topic@, av)
                },
            },
    {
        if fetched.is_none() {
            return false;
        }
        let route = match fetched {
            Some(rt) => rt,
            None => unreached(),
        };
        let ghost rt0 = route@;
        let apply = is_default && producer_config.is_some();
        let adjusted = if apply {
            let floor = match producer_config {
                Some(pc) => pc.default_topic_queue_nums,
                None => 0,
            };
            apply_floor(route, floor)
        } else {
            route
        };
        let ghost av = adjusted@;
        proof {
            assert(route_wf(av));
            assert(route_conf_valid(av));
        }
        let mut changed = match al_get_ref(&self.topic_route_table, topic) {
            None => true,
            Some(cached) => !adjusted.same_route(cached),
        };
        if !changed {
            changed = self.is_need_update_topic_route_info(topic);
        }
        if !changed {
            return false;
        }
        let ghost o = *self;

        // Merge every broker descriptor into the broker-address table,
        // replacing each named broker's address map wholesale.
        let ghost bdsv = av.broker_datas;
        let nb = adjusted.broker_datas.len();
        proof {
            assert(bdsv.take(0) =~= Seq::<BdView>::empty());
        }
        for i in 0..nb
            invariant
                nb == adjusted.broker_datas@.len(),
                bdsv == adjusted@.broker_datas,
                route_wf(adjusted@),
                al_unique(self.broker_addr_table@),
                forall|t: int|
                    0 <= t < self.broker_addr_table@.len() ==> il_unique(
                        #[trigger] self.broker_addr_table@[t].1@,
                    ),
                brokers_merged(o.broker_addr_table@, self.broker_addr_table@, bdsv.take(i as int)),
                *self == (MQClientInstance { broker_addr_table: self.broker_addr_table, ..o }),
        {
            let bd = &adjusted.broker_datas[i];
            let copied = bd.copy();
            let key = copied.broker_name;
            let val = copied.broker_addrs;
            let ghost kg = key;
            let ghost vg = val;
            let ghost cur = self.broker_addr_table@;
            proof {
                lemma_al_put_unique(cur, kg, vg);
                lemma_al_put_get(cur, kg, vg);
                lemma_al_find(cur, kg@);
            }
            al_put_exec(&mut self.broker_addr_table, key, val);
            proof {
                assert(kg@ == bdsv[i as int].broker_name);
                assert(addrs_view(vg@) == bdsv[i as int].broker_addrs);
                assert(il_unique(bdsv[i as int].broker_addrs));
                assert forall|t: int|
                    0 <= t < self.broker_addr_table@.len() implies il_unique(
                    #[trigger] self.broker_addr_table@[t].1@,
                ) by {
                    let f = al_find(cur, kg@);
                    if f == -1 {
                        if t < cur.len() {
                            assert(self.broker_addr_table@[t] == cur[t]);
                        } else {
                            assert(self.broker_addr_table@[t].1 == vg);
                            assert forall|a: int, b: int|
                                0 <= a < b < vg@.len() implies vg@[a].0 != vg@[b].0 by {
                                assert(addrs_view(vg@)[a].0 == vg@[a].0);
                                assert(addrs_view(vg@)[b].0 == vg@[b].0);
                            }
                        }
                    } else {
                        if t != f {
                            assert(self.broker_addr_table@[t] == cur[t]);
                        } else {
                            assert(self.broker_addr_table@[t].1 == vg);
                            assert forall|a: int, b: int|
                                0 <= a < b < vg@.len() implies vg@[a].0 != vg@[b].0 by {
                                assert(addrs_view(vg@)[a].0 == vg@[a].0);
                                assert(addrs_view(vg@)[b].0 == vg@[b].0);
                            }
                        }
                    }
                }
                assert forall|name: Seq<char>| true implies {
                    if bdv_last_find(bdsv.take(i + 1), name) == -1 {
                        addrs_of(self.broker_addr_table@, name) == addrs_of(
                            o.broker_addr_table@,
                            name,
                        )
                    } else {
                        addrs_of(self.broker_addr_table@, name) == Some(
                            bdsv.take(i + 1)[bdv_last_find(bdsv.take(i + 1), name)].broker_addrs,
                        )
                    }
                } by {
                    lemma_bdv_last_find(bdsv.take(i + 1), name);
                    lemma_bdv_last_find(bdsv.take(i as int), name);
                    assert(bdsv.take(i + 1).drop_last() =~= bdsv.take(i as int));
                    assert(bdsv.take(i + 1).last() == bdsv[i as int]);
                    assert(self.broker_addr_table@ == crate::alist::al_put(cur, kg, vg));
                    if name == kg@ {
                        assert(al_get(crate::alist::al_put(cur, kg, vg), kg@) == Some(vg));
                        assert(addrs_of(self.broker_addr_table@, name) == Some(addrs_view(vg@)));
                        assert(bdv_last_find(bdsv.take(i + 1), name) == i as int);
                    } else {
                        assert(al_get(crate::alist::al_put(cur, kg, vg), name) == al_get(
                            cur,
                            name,
                        ));
                        assert(addrs_of(self.broker_addr_table@, name) == addrs_of(cur, name));
                        assert(bdv_last_find(bdsv.take(i + 1), name) == bdv_last_find(
                            bdsv.take(i as int),
                            name,
                        ));
                        assert(if bdv_last_find(bdsv.take(i as int), name) == -1 {
                            addrs_of(cur, name) == addrs_of(o.broker_addr_table@, name)
                        } else {
                            addrs_of(cur, name) == Some(
                                bdsv.take(i as int)[bdv_last_find(bdsv.take(i as int), name)]
                                    .broker_addrs,
                            )
                        });
                        if bdv_last_find(bdsv.take(i as int), name) != -1 {
                            assert(bdsv.take(i + 1)[bdv_last_find(bdsv.take(i as int), name)]
                                == bdsv.take(i as int)[bdv_last_find(bdsv.take(i as int), name)]);
                        }
                    }
                }
            }
        }
        proof {
            assert(bdsv.take(nb as int) =~= bdsv);
        }

        // Refresh the endpoint table of a static topic.
        let has_endpoints = match &adjusted.queue_mapping_endpoints {
            Some(eps) => eps.len() > 0,
            None => false,
        };
        if has_endpoints {
            let eps = match &adjusted.queue_mapping_endpoints {
                Some(e) => e,
                None => unreached(),
            };
            let mut copied: Vec<QueueEndpoint> = Vec::new();
            let ne = eps.len();
            for i in 0..ne
                invariant
                    ne == eps@.len(),
                    copied@.len() == i,
                    forall|j: int| 0 <= j < i ==> (#[trigger] copied@[j])@ == eps@[j]@,
            {
                let e = eps[i].copy();
                copied.push(e);
            }
            proof {
                assert(copied@.map_values(|e: QueueEndpoint| e@) =~= eps@.map_values(
                    |e: QueueEndpoint| e@,
                ));
            }
            let ghost cur = self.topic_end_points_table@;
            let k = topic.to_owned();
            let ghost kg = k;
            let ghost vg = copied;
            proof {
                lemma_al_put_unique(cur, kg, vg);
            }
            al_put_exec(&mut self.topic_end_points_table, k, copied);
            proof {
                lemma_al_put_is_upserted(cur, kg, vg);
            }
        }

        let ghost bt1 = self.broker_addr_table;
        let ghost et1 = self.topic_end_points_table;

        // Derive fresh publish info and hand a copy to every producer.
        let mut publish_info = topic_route_data2topic_publish_info(topic, &adjusted);
        publish_info.have_topic_router_info = true;
        proof {
            assert(publish_info@ == expected_pub_view(topic@, av));
        }
        let np = self.producer_table.len();
        for j in 0..np
            invariant
                np == self.producer_table@.len(),
                publish_info@ == expected_pub_view(topic@, av),
                self.producer_table@.len() == o.producer_table@.len(),
                forall|t: int|
                    j <= t < np as int ==> #[trigger] self.producer_table@[t]
                        == o.producer_table@[t],
                forall|t: int|
                    0 <= t < j ==> (#[trigger] self.producer_table@[t]).0 == o.producer_table@[t].0
                        && pub_table_upserted(
                        o.producer_table@[t].1.publish_table@,
                        self.producer_table@[t].1.publish_table@,
                        topic@,
                        expected_pub_view(topic@, av),
                    ) && pe_wf(self.producer_table@[t].1),
                forall|t: int| 0 <= t < np as int ==> pe_wf(#[trigger] o.producer_table@[t].1),
                self.broker_addr_table == bt1,
                self.topic_end_points_table == et1,
                *self == (MQClientInstance {
                    broker_addr_table: self.broker_addr_table,
                    topic_end_points_table: self.topic_end_points_table,
                    producer_table: self.producer_table,
                    ..o
                }),
        {
            let mut entry = self.producer_table.remove(j);
            let copy = publish_info.copy();
            entry.1.update_topic_publish_info(topic, Some(copy));
            self.producer_table.insert(j, entry);
            proof {
                assert forall|t: int|
                    j + 1 <= t < np as int implies #[trigger] self.producer_table@[t]
                    == o.producer_table@[t] by {}
            }
        }

        let ghost pt1 = self.producer_table;

        // Derive the subscribe info once and push it to every consumer,
        // when any is registered.
        if self.consumer_table.len() > 0 {
            let subscribe_info = topic_route_data2topic_subscribe_info(topic, &adjusted);
            let nc = self.consumer_table.len();
            for j in 0..nc
                invariant
                    nc == self.consumer_table@.len(),
                    subscribe_info@.map_values(|m: MessageQueue| m@) == expected_subscribe_queues(
                        topic@,
                        av,
                    ),
                    self.consumer_table@.len() == o.consumer_table@.len(),
                    forall|t: int|
                        j <= t < nc as int ==> #[trigger] self.consumer_table@[t]
                            == o.consumer_table@[t],
                    forall|t: int|
                        0 <= t < j ==> (#[trigger] self.consumer_table@[t]).0
                            == o.consumer_table@[t].0 && consumer_updated(
                            o.consumer_table@[t].1,
                            self.consumer_table@[t].1,
                            topic@,
                            expected_subscribe_queues(topic@, av),
                        ) && ce_wf(self.consumer_table@[t].1),
                    forall|t: int| 0 <= t < nc as int ==> ce_wf(#[trigger] o.consumer_table@[t].1),
                    self.broker_addr_table == bt1,
                    self.topic_end_points_table == et1,
                    self.producer_table == pt1,
                    *self == (MQClientInstance {
                        broker_addr_table: self.broker_addr_table,
                        topic_end_points_table: self.topic_end_points_table,
                        producer_table: self.producer_table,
                        consumer_table: self.consumer_table,
                        ..o
                    }),
            {
                let mut entry = self.consumer_table.remove(j);
                entry.1.update_topic_subscribe_info(topic, &subscribe_info);
                self.consumer_table.insert(j, entry);
                proof {
                    assert forall|t: int|
                        j + 1 <= t < nc as int implies #[trigger] self.consumer_table@[t]
                        == o.consumer_table@[t] by {}
                }
            }
        }

        // Replace the cached snapshot last: a reader that sees the new
        // snapshot sees the tables it was derived into.
        let ghost cur = self.topic_route_table@;
        let k = topic.to_owned();
        let ghost kg = k;
        let ghost vg = adjusted;
        proof {
            lemma_al_put_unique(cur, kg, vg);
        }
        al_put_exec(&mut self.topic_route_table, k, adjusted);
        proof {
            lemma_al_put_is_upserted(cur, kg, vg);
            assert(route_table_upserted(o.topic_route_table@, self.topic_route_table@, topic@, av))
                by {
                assert(al_upserted(cur, self.topic_route_table@, kg@, vg));
                lemma_al_find(cur, topic@);
                if al_find(cur, topic@) == -1 {
                    assert(self.topic_route_table@.last().1 == vg);
                } else {
                    assert(self.topic_route_table@[al_find(cur, topic@)].1 == vg);
                }
            }
            assert forall|a: int, b: int|
                0 <= a < b < self.producer_table@.len() implies self.producer_table@[a].0@ != self
                .producer_table@[b].0@ by {
                assert(self.producer_table@[a].0 == o.producer_table@[a].0);
                assert(self.producer_table@[b].0 == o.producer_table@[b].0);
            }
            assert forall|a: int, b: int|
                0 <= a < b < self.consumer_table@.len() implies self.consumer_table@[a].0@ != self
                .consumer_table@[b].0@ by {
                assert(self.consumer_table@[a].0 == o.consumer_table@[a].0);
                assert(self.consumer_table@[b].0 == o.consumer_table@[b].0);
            }
        }
        true
    }
}

} // verus!
