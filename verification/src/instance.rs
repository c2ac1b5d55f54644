//! The client instance core: shared registries, the lifecycle state
//! machine, heartbeat dispatch, and the lookups brokers are found by.
use vstd::prelude::*;

use crate::alist::{
    al_find, al_get, al_get_ref, al_has_key, al_unique, al_contains_key, al_find_exec,
    al_put_exec, al_upserted, lemma_al_find, lemma_al_put_is_upserted, lemma_al_put_unique,
    il_find, il_get, il_unique, il_get_ref, lemma_il_find,
};
use crate::entries::{
    ProducerEntry, ConsumerEntry, AdminEntry, SubscriptionData, SubView, pe_wf, ce_wf,
    pe_need_update, ce_need_update,
};
use crate::heartbeat::{
    HeartbeatData, HbView, ProducerData, PdView, ConsumerData, CdView, HeartbeatTarget, TargetView,
};
use crate::route::{
    TopicRouteData, RouteView, QueueEndpoint, BrokerData, BdView, addrs_view, MASTER_ID,
};
use crate::ServiceState;
use crate::strutil::str_eq;

verus! {

/// The configuration values the core consumes.
pub struct ClientConfig {
    pub namesrv_addr: Option<String>,
    pub poll_name_server_interval: u32,
    pub heartbeat_broker_interval: u32,
    pub persist_consumer_offset_interval: u32,
    pub mq_client_api_timeout: u64,
    pub use_heartbeat_v2: bool,
}

/// Producer-side configuration the resolver consults for default topics.
pub struct ProducerConfig {
    pub default_topic_queue_nums: u32,
}

/// The failure a `start` call reports on an instance whose earlier start
/// failed.
pub struct MQClientError {
    pub code: i32,
    pub message: String,
}

/// What a `start` call decides.
pub enum StartOutcome {
    /// First effective call: run the startup steps, then report back.
    RunSteps,
    /// The instance is already running or already shut down: a no-op.
    Noop,
    /// A previous creation failed; the call is rejected.
    Failed(MQClientError),
}

/// The message reported when starting a previously failed instance.
pub open spec fn start_failed_msg(id: Seq<char>) -> Seq<char> {
    "The Factory object["@ + id + "] has been created before, and failed."@
}

/// What one heartbeat-cycle call decides.
pub enum HeartbeatCycleOutcome {
    /// Another cycle holds the heartbeat lock: nothing is sent.
    LockBusy,
    /// No producer and no consumer is registered: nothing to announce.
    NothingToAnnounce,
    /// No broker address is known yet.
    NoBrokers,
    /// Send this payload to these targets, then finish the cycle.
    Dispatch(HeartbeatData, Vec<HeartbeatTarget>),
}

/// What a single-broker heartbeat call decides.
pub enum SingleHeartbeatOutcome {
    /// Another cycle holds the heartbeat lock: nothing is sent.
    LockBusy,
    /// No producer and no consumer is registered: nothing to announce.
    NothingToAnnounce,
    /// Send this payload to the one target, then finish the cycle.
    Send(HeartbeatData),
}

/// The shared client instance: one per connection identity, holding every
/// registry the background services read and write.
pub struct MQClientInstance {
    pub client_id: String,
    pub boot_timestamp: u64,
    pub client_config: ClientConfig,
    pub service_state: ServiceState,
    pub producer_table: Vec<(String, ProducerEntry)>,
    pub consumer_table: Vec<(String, ConsumerEntry)>,
    pub admin_table: Vec<(String, AdminEntry)>,
    pub topic_route_table: Vec<(String, TopicRouteData)>,
    pub topic_end_points_table: Vec<(String, Vec<QueueEndpoint>)>,
    pub broker_addr_table: Vec<(String, Vec<(u64, String)>)>,
    pub broker_version_table: Vec<(String, Vec<(String, i32)>)>,
    pub heartbeat_lock_held: bool,
    pub send_heartbeat_times_total: u64,
}

/// Well-formedness: every registry keeps its keys unique, every broker
/// keeps its replica ids unique, and every entry is itself well-formed.
pub open spec fn inst_wf(s: MQClientInstance) -> bool {
    &&& al_unique(s.producer_table@)
    &&& al_unique(s.consumer_table@)
    &&& al_unique(s.admin_table@)
    &&& al_unique(s.topic_route_table@)
    &&& al_unique(s.topic_end_points_table@)
    &&& al_unique(s.broker_addr_table@)
    &&& al_unique(s.broker_version_table@)
    &&& forall|i: int|
        0 <= i < s.broker_addr_table@.len() ==> il_unique(#[trigger] s.broker_addr_table@[i].1@)
    &&& forall|i: int|
        0 <= i < s.broker_version_table@.len() ==> al_unique(
            #[trigger] s.broker_version_table@[i].1@,
        )
    &&& forall|i: int| 0 <= i < s.producer_table@.len() ==> pe_wf(#[trigger] s.producer_table@[i].1)
    &&& forall|i: int| 0 <= i < s.consumer_table@.len() ==> ce_wf(#[trigger] s.consumer_table@[i].1)
}

/// A producer or consumer still wants fresh route data for `topic`.
pub open spec fn need_update_any(s: MQClientInstance, topic: Seq<char>) -> bool {
    (exists|i: int|
        0 <= i < s.producer_table@.len() && pe_need_update(
            #[trigger] s.producer_table@[i].1,
            topic,
        )) || (exists|i: int|
        0 <= i < s.consumer_table@.len() && ce_need_update(
            #[trigger] s.consumer_table@[i].1,
            topic,
        ))
}

/// The address map a broker is known by, as plain values.
pub open spec fn addrs_of(
    t: Seq<(String, Vec<(u64, String)>)>,
    broker: Seq<char>,
) -> Option<Seq<(u64, Seq<char>)>> {
    match al_get(t, broker) {
        None => None,
        Some(v) => Some(addrs_view(v@)),
    }
}

/// The heartbeat payload a state announces.
pub open spec fn expected_consumer_data(e: (String, ConsumerEntry), without_sub: bool) -> CdView {
    CdView {
        group_name: e.0@,
        consume_type: e.1.consume_type,
        message_model: e.1.message_model,
        consume_from_where: e.1.consume_from_where,
        subscription_data_set: if without_sub {
            Seq::<SubView>::empty()
        } else {
            e.1.subscriptions@.map_values(|s: SubscriptionData| s@)
        },
        unit_mode: e.1.unit_mode,
    }
}

/// The heartbeat payload built from the registries of `s`.
pub open spec fn expected_heartbeat(s: MQClientInstance, without_sub: bool) -> HbView {
    HbView {
        client_id: s.client_id@,
        is_without_sub: without_sub,
        producer_data_set: s.producer_table@.map_values(
            |e: (String, ProducerEntry)| PdView { group_name: e.0@ },
        ),
        consumer_data_set: s.consumer_table@.map_values(
            |e: (String, ConsumerEntry)| expected_consumer_data(e, without_sub),
        ),
    }
}

/// The targets of one broker: every replica with a non-empty address, or
/// only the primary when no consumer is registered.
pub open spec fn broker_targets(
    name: Seq<char>,
    addrs: Seq<(u64, Seq<char>)>,
    consumers_empty: bool,
) -> Seq<TargetView>
    decreases addrs.len(),
{
    if addrs.len() == 0 {
        Seq::<TargetView>::empty()
    } else {
        broker_targets(name, addrs.drop_last(), consumers_empty) + (if addrs.last().1.len() > 0
            && (!consumers_empty || addrs.last().0 == MASTER_ID) {
            seq![TargetView { id: addrs.last().0, broker_name: name, addr: addrs.last().1 }]
        } else {
            Seq::<TargetView>::empty()
        })
    }
}

/// The full fan-out: the targets of every known broker, in table order.
pub open spec fn all_targets(
    t: Seq<(String, Vec<(u64, String)>)>,
    consumers_empty: bool,
) -> Seq<TargetView>
    decreases t.len(),
{
    if t.len() == 0 {
        Seq::<TargetView>::empty()
    } else {
        all_targets(t.drop_last(), consumers_empty) + broker_targets(
            t.last().0@,
            addrs_view(t.last().1@),
            consumers_empty,
        )
    }
}

/// Whether a broker descriptor of some cached route lists `addr`.
pub open spec fn bd_has_addr(bd: BdView, addr: Seq<char>) -> bool {
    exists|k: int| 0 <= k < bd.broker_addrs.len() && bd.broker_addrs[k].1 == addr
}

/// Whether a route snapshot lists `addr` for some broker.
pub open spec fn route_has_addr(r: RouteView, addr: Seq<char>) -> bool {
    exists|j: int| 0 <= j < r.broker_datas.len() && bd_has_addr(#[trigger] r.broker_datas[j], addr)
}

/// Whether any cached route snapshot lists `addr`: the naming service
/// still knows the address.
pub open spec fn ns_has_addr(s: MQClientInstance, addr: Seq<char>) -> bool {
    exists|i: int|
        0 <= i < s.topic_route_table@.len() && route_has_addr(
            #[trigger] s.topic_route_table@[i].1@,
            addr,
        )
}

impl MQClientInstance {
    /// A fresh instance: empty registries, just created. The boot
    /// timestamp is handed in by whoever reads the clock.
    pub fn new(client_id: String, boot_timestamp: u64, client_config: ClientConfig) -> (r:
        MQClientInstance)
        ensures
            r.client_id == client_id,
            r.boot_timestamp == boot_timestamp,
            r.client_config == client_config,
            r.service_state == ServiceState::CreateJust,
            r.producer_table@.len() == 0,
            r.consumer_table@.len() == 0,
            r.admin_table@.len() == 0,
            r.topic_route_table@.len() == 0,
            r.topic_end_points_table@.len() == 0,
            r.broker_addr_table@.len() == 0,
            r.broker_version_table@.len() == 0,
            r.heartbeat_lock_held == false,
            r.send_heartbeat_times_total == 0,
            inst_wf(r),
    {
        MQClientInstance {
            client_id,
            boot_timestamp,
            client_config,
            service_state: ServiceState::CreateJust,
            producer_table: Vec::new(),
            consumer_table: Vec::new(),
            admin_table: Vec::new(),
            topic_route_table: Vec::new(),
            topic_end_points_table: Vec::new(),
            broker_addr_table: Vec::new(),
            broker_version_table: Vec::new(),
            heartbeat_lock_held: false,
            send_heartbeat_times_total: 0,
        }
    }

    /// Drive the lifecycle state machine one step. On the first call the
    /// state drops to `StartFailed` and the startup steps are owed;
    /// `finish_start` then reports their outcome. Any later call is a
    /// no-op, except on a failed instance, which is rejected.
    pub fn start(&mut self) -> (r: StartOutcome)
        ensures
            match old(self).service_state {
                ServiceState::CreateJust => r is RunSteps && *final(self) == (MQClientInstance {
                    service_state: ServiceState::StartFailed,
                    ..*old(self)
                }),
                ServiceState::Running => r is Noop && *final(self) == *old(self),
                ServiceState::ShutdownAlready => r is Noop && *final(self) == *old(self),
                ServiceState::StartFailed => (r matches StartOutcome::Failed(e) && e.code == -1
                    && e.message@ == start_failed_msg(old(self).client_id@)) && *final(self)
                    == *old(self),
            },
    {
        match self.service_state {
            ServiceState::CreateJust => {
                self.service_state = ServiceState::StartFailed;
                StartOutcome::RunSteps
            },
            ServiceState::Running => StartOutcome::Noop,
            ServiceState::ShutdownAlready => StartOutcome::Noop,
            ServiceState::StartFailed => {
                let head = String::from_str("The Factory object[");
                let with_id = head.concat(self.client_id.as_str());
                let message = with_id.concat("] has been created before, and failed.");
                StartOutcome::Failed(MQClientError { code: -1, message })
            },
        }
    }

    /// Report whether the startup steps succeeded; only meaningful right
    /// after `start` answered `RunSteps`.
    pub fn finish_start(&mut self, steps_ok: bool)
        requires
            old(self).service_state == ServiceState::StartFailed,
        ensures
            *final(self) == (MQClientInstance {
                service_state: if steps_ok {
                    ServiceState::Running
                } else {
                    ServiceState::StartFailed
                },
                ..*old(self)
            }),
    {
        if steps_ok {
            self.service_state = ServiceState::Running;
        }
    }

    /// Register a producer group: strictly additive, rejecting an empty
    /// name or a name already present.
    pub fn register_producer(&mut self, group: &str, producer: ProducerEntry) -> (r: bool)
        requires
            inst_wf(*old(self)),
            pe_wf(producer),
        ensures
            inst_wf(*final(self)),
            r == (group@.len() > 0 && !al_has_key(old(self).producer_table@, group@)),
            !r ==> *final(self) == *old(self),
            r ==> {
                &&& final(self).producer_table@.len() == old(self).producer_table@.len() + 1
                &&& final(self).producer_table@.take(old(self).producer_table@.len() as int)
                    == old(self).producer_table@
                &&& final(self).producer_table@.last().0@ == group@
                &&& final(self).producer_table@.last().1 == producer
                &&& *final(self) == (MQClientInstance {
                    producer_table: final(self).producer_table,
                    ..*old(self)
                })
            },
    {
        if group.is_empty() {
            return false;
        }
        if al_contains_key(&self.producer_table, group) {
            return false;
        }
        let ghost old_t = self.producer_table@;
        self.producer_table.push((group.to_owned(), producer));
        proof {
            assert(self.producer_table@.take(old_t.len() as int) =~= old_t);
            assert forall|i: int, j: int|
                0 <= i < j < self.producer_table@.len() implies self.producer_table@[i].0@
                != self.producer_table@[j].0@ by {
                if j == old_t.len() {
                    assert(!al_has_key(old_t, group@));
                    assert(old_t[i].0@ != group@);
                }
            }
        }
        true
    }

    /// Register a consumer group, as `register_producer`.
    pub fn register_consumer(&mut self, group: &str, consumer: ConsumerEntry) -> (r: bool)
        requires
            inst_wf(*old(self)),
            ce_wf(consumer),
        ensures
            inst_wf(*final(self)),
            r == (group@.len() > 0 && !al_has_key(old(self).consumer_table@, group@)),
            !r ==> *final(self) == *old(self),
            r ==> {
                &&& final(self).consumer_table@.len() == old(self).consumer_table@.len() + 1
                &&& final(self).consumer_table@.take(old(self).consumer_table@.len() as int)
                    == old(self).consumer_table@
                &&& final(self).consumer_table@.last().0@ == group@
                &&& final(self).consumer_table@.last().1 == consumer
                &&& *final(self) == (MQClientInstance {
                    consumer_table: final(self).consumer_table,
                    ..*old(self)
                })
            },
    {
        if group.is_empty() {
            return false;
        }
        if al_contains_key(&self.consumer_table, group) {
            return false;
        }
        let ghost old_t = self.consumer_table@;
        self.consumer_table.push((group.to_owned(), consumer));
        proof {
            assert(self.consumer_table@.take(old_t.len() as int) =~= old_t);
            assert forall|i: int, j: int|
                0 <= i < j < self.consumer_table@.len() implies self.consumer_table@[i].0@
                != self.consumer_table@[j].0@ by {
                if j == old_t.len() {
                    assert(!al_has_key(old_t, group@));
                    assert(old_t[i].0@ != group@);
                }
            }
        }
        true
    }

    /// Register an admin group, as `register_producer`.
    pub fn register_admin(&mut self, group: &str, admin: AdminEntry) -> (r: bool)
        requires
            inst_wf(*old(self)),
        ensures
            inst_wf(*final(self)),
            r == (group@.len() > 0 && !al_has_key(old(self).admin_table@, group@)),
            !r ==> *final(self) == *old(self),
            r ==> {
                &&& final(self).admin_table@.len() == old(self).admin_table@.len() + 1
                &&& final(self).admin_table@.take(old(self).admin_table@.len() as int)
                    == old(self).admin_table@
                &&& final(self).admin_table@.last().0@ == group@
                &&& final(self).admin_table@.last().1 == admin
                &&& *final(self) == (MQClientInstance {
                    admin_table: final(self).admin_table,
                    ..*old(self)
                })
            },
    {
        if group.is_empty() {
            return false;
        }
        if al_contains_key(&self.admin_table, group) {
            return false;
        }
        let ghost old_t = self.admin_table@;
        self.admin_table.push((group.to_owned(), admin));
        proof {
            assert(self.admin_table@.take(old_t.len() as int) =~= old_t);
            assert forall|i: int, j: int|
                0 <= i < j < self.admin_table@.len() implies self.admin_table@[i].0@
                != self.admin_table@[j].0@ by {
                if j == old_t.len() {
                    assert(!al_has_key(old_t, group@));
                    assert(old_t[i].0@ != group@);
                }
            }
        }
        true
    }

    /// The primary-replica address a publish to `broker_name` goes to.
    pub fn find_broker_address_in_publish(&self, broker_name: &str) -> (r: Option<String>)
        ensures
            match r {
                Some(a) => broker_name@.len() > 0 && addrs_of(self.broker_addr_table@, broker_name@)
                    is Some && il_get(
                    addrs_of(self.broker_addr_table@, broker_name@)->0,
                    MASTER_ID,
                ) == Some(a@),
                None => broker_name@.len() == 0 || addrs_of(self.broker_addr_table@, broker_name@)
                    is None || il_get(
                    addrs_of(self.broker_addr_table@, broker_name@)->0,
                    MASTER_ID,
                ) is None,
            },
    {
        if broker_name.is_empty() {
            return None;
        }
        match al_get_ref(&self.broker_addr_table, broker_name) {
            None => None,
            Some(map) => {
                proof {
                    lemma_il_find_addrs_view(map@, MASTER_ID);
                }
                match il_get_ref(map, MASTER_ID) {
                    None => None,
                    Some(a) => Some(a.clone()),
                }
            },
        }
    }

    /// Whether any cached route snapshot still lists `addr`: the test that
    /// tells a failed heartbeat to a live broker from one to a broker that
    /// has left routing.
    pub fn is_broker_in_name_server(&self, addr: &str) -> (r: bool)
        ensures
            r == ns_has_addr(*self, addr@),
    {
        let n = self.topic_route_table.len();
        for i in 0..n
            invariant
                n == self.topic_route_table@.len(),
                forall|j: int|
                    0 <= j < i ==> !route_has_addr(#[trigger] self.topic_route_table@[j].1@, addr@),
        {
            if route_has_addr_exec(&self.topic_route_table[i].1, addr) {
                return true;
            }
        }
        false
    }

    /// Build the heartbeat payload: one announcement per registered
    /// producer and consumer group; subscriptions are left out of the
    /// subscription-free variant.
    pub fn prepare_heartbeat_data(&self, is_without_sub: bool) -> (hb: HeartbeatData)
        ensures
            hb@ == expected_heartbeat(*self, is_without_sub),
    {
        let mut consumer_data_set: Vec<ConsumerData> = Vec::new();
        let nc = self.consumer_table.len();
        for i in 0..nc
            invariant
                nc == self.consumer_table@.len(),
                consumer_data_set@.len() == i,
                forall|j: int|
                    0 <= j < i ==> (#[trigger] consumer_data_set@[j])@ == expected_consumer_data(
                        self.consumer_table@[j],
                        is_without_sub,
                    ),
        {
            let entry = &self.consumer_table[i].1;
            let mut subs: Vec<SubscriptionData> = Vec::new();
            if !is_without_sub {
                let ns = entry.subscriptions.len();
                for k in 0..ns
                    invariant
                        ns == entry.subscriptions@.len(),
                        subs@.len() == k,
                        forall|j: int| 0 <= j < k ==> subs@[j]@ == entry.subscriptions@[j]@,
                {
                    let s = entry.subscriptions[k].copy();
                    subs.push(s);
                }
            }
            let cd = ConsumerData {
                group_name: self.consumer_table[i].0.clone(),
                consume_type: entry.consume_type,
                message_model: entry.message_model,
                consume_from_where: entry.consume_from_where,
                subscription_data_set: subs,
                unit_mode: entry.unit_mode,
            };
            proof {
                assert(cd@.subscription_data_set =~= expected_consumer_data(
                    self.consumer_table@[i as int],
                    is_without_sub,
                ).subscription_data_set);
            }
            consumer_data_set.push(cd);
        }
        let mut producer_data_set: Vec<ProducerData> = Vec::new();
        let np = self.producer_table.len();
        for i in 0..np
            invariant
                np == self.producer_table@.len(),
                producer_data_set@.len() == i,
                forall|j: int|
                    0 <= j < i ==> (#[trigger] producer_data_set@[j])@ == (PdView {
                        group_name: self.producer_table@[j].0@,
                    }),
        {
            let pd = ProducerData { group_name: self.producer_table[i].0.clone() };
            producer_data_set.push(pd);
        }
        let hb = HeartbeatData {
            client_id: self.client_id.clone(),
            is_without_sub,
            producer_data_set,
            consumer_data_set,
        };
        proof {
            assert(hb@.producer_data_set =~= expected_heartbeat(
                *self,
                is_without_sub,
            ).producer_data_set);
            assert(hb@.consumer_data_set =~= expected_heartbeat(
                *self,
                is_without_sub,
            ).consumer_data_set);
        }
        hb
    }

    /// The target list of a full fan-out over the broker-address table.
    fn collect_heartbeat_targets(&self, consumers_empty: bool) -> (ts: Vec<HeartbeatTarget>)
        ensures
            ts@.map_values(|t: HeartbeatTarget| t@) == all_targets(
                self.broker_addr_table@,
                consumers_empty,
            ),
    {
        let mut ts: Vec<HeartbeatTarget> = Vec::new();
        let n = self.broker_addr_table.len();
        proof {
            assert(ts@.map_values(|t: HeartbeatTarget| t@) =~= all_targets(
                self.broker_addr_table@.take(0),
                consumers_empty,
            ));
        }
        for i in 0..n
            invariant
                n == self.broker_addr_table@.len(),
                ts@.map_values(|t: HeartbeatTarget| t@) == all_targets(
                    self.broker_addr_table@.take(i as int),
                    consumers_empty,
                ),
        {
            let name = &self.broker_addr_table[i].0;
            let addrs = &self.broker_addr_table[i].1;
            let ghost base = ts@.map_values(|t: HeartbeatTarget| t@);
            let na = addrs.len();
            proof {
                assert(addrs_view(addrs@).take(0) =~= addrs_view(addrs@.take(0)));
                assert(broker_targets(name@, addrs_view(addrs@).take(0), consumers_empty)
                    =~= Seq::<TargetView>::empty());
                assert(ts@.map_values(|t: HeartbeatTarget| t@) =~= base + broker_targets(
                    name@,
                    addrs_view(addrs@).take(0),
                    consumers_empty,
                ));
            }
            for k in 0..na
                invariant
                    na == addrs@.len(),
                    name@ == self.broker_addr_table@[i as int].0@,
                    0 <= i < self.broker_addr_table@.len(),
                    addrs == &self.broker_addr_table@[i as int].1,
                    ts@.map_values(|t: HeartbeatTarget| t@) == base + broker_targets(
                        name@,
                        addrs_view(addrs@).take(k as int),
                        consumers_empty,
                    ),
            {
                let id = addrs[k].0;
                let addr = &addrs[k].1;
                let ghost av = addrs_view(addrs@);
                proof {
                    assert(av.take(k + 1).drop_last() =~= av.take(k as int));
                    assert(av.take(k + 1).last() == av[k as int]);
                    assert(av[k as int] == (addrs@[k as int].0, addrs@[k as int].1@));
                }
                if !addr.as_str().is_empty() && (!consumers_empty || id == MASTER_ID) {
                    let t = HeartbeatTarget {
                        id,
                        broker_name: name.clone(),
                        addr: addr.clone(),
                    };
                    proof {
                        assert((ts@.push(t)).map_values(|x: HeartbeatTarget| x@)
                            =~= ts@.map_values(|x: HeartbeatTarget| x@).push(t@));
                        assert(ts@.map_values(|x: HeartbeatTarget| x@).push(t@) =~= base
                            + broker_targets(name@, av.take(k + 1), consumers_empty));
                    }
                    ts.push(t);
                } else {
                    proof {
                        assert(ts@.map_values(|x: HeartbeatTarget| x@) =~= base + broker_targets(
                            name@,
                            av.take(k + 1),
                            consumers_empty,
                        ));
                    }
                }
            }
            proof {
                assert(addrs_view(addrs@).take(na as int) =~= addrs_view(addrs@));
                assert(self.broker_addr_table@.take(i + 1).drop_last()
                    =~= self.broker_addr_table@.take(i as int));
                assert(self.broker_addr_table@.take(i + 1).last()
                    == self.broker_addr_table@[i as int]);
                assert(ts@.map_values(|t: HeartbeatTarget| t@) =~= all_targets(
                    self.broker_addr_table@.take(i + 1),
                    consumers_empty,
                ));
            }
        }
        proof {
            assert(self.broker_addr_table@.take(n as int) =~= self.broker_addr_table@);
        }
        ts
    }

    /// One heartbeat cycle: try the advisory lock, build the payload, and
    /// name every target. A busy lock means no work and no waiting. In the
    /// `Dispatch` case the lock stays held until `finish_heartbeat_cycle`.
    pub fn send_heartbeat_to_all_broker_with_lock(&mut self) -> (r: HeartbeatCycleOutcome)
        requires
            inst_wf(*old(self)),
        ensures
            inst_wf(*final(self)),
            old(self).heartbeat_lock_held ==> r is LockBusy && *final(self) == *old(self),
            !old(self).heartbeat_lock_held ==> match r {
                HeartbeatCycleOutcome::LockBusy => false,
                HeartbeatCycleOutcome::NothingToAnnounce => old(self).producer_table@.len() == 0
                    && old(self).consumer_table@.len() == 0 && *final(self) == *old(self),
                HeartbeatCycleOutcome::NoBrokers => (old(self).producer_table@.len() > 0
                    || old(self).consumer_table@.len() > 0)
                    && old(self).broker_addr_table@.len() == 0 && *final(self) == *old(self),
                HeartbeatCycleOutcome::Dispatch(hb, ts) => {
                    &&& (old(self).producer_table@.len() > 0 || old(self).consumer_table@.len()
                        > 0)
                    &&& old(self).broker_addr_table@.len() > 0
                    &&& hb@ == expected_heartbeat(*old(self), false)
                    &&& ts@.map_values(|t: HeartbeatTarget| t@) == all_targets(
                        old(self).broker_addr_table@,
                        old(self).consumer_table@.len() == 0,
                    )
                    &&& *final(self) == (MQClientInstance {
                        heartbeat_lock_held: true,
                        ..*old(self)
                    })
                },
            },
    {
        if self.heartbeat_lock_held {
            return HeartbeatCycleOutcome::LockBusy;
        }
        let hb = self.prepare_heartbeat_data(false);
        if self.producer_table.len() == 0 && self.consumer_table.len() == 0 {
            return HeartbeatCycleOutcome::NothingToAnnounce;
        }
        if self.broker_addr_table.len() == 0 {
            return HeartbeatCycleOutcome::NoBrokers;
        }
        let consumers_empty = self.consumer_table.len() == 0;
        let ts = self.collect_heartbeat_targets(consumers_empty);
        self.heartbeat_lock_held = true;
        HeartbeatCycleOutcome::Dispatch(hb, ts)
    }

    /// The alternate-protocol entry point; it carries the same semantics
    /// as the primary one.
    pub fn send_heartbeat_to_all_broker_with_lock_v2(&mut self, is_rebalance: bool) -> (r:
        HeartbeatCycleOutcome)
        requires
            inst_wf(*old(self)),
        ensures
            inst_wf(*final(self)),
            old(self).heartbeat_lock_held ==> r is LockBusy && *final(self) == *old(self),
            !old(self).heartbeat_lock_held ==> match r {
                HeartbeatCycleOutcome::LockBusy => false,
                HeartbeatCycleOutcome::NothingToAnnounce => old(self).producer_table@.len() == 0
                    && old(self).consumer_table@.len() == 0 && *final(self) == *old(self),
                HeartbeatCycleOutcome::NoBrokers => (old(self).producer_table@.len() > 0
                    || old(self).consumer_table@.len() > 0)
                    && old(self).broker_addr_table@.len() == 0 && *final(self) == *old(self),
                HeartbeatCycleOutcome::Dispatch(hb, ts) => {
                    &&& (old(self).producer_table@.len() > 0 || old(self).consumer_table@.len()
                        > 0)
                    &&& old(self).broker_addr_table@.len() > 0
                    &&& hb@ == expected_heartbeat(*old(self), false)
                    &&& ts@.map_values(|t: HeartbeatTarget| t@) == all_targets(
                        old(self).broker_addr_table@,
                        old(self).consumer_table@.len() == 0,
                    )
                    &&& *final(self) == (MQClientInstance {
                        heartbeat_lock_held: true,
                        ..*old(self)
                    })
                },
            },
    {
        // The rebalance hint does not alter what is announced.
        let _ = is_rebalance;
        self.send_heartbeat_to_all_broker_with_lock()
    }

    /// A single-broker heartbeat, used when a connection comes up: same
    /// advisory lock, same empty-registry short-circuit. In the `Send`
    /// case the lock stays held until `finish_heartbeat_cycle`.
    pub fn send_heartbeat_to_broker(&mut self, id: u64, broker_name: &str, addr: &str) -> (r:
        SingleHeartbeatOutcome)
        requires
            inst_wf(*old(self)),
        ensures
            inst_wf(*final(self)),
            old(self).heartbeat_lock_held ==> r is LockBusy && *final(self) == *old(self),
            !old(self).heartbeat_lock_held ==> match r {
                SingleHeartbeatOutcome::LockBusy => false,
                SingleHeartbeatOutcome::NothingToAnnounce => old(self).producer_table@.len() == 0
                    && old(self).consumer_table@.len() == 0 && *final(self) == *old(self),
                SingleHeartbeatOutcome::Send(hb) => {
                    &&& (old(self).producer_table@.len() > 0 || old(self).consumer_table@.len()
                        > 0)
                    &&& hb@ == expected_heartbeat(*old(self), false)
                    &&& *final(self) == (MQClientInstance {
                        heartbeat_lock_held: true,
                        ..*old(self)
                    })
                },
            },
    {
        // The target identifies where the caller will send; the decision
        // itself reads only the registries.
        let _ = id;
        let _ = broker_name;
        let _ = addr;
        if self.heartbeat_lock_held {
            return SingleHeartbeatOutcome::LockBusy;
        }
        let hb = self.prepare_heartbeat_data(false);
        if self.producer_table.len() == 0 && self.consumer_table.len() == 0 {
            return SingleHeartbeatOutcome::NothingToAnnounce;
        }
        self.heartbeat_lock_held = true;
        SingleHeartbeatOutcome::Send(hb)
    }

    /// Release the advisory heartbeat lock at the end of a cycle.
    pub fn finish_heartbeat_cycle(&mut self)
        ensures
            *final(self) == (MQClientInstance { heartbeat_lock_held: false, ..*old(self) }),
    {
        self.heartbeat_lock_held = false;
    }

    /// Record one successful heartbeat: remember the protocol version the
    /// broker answered with, under its name and address, and step the
    /// success counter. Returns whether this success is the one in twenty
    /// that is logged.
    pub fn record_heartbeat_success(&mut self, broker_name: &str, addr: &str, version: i32) -> (r:
        bool)
        requires
            inst_wf(*old(self)),
            old(self).send_heartbeat_times_total < u64::MAX,
        ensures
            inst_wf(*final(self)),
            r == (old(self).send_heartbeat_times_total % 20 == 0),
            final(self).send_heartbeat_times_total == old(self).send_heartbeat_times_total + 1,
            version_recorded(
                old(self).broker_version_table@,
                final(self).broker_version_table@,
                broker_name@,
                addr@,
                version,
            ),
            *final(self) == (MQClientInstance {
                broker_version_table: final(self).broker_version_table,
                send_heartbeat_times_total: final(self).send_heartbeat_times_total,
                ..*old(self)
            }),
    {
        let ghost old_t = self.broker_version_table@;
        match al_find_exec(&self.broker_version_table, broker_name) {
            Some(i) => {
                let mut entry = self.broker_version_table.remove(i);
                let ghost old_inner = entry.1@;
                proof {
                    lemma_al_find(old_t, broker_name@);
                }
                let ak = addr.to_owned();
                let ghost akg = ak;
                al_put_exec(&mut entry.1, ak, version);
                proof {
                    lemma_al_put_is_upserted(old_inner, akg, version);
                    lemma_al_put_unique(old_inner, akg, version);
                }
                self.broker_version_table.insert(i, entry);
                proof {
                    assert(self.broker_version_table@.len() == old_t.len());
                    assert forall|j: int|
                        0 <= j < old_t.len() && j != i as int implies self.broker_version_table@[j]
                        == old_t[j] by {}
                    assert forall|a: int, b: int|
                        0 <= a < b < self.broker_version_table@.len() implies self
                        .broker_version_table@[a].0@ != self.broker_version_table@[b].0@ by {
                        assert(self.broker_version_table@[a].0@ == old_t[a].0@);
                        assert(self.broker_version_table@[b].0@ == old_t[b].0@);
                    }
                }
            },
            None => {
                let mut inner: Vec<(String, i32)> = Vec::new();
                inner.push((addr.to_owned(), version));
                let ghost old_len = self.broker_version_table@.len();
                self.broker_version_table.push((broker_name.to_owned(), inner));
                proof {
                    assert(self.broker_version_table@.take(old_t.len() as int) =~= old_t);
                    assert forall|a: int, b: int|
                        0 <= a < b < self.broker_version_table@.len() implies self
                        .broker_version_table@[a].0@ != self.broker_version_table@[b].0@ by {
                        if b == old_t.len() {
                            assert(!al_has_key(old_t, broker_name@));
                            assert(old_t[a].0@ != broker_name@);
                        }
                    }
                }
            },
        }
        let times = self.send_heartbeat_times_total;
        self.send_heartbeat_times_total = times + 1;
        times % 20 == 0
    }
}

/// The broker-version table was updated at exactly one (broker, address)
/// slot; every other broker's entry is untouched, and within the broker's
/// map every other address keeps its version.
pub open spec fn version_recorded(
    old_t: Seq<(String, Vec<(String, i32)>)>,
    new_t: Seq<(String, Vec<(String, i32)>)>,
    broker: Seq<char>,
    addr: Seq<char>,
    version: i32,
) -> bool {
    if al_find(old_t, broker) == -1 {
        new_t.len() == old_t.len() + 1 && new_t.take(old_t.len() as int) == old_t
            && new_t.last().0@ == broker && new_t.last().1@.len() == 1 && new_t.last().1@[0].0@
            == addr && new_t.last().1@[0].1 == version
    } else {
        let f = al_find(old_t, broker);
        new_t.len() == old_t.len() && new_t[f].0 == old_t[f].0 && al_upserted(
            old_t[f].1@,
            new_t[f].1@,
            addr,
            version,
        ) && forall|j: int| 0 <= j < old_t.len() && j != f ==> new_t[j] == old_t[j]
    }
}

/// Whether a broker descriptor of a route lists `addr`, executable.
fn bd_has_addr_exec(bd: &BrokerData, addr: &str) -> (r: bool)
    ensures
        r == bd_has_addr(bd@, addr@),
{
    let n = bd.broker_addrs.len();
    for k in 0..n
        invariant
            n == bd.broker_addrs@.len(),
            forall|j: int| 0 <= j < k ==> bd@.broker_addrs[j].1 != addr@,
    {
        if str_eq(bd.broker_addrs[k].1.as_str(), addr) {
            proof {
                assert(bd@.broker_addrs[k as int].1 == addr@);
            }
            return true;
        }
    }
    false
}

/// Whether a route snapshot lists `addr`, executable.
fn route_has_addr_exec(rt: &TopicRouteData, addr: &str) -> (r: bool)
    ensures
        r == route_has_addr(rt@, addr@),
{
    let n = rt.broker_datas.len();
    for j in 0..n
        invariant
            n == rt.broker_datas@.len(),
            forall|i: int| 0 <= i < j ==> !bd_has_addr(#[trigger] rt@.broker_datas[i], addr@),
    {
        if bd_has_addr_exec(&rt.broker_datas[j], addr) {
            proof {
                assert(bd_has_addr(rt@.broker_datas[j as int], addr@));
            }
            return true;
        }
    }
    false
}

/// `il_find` sees the same ids through `addrs_view`.
proof fn lemma_il_find_addrs_view(v: Seq<(u64, String)>, k: u64)
    ensures
        il_find(addrs_view(v), k) == il_find(v, k),
        il_find(v, k) != -1 ==> 0 <= il_find(v, k) < v.len(),
    decreases v.len(),
{
    lemma_il_find(v, k);
    if v.len() > 0 {
        lemma_il_find_addrs_view(v.skip(1), k);
        assert(addrs_view(v).skip(1) =~= addrs_view(v.skip(1)));
        assert(addrs_view(v)[0].0 == v[0].0);
    }
}

} // verus!
