use mq_client_core::entries::{
    ConsumeFromWhere, ConsumeType, ConsumerEntry, MessageModel, ProducerEntry, SubscriptionData,
};
use mq_client_core::instance::{
    ClientConfig, HeartbeatCycleOutcome, MQClientInstance, SingleHeartbeatOutcome,
};
use mq_client_core::route::{BrokerData, QueueData, TopicRouteData, PERM_READ, PERM_WRITE};
use mq_client_core::scheduler::{
    next_execution_time, residual_delay, ScheduledTask,
};

fn config() -> ClientConfig {
    ClientConfig {
        namesrv_addr: None,
        poll_name_server_interval: 30_000,
        heartbeat_broker_interval: 20_000,
        persist_consumer_offset_interval: 5_000,
        mq_client_api_timeout: 3_000,
        use_heartbeat_v2: false,
    }
}

fn consumer(topic: &str) -> ConsumerEntry {
    ConsumerEntry::new(
        ConsumeType::ConsumePassively,
        MessageModel::Clustering,
        ConsumeFromWhere::ConsumeFromLastOffset,
        false,
        vec![SubscriptionData { topic: topic.to_string(), sub_string: "*".to_string() }],
    )
}

fn with_broker(inst: &mut MQClientInstance) {
    let route = TopicRouteData {
        order_topic_conf: None,
        queue_datas: vec![QueueData {
            broker_name: "b".to_string(),
            read_queue_nums: 1,
            write_queue_nums: 1,
            perm: PERM_READ | PERM_WRITE,
        }],
        broker_datas: vec![BrokerData {
            broker_name: "b".to_string(),
            broker_addrs: vec![(0u64, "p".to_string()), (1u64, "r".to_string())],
        }],
        queue_mapping_endpoints: None,
    };
    assert!(inst.update_topic_route_info_from_name_server_topic("t", Some(route)));
}

#[test]
fn fanout_reaches_only_primary_without_consumers() {
    let mut inst = MQClientInstance::new("hb-1".to_string(), 0, config());
    assert!(inst.register_producer("pg", ProducerEntry::new()));
    with_broker(&mut inst);
    match inst.send_heartbeat_to_all_broker_with_lock() {
        HeartbeatCycleOutcome::Dispatch(hb, targets) => {
            assert_eq!(hb.client_id, "hb-1");
            assert_eq!(hb.producer_data_set.len(), 1);
            assert_eq!(hb.producer_data_set[0].group_name, "pg");
            assert_eq!(hb.consumer_data_set.len(), 0);
            // Exactly one send, to the primary replica.
            assert_eq!(targets.len(), 1);
            assert_eq!(targets[0].id, 0);
            assert_eq!(targets[0].broker_name, "b");
            assert_eq!(targets[0].addr, "p");
        },
        _ => panic!("expected a dispatch"),
    }
    inst.finish_heartbeat_cycle();
}

#[test]
fn fanout_reaches_every_replica_with_a_consumer() {
    let mut inst = MQClientInstance::new("hb-2".to_string(), 0, config());
    assert!(inst.register_producer("pg", ProducerEntry::new()));
    assert!(inst.register_consumer("cg", consumer("t")));
    with_broker(&mut inst);
    match inst.send_heartbeat_to_all_broker_with_lock() {
        HeartbeatCycleOutcome::Dispatch(hb, targets) => {
            assert_eq!(hb.consumer_data_set.len(), 1);
            assert_eq!(hb.consumer_data_set[0].group_name, "cg");
            assert_eq!(hb.consumer_data_set[0].subscription_data_set.len(), 1);
            assert_eq!(hb.consumer_data_set[0].subscription_data_set[0].topic, "t");
            // Two sends: both replicas.
            assert_eq!(targets.len(), 2);
            assert_eq!(targets[0].addr, "p");
            assert_eq!(targets[1].addr, "r");
        },
        _ => panic!("expected a dispatch"),
    }
    inst.finish_heartbeat_cycle();
}

#[test]
fn heartbeat_lock_is_advisory() {
    let mut inst = MQClientInstance::new("hb-3".to_string(), 0, config());
    assert!(inst.register_producer("pg", ProducerEntry::new()));
    with_broker(&mut inst);
    // First cycle acquires the lock and dispatches.
    assert!(matches!(
        inst.send_heartbeat_to_all_broker_with_lock(),
        HeartbeatCycleOutcome::Dispatch(..)
    ));
    // A cycle invoked while one is in flight backs off at once, sending
    // nothing and changing nothing.
    let brokers_before = inst.broker_version_table.len();
    assert!(matches!(
        inst.send_heartbeat_to_all_broker_with_lock(),
        HeartbeatCycleOutcome::LockBusy
    ));
    assert!(matches!(
        inst.send_heartbeat_to_broker(0, "b", "p"),
        SingleHeartbeatOutcome::LockBusy
    ));
    assert_eq!(inst.broker_version_table.len(), brokers_before);
    // After the cycle finishes, dispatch works again.
    inst.finish_heartbeat_cycle();
    assert!(matches!(
        inst.send_heartbeat_to_all_broker_with_lock(),
        HeartbeatCycleOutcome::Dispatch(..)
    ));
    inst.finish_heartbeat_cycle();
}

#[test]
fn heartbeat_with_nothing_to_announce_or_no_brokers() {
    let mut inst = MQClientInstance::new("hb-4".to_string(), 0, config());
    assert!(matches!(
        inst.send_heartbeat_to_all_broker_with_lock(),
        HeartbeatCycleOutcome::NothingToAnnounce
    ));
    assert!(!inst.heartbeat_lock_held);
    assert!(inst.register_producer("pg", ProducerEntry::new()));
    assert!(matches!(
        inst.send_heartbeat_to_all_broker_with_lock(),
        HeartbeatCycleOutcome::NoBrokers
    ));
    assert!(!inst.heartbeat_lock_held);
}

#[test]
fn heartbeat_v2_entry_point_carries_v1_semantics() {
    let mut inst = MQClientInstance::new("hb-5".to_string(), 0, config());
    assert!(inst.register_producer("pg", ProducerEntry::new()));
    with_broker(&mut inst);
    match inst.send_heartbeat_to_all_broker_with_lock_v2(false) {
        HeartbeatCycleOutcome::Dispatch(_, targets) => {
            assert_eq!(targets.len(), 1);
        },
        _ => panic!("expected a dispatch"),
    }
    inst.finish_heartbeat_cycle();
}

#[test]
fn heartbeat_success_updates_only_its_version_slot() {
    let mut inst = MQClientInstance::new("hb-6".to_string(), 0, config());
    // First success of all is the logged one (1 in 20).
    assert!(inst.record_heartbeat_success("b", "p", 355));
    assert!(!inst.record_heartbeat_success("b", "r", 356));
    assert_eq!(inst.send_heartbeat_times_total, 2);
    assert_eq!(inst.broker_version_table.len(), 1);
    assert_eq!(inst.broker_version_table[0].0, "b");
    assert_eq!(
        inst.broker_version_table[0].1,
        vec![("p".to_string(), 355), ("r".to_string(), 356)]
    );
    // Overwriting one address never clears the other entries of the same
    // broker, nor other brokers.
    assert!(!inst.record_heartbeat_success("c", "q", 400));
    assert!(!inst.record_heartbeat_success("b", "p", 357));
    assert_eq!(
        inst.broker_version_table[0].1,
        vec![("p".to_string(), 357), ("r".to_string(), 356)]
    );
    assert_eq!(inst.broker_version_table[1].0, "c");
    assert_eq!(inst.broker_version_table[1].1, vec![("q".to_string(), 400)]);
    assert_eq!(inst.send_heartbeat_times_total, 4);
}

#[test]
fn single_target_heartbeat_obeys_empty_registry_short_circuit() {
    let mut inst = MQClientInstance::new("hb-7".to_string(), 0, config());
    assert!(matches!(
        inst.send_heartbeat_to_broker(0, "b", "p"),
        SingleHeartbeatOutcome::NothingToAnnounce
    ));
    assert!(!inst.heartbeat_lock_held);
    assert!(inst.register_producer("pg", ProducerEntry::new()));
    match inst.send_heartbeat_to_broker(0, "b", "p") {
        SingleHeartbeatOutcome::Send(hb) => {
            assert_eq!(hb.producer_data_set.len(), 1);
        },
        _ => panic!("expected a send"),
    }
    assert!(inst.heartbeat_lock_held);
    inst.finish_heartbeat_cycle();
}

#[test]
fn without_sub_variant_omits_subscriptions() {
    let mut inst = MQClientInstance::new("hb-8".to_string(), 0, config());
    assert!(inst.register_consumer("cg", consumer("t")));
    let with_sub = inst.prepare_heartbeat_data(false);
    assert!(!with_sub.is_without_sub);
    assert_eq!(with_sub.consumer_data_set[0].subscription_data_set.len(), 1);
    let without = inst.prepare_heartbeat_data(true);
    assert!(without.is_without_sub);
    assert_eq!(without.consumer_data_set[0].subscription_data_set.len(), 0);
}

#[test]
fn failed_heartbeat_classification_follows_routing() {
    let mut inst = MQClientInstance::new("hb-9".to_string(), 0, config());
    with_broker(&mut inst);
    // "p" is listed by a cached route: a failure there is a delivery
    // failure to a broker believed reachable.
    assert!(inst.is_broker_in_name_server("p"));
    // An address no route lists belongs to a broker already departed.
    assert!(!inst.is_broker_in_name_server("nowhere"));
}

#[test]
fn connected_brokers_finds_every_pair_with_the_address() {
    let mut inst = MQClientInstance::new("hb-10".to_string(), 0, config());
    with_broker(&mut inst);
    let ts = inst.connected_brokers("r");
    assert_eq!(ts.len(), 1);
    assert_eq!(ts[0].id, 1);
    assert_eq!(ts[0].broker_name, "b");
    let none = inst.connected_brokers("unknown");
    assert_eq!(none.len(), 0);
}

#[test]
fn scheduler_cadence_arithmetic() {
    // Deadline scheduling: next start is one interval after the last
    // start, and the sleep is the residual, clamped at zero.
    assert_eq!(next_execution_time(100, 50), 150);
    assert_eq!(residual_delay(150, 120), 30);
    assert_eq!(residual_delay(150, 150), 0);
    assert_eq!(residual_delay(150, 200), 0);

    let cfg = config();
    let t1 = ScheduledTask::FetchNameServerAddr;
    let t2 = ScheduledTask::UpdateTopicRouteInfo;
    let t3 = ScheduledTask::SendHeartbeat;
    let t4 = ScheduledTask::PersistConsumerOffset;
    assert_eq!(t1.initial_delay_millis(), 10_000);
    assert_eq!(t2.initial_delay_millis(), 10);
    assert_eq!(t3.initial_delay_millis(), 1_000);
    assert_eq!(t4.initial_delay_millis(), 10_000);
    assert_eq!(t1.interval_millis(&cfg), 120_000);
    assert_eq!(t2.interval_millis(&cfg), 30_000);
    assert_eq!(t3.interval_millis(&cfg), 20_000);
    assert_eq!(t4.interval_millis(&cfg), 5_000);

    // The n-th start stays on the fixed cadence when every cycle fits in
    // its interval: simulate three cycles with varying durations.
    let first: u64 = 1_000;
    let interval: u64 = 20_000;
    let durations: [u64; 3] = [5_000, 19_999, 0];
    let mut start = first;
    for (n, d) in durations.iter().enumerate() {
        assert_eq!(start, first + (n as u64) * interval);
        let finish = start + d;
        let next = next_execution_time(start, interval);
        let sleep = residual_delay(next, finish);
        start = finish + sleep;
    }
    assert_eq!(start, first + 3 * interval);
}
