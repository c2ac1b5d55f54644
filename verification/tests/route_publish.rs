use mq_client_core::entries::{
    ConsumeFromWhere, ConsumeType, ConsumerEntry, MessageModel, ProducerEntry, SubscriptionData,
};
use mq_client_core::instance::{ClientConfig, MQClientInstance, ProducerConfig};
use mq_client_core::order_conf::order_conf_is_valid;
use mq_client_core::publish::{
    topic_route_data2topic_publish_info, topic_route_data2topic_subscribe_info,
};
use mq_client_core::route::{
    BrokerData, MessageQueue, QueueData, QueueEndpoint, TopicRouteData, PERM_READ, PERM_WRITE,
};

fn config() -> ClientConfig {
    ClientConfig {
        namesrv_addr: None,
        poll_name_server_interval: 30_000,
        heartbeat_broker_interval: 30_000,
        persist_consumer_offset_interval: 5_000,
        mq_client_api_timeout: 3_000,
        use_heartbeat_v2: false,
    }
}

fn qd(broker: &str, read: u32, write: u32, perm: u32) -> QueueData {
    QueueData {
        broker_name: broker.to_string(),
        read_queue_nums: read,
        write_queue_nums: write,
        perm,
    }
}

fn bd(broker: &str, addrs: Vec<(u64, &str)>) -> BrokerData {
    BrokerData {
        broker_name: broker.to_string(),
        broker_addrs: addrs.into_iter().map(|(id, a)| (id, a.to_string())).collect(),
    }
}

fn plain_route(qds: Vec<QueueData>, bds: Vec<BrokerData>) -> TopicRouteData {
    TopicRouteData {
        order_topic_conf: None,
        queue_datas: qds,
        broker_datas: bds,
        queue_mapping_endpoints: None,
    }
}

fn queue_triples(info: &[MessageQueue]) -> Vec<(String, String, u32)> {
    info.iter()
        .map(|m| (m.topic.clone(), m.broker_name.clone(), m.queue_id))
        .collect()
}

#[test]
fn publish_info_excludes_unwritable_and_primary_less_brokers() {
    // Broker A is writable and has a primary address; broker B is
    // read-only and has no broker descriptor at all.
    let route = plain_route(
        vec![qd("A", 2, 2, PERM_READ | PERM_WRITE), qd("B", 1, 1, PERM_READ)],
        vec![bd("A", vec![(0, "addrA")])],
    );
    let info = topic_route_data2topic_publish_info("t", &route);
    assert!(!info.order_topic);
    assert!(!info.have_topic_router_info);
    assert_eq!(
        queue_triples(&info.message_queue_list),
        vec![
            ("t".to_string(), "A".to_string(), 0),
            ("t".to_string(), "A".to_string(), 1),
        ]
    );
}

#[test]
fn publish_info_excludes_writable_broker_without_primary() {
    // Writable, known broker, but only a replica address: no primary, no
    // queues.
    let route = plain_route(
        vec![qd("A", 2, 2, PERM_READ | PERM_WRITE)],
        vec![bd("A", vec![(1, "replicaA")])],
    );
    let info = topic_route_data2topic_publish_info("t", &route);
    assert_eq!(info.message_queue_list.len(), 0);
}

#[test]
fn publish_info_sorts_descriptors_by_broker_name() {
    let route = plain_route(
        vec![
            qd("zeta", 1, 1, PERM_WRITE),
            qd("alpha", 1, 2, PERM_WRITE),
        ],
        vec![bd("zeta", vec![(0, "z")]), bd("alpha", vec![(0, "a")])],
    );
    let info = topic_route_data2topic_publish_info("t", &route);
    assert_eq!(
        queue_triples(&info.message_queue_list),
        vec![
            ("t".to_string(), "alpha".to_string(), 0),
            ("t".to_string(), "alpha".to_string(), 1),
            ("t".to_string(), "zeta".to_string(), 0),
        ]
    );
}

#[test]
fn order_topic_conf_yields_queues_in_textual_order() {
    let route = TopicRouteData {
        order_topic_conf: Some("brokerX:3;brokerY:2".to_string()),
        queue_datas: vec![],
        broker_datas: vec![],
        queue_mapping_endpoints: None,
    };
    let info = topic_route_data2topic_publish_info("ord", &route);
    assert!(info.order_topic);
    assert_eq!(
        queue_triples(&info.message_queue_list),
        vec![
            ("ord".to_string(), "brokerX".to_string(), 0),
            ("ord".to_string(), "brokerX".to_string(), 1),
            ("ord".to_string(), "brokerX".to_string(), 2),
            ("ord".to_string(), "brokerY".to_string(), 0),
            ("ord".to_string(), "brokerY".to_string(), 1),
        ]
    );
}

#[test]
fn order_conf_validity_and_odd_segments() {
    assert!(order_conf_is_valid("brokerX:3;brokerY:2"));
    assert!(order_conf_is_valid(""));
    // A segment without exactly one colon is skipped, not an error.
    assert!(order_conf_is_valid("bX:2;junk;bY:1"));
    assert!(order_conf_is_valid("a:b:c"));
    // A colon followed by anything but an in-range number is invalid.
    assert!(!order_conf_is_valid("broker:x"));
    assert!(!order_conf_is_valid("broker:"));
    assert!(!order_conf_is_valid("broker:2147483648"));
    assert!(order_conf_is_valid("broker:2147483647"));
    assert!(order_conf_is_valid("broker:-3"));

    let route = TopicRouteData {
        order_topic_conf: Some("bX:2;junk;bY:1".to_string()),
        queue_datas: vec![],
        broker_datas: vec![],
        queue_mapping_endpoints: None,
    };
    let info = topic_route_data2topic_publish_info("t", &route);
    assert_eq!(
        queue_triples(&info.message_queue_list),
        vec![
            ("t".to_string(), "bX".to_string(), 0),
            ("t".to_string(), "bX".to_string(), 1),
            ("t".to_string(), "bY".to_string(), 0),
        ]
    );

    // A negative count parses and enumerates nothing.
    let route = TopicRouteData {
        order_topic_conf: Some("bX:-3;bY:1".to_string()),
        queue_datas: vec![],
        broker_datas: vec![],
        queue_mapping_endpoints: None,
    };
    let info = topic_route_data2topic_publish_info("t", &route);
    assert_eq!(
        queue_triples(&info.message_queue_list),
        vec![("t".to_string(), "bY".to_string(), 0)]
    );
}

#[test]
fn static_topic_mapping_sorts_by_queue_id() {
    let eps = vec![
        QueueEndpoint {
            queue: MessageQueue::from_parts("st", "b2", 1),
            broker_name: "b2".to_string(),
        },
        QueueEndpoint {
            queue: MessageQueue::from_parts("st", "b1", 0),
            broker_name: "b1".to_string(),
        },
    ];
    let route = TopicRouteData {
        order_topic_conf: None,
        queue_datas: vec![],
        broker_datas: vec![],
        queue_mapping_endpoints: Some(eps),
    };
    let info = topic_route_data2topic_publish_info("st", &route);
    assert!(!info.order_topic);
    assert_eq!(
        queue_triples(&info.message_queue_list),
        vec![
            ("st".to_string(), "b1".to_string(), 0),
            ("st".to_string(), "b2".to_string(), 1),
        ]
    );
}

#[test]
fn subscribe_info_enumerates_readable_descriptors() {
    let route = plain_route(
        vec![qd("A", 2, 4, PERM_READ | PERM_WRITE), qd("B", 3, 3, PERM_WRITE)],
        vec![],
    );
    let qs = topic_route_data2topic_subscribe_info("t", &route);
    // B is write-only: invisible for consumption.
    assert_eq!(
        queue_triples(&qs),
        vec![
            ("t".to_string(), "A".to_string(), 0),
            ("t".to_string(), "A".to_string(), 1),
        ]
    );
}

#[test]
fn route_change_detection_is_monotonic() {
    let mut inst = MQClientInstance::new("cid-r1".to_string(), 0, config());
    let route = plain_route(
        vec![qd("A", 2, 2, PERM_READ | PERM_WRITE)],
        vec![bd("A", vec![(0, "addrA")])],
    );
    let first = inst.update_topic_route_info_from_name_server_topic("t", Some(route.copy()));
    assert!(first);
    // The identical snapshot again: no change.
    let second = inst.update_topic_route_info_from_name_server_topic("t", Some(route.copy()));
    assert!(!second);
    // No snapshot at all: unchanged, try again next cycle.
    assert!(!inst.update_topic_route_info_from_name_server_topic("t", None));
    // A structurally different snapshot is a change again.
    let bigger = plain_route(
        vec![qd("A", 3, 3, PERM_READ | PERM_WRITE)],
        vec![bd("A", vec![(0, "addrA")])],
    );
    assert!(inst.update_topic_route_info_from_name_server_topic("t", Some(bigger)));
}

#[test]
fn route_change_propagates_to_producers_and_consumers() {
    let mut inst = MQClientInstance::new("cid-r2".to_string(), 0, config());
    assert!(inst.register_producer("pg", ProducerEntry::new()));
    let consumer = ConsumerEntry::new(
        ConsumeType::ConsumePassively,
        MessageModel::Clustering,
        ConsumeFromWhere::ConsumeFromLastOffset,
        false,
        vec![SubscriptionData { topic: "t".to_string(), sub_string: "*".to_string() }],
    );
    assert!(inst.register_consumer("cg", consumer));
    assert!(inst.producer_table[0].1.is_publish_topic_need_update("t"));
    assert!(inst.consumer_table[0].1.is_subscribe_topic_need_update("t"));

    let route = plain_route(
        vec![qd("A", 2, 2, PERM_READ | PERM_WRITE)],
        vec![bd("A", vec![(0, "addrA"), (1, "addrA2")])],
    );
    assert!(inst.update_topic_route_info_from_name_server_topic("t", Some(route)));

    // The producer received usable publish info.
    assert!(!inst.producer_table[0].1.is_publish_topic_need_update("t"));
    let stored = &inst.producer_table[0].1.publish_table;
    assert_eq!(stored.len(), 1);
    assert_eq!(stored[0].0, "t");
    assert!(stored[0].1.have_topic_router_info);
    assert_eq!(stored[0].1.message_queue_list.len(), 2);

    // The consumer received the subscribe-side queues of its topic.
    assert!(!inst.consumer_table[0].1.is_subscribe_topic_need_update("t"));
    let sub = &inst.consumer_table[0].1.subscribe_table;
    assert_eq!(sub.len(), 1);
    assert_eq!(sub[0].0, "t");
    assert_eq!(sub[0].1.len(), 2);

    // The broker-address table was merged and the snapshot cached.
    assert_eq!(inst.broker_addr_table.len(), 1);
    assert_eq!(inst.broker_addr_table[0].0, "A");
    assert_eq!(inst.broker_addr_table[0].1.len(), 2);
    assert_eq!(inst.topic_route_table.len(), 1);
}

#[test]
fn default_topic_resolution_applies_queue_floor() {
    let mut inst = MQClientInstance::new("cid-r3".to_string(), 0, config());
    let route = plain_route(
        vec![qd("A", 2, 8, PERM_READ | PERM_WRITE)],
        vec![bd("A", vec![(0, "addrA")])],
    );
    let pc = ProducerConfig { default_topic_queue_nums: 4 };
    assert!(inst.update_topic_route_info_from_name_server_default(
        "t",
        true,
        Some(&pc),
        Some(route),
    ));
    // max(4, read=2) = 4 becomes both the read and the write count.
    let cached = &inst.topic_route_table[0].1;
    assert_eq!(cached.queue_datas[0].read_queue_nums, 4);
    assert_eq!(cached.queue_datas[0].write_queue_nums, 4);
}

#[test]
fn lookups_find_primary_and_endpoint_brokers() {
    let mut inst = MQClientInstance::new("cid-r4".to_string(), 0, config());
    let route = plain_route(
        vec![qd("A", 1, 1, PERM_READ | PERM_WRITE)],
        vec![bd("A", vec![(0, "primaryA"), (1, "replicaA")]), bd("B", vec![(1, "replicaB")])],
    );
    assert!(inst.update_topic_route_info_from_name_server_topic("t", Some(route)));
    assert_eq!(inst.find_broker_address_in_publish("A"), Some("primaryA".to_string()));
    assert_eq!(inst.find_broker_address_in_publish("B"), None);
    assert_eq!(inst.find_broker_address_in_publish("C"), None);
    assert_eq!(inst.find_broker_address_in_publish(""), None);

    // Without an endpoint mapping the queue's own broker name answers.
    let mq = MessageQueue::from_parts("t", "A", 0);
    assert_eq!(inst.get_broker_name_from_message_queue(&mq), "A");

    // With a static-topic mapping the mapped broker answers.
    let eps = vec![QueueEndpoint {
        queue: MessageQueue::from_parts("st", "logical", 0),
        broker_name: "physical".to_string(),
    }];
    let static_route = TopicRouteData {
        order_topic_conf: None,
        queue_datas: vec![],
        broker_datas: vec![],
        queue_mapping_endpoints: Some(eps),
    };
    assert!(inst.update_topic_route_info_from_name_server_topic("st", Some(static_route)));
    let mapped = MessageQueue::from_parts("st", "logical", 0);
    assert_eq!(inst.get_broker_name_from_message_queue(&mapped), "physical");
    let unmapped = MessageQueue::from_parts("st", "logical", 7);
    assert_eq!(inst.get_broker_name_from_message_queue(&unmapped), "logical");
}

#[test]
fn clean_offline_broker_prunes_vanished_addresses() {
    let mut inst = MQClientInstance::new("cid-r5".to_string(), 0, config());
    // The cached routes list only addrA as a live address.
    let route = plain_route(
        vec![qd("A", 1, 1, PERM_READ | PERM_WRITE)],
        vec![bd("A", vec![(0, "addrA")])],
    );
    assert!(inst.update_topic_route_info_from_name_server_topic("t", Some(route)));
    // By hand, age the broker table: one stale replica and one stale
    // broker.
    inst.broker_addr_table = vec![
        (
            "A".to_string(),
            vec![(0u64, "addrA".to_string()), (1u64, "gone".to_string())],
        ),
        ("B".to_string(), vec![(0u64, "vanished".to_string())]),
    ];
    inst.clean_offline_broker();
    assert_eq!(inst.broker_addr_table.len(), 1);
    assert_eq!(inst.broker_addr_table[0].0, "A");
    assert_eq!(inst.broker_addr_table[0].1, vec![(0u64, "addrA".to_string())]);
}
