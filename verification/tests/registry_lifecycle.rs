use mq_client_core::entries::{
    AdminEntry, ConsumeFromWhere, ConsumeType, ConsumerEntry, MessageModel, ProducerEntry,
    SubscriptionData,
};
use mq_client_core::instance::{ClientConfig, MQClientInstance, StartOutcome};
use mq_client_core::ServiceState;

fn config() -> ClientConfig {
    ClientConfig {
        namesrv_addr: None,
        poll_name_server_interval: 30_000,
        heartbeat_broker_interval: 30_000,
        persist_consumer_offset_interval: 5_000,
        mq_client_api_timeout: 3_000,
        use_heartbeat_v2: false,
    }
}

fn consumer(topic: &str) -> ConsumerEntry {
    ConsumerEntry::new(
        ConsumeType::ConsumePassively,
        MessageModel::Clustering,
        ConsumeFromWhere::ConsumeFromLastOffset,
        false,
        vec![SubscriptionData { topic: topic.to_string(), sub_string: "*".to_string() }],
    )
}

#[test]
fn register_producer_is_idempotent_reject() {
    let mut inst = MQClientInstance::new("cid-1".to_string(), 0, config());
    assert!(inst.register_producer("g1", ProducerEntry::new()));
    assert_eq!(inst.producer_table.len(), 1);
    // The second registration of the same group is rejected and nothing
    // changes.
    assert!(!inst.register_producer("g1", ProducerEntry::new()));
    assert_eq!(inst.producer_table.len(), 1);
    assert_eq!(inst.producer_table[0].0, "g1");
}

#[test]
fn register_rejects_empty_group() {
    let mut inst = MQClientInstance::new("cid-2".to_string(), 0, config());
    assert!(!inst.register_producer("", ProducerEntry::new()));
    assert!(!inst.register_consumer("", consumer("t")));
    assert!(!inst.register_admin("", AdminEntry::new()));
    assert_eq!(inst.producer_table.len(), 0);
    assert_eq!(inst.consumer_table.len(), 0);
    assert_eq!(inst.admin_table.len(), 0);
}

#[test]
fn register_consumer_and_admin_idempotent_reject() {
    let mut inst = MQClientInstance::new("cid-3".to_string(), 0, config());
    assert!(inst.register_consumer("cg", consumer("topicA")));
    assert!(!inst.register_consumer("cg", consumer("topicB")));
    assert_eq!(inst.consumer_table.len(), 1);
    assert!(inst.register_admin("ag", AdminEntry::new()));
    assert!(!inst.register_admin("ag", AdminEntry::new()));
    assert_eq!(inst.admin_table.len(), 1);
}

#[test]
fn distinct_groups_coexist() {
    let mut inst = MQClientInstance::new("cid-4".to_string(), 0, config());
    assert!(inst.register_producer("g1", ProducerEntry::new()));
    assert!(inst.register_producer("g2", ProducerEntry::new()));
    assert_eq!(inst.producer_table.len(), 2);
}

#[test]
fn start_runs_steps_once_then_noop() {
    let mut inst = MQClientInstance::new("cid-5".to_string(), 0, config());
    assert_eq!(inst.service_state, ServiceState::CreateJust);
    let first = inst.start();
    assert!(matches!(first, StartOutcome::RunSteps));
    // Fail-fast default until the steps report back.
    assert_eq!(inst.service_state, ServiceState::StartFailed);
    inst.finish_start(true);
    assert_eq!(inst.service_state, ServiceState::Running);
    // A second start on a running instance is a safe no-op.
    assert!(matches!(inst.start(), StartOutcome::Noop));
    assert_eq!(inst.service_state, ServiceState::Running);
    assert!(matches!(inst.start(), StartOutcome::Noop));
}

#[test]
fn start_after_failure_is_rejected_without_side_effects() {
    let mut inst = MQClientInstance::new("cid-6".to_string(), 0, config());
    assert!(matches!(inst.start(), StartOutcome::RunSteps));
    inst.finish_start(false);
    assert_eq!(inst.service_state, ServiceState::StartFailed);
    match inst.start() {
        StartOutcome::Failed(e) => {
            assert_eq!(e.code, -1);
            assert_eq!(
                e.message,
                "The Factory object[cid-6] has been created before, and failed."
            );
        },
        _ => panic!("expected the designated failure"),
    }
    assert_eq!(inst.service_state, ServiceState::StartFailed);
    assert_eq!(inst.producer_table.len(), 0);
}

#[test]
fn start_on_shutdown_instance_is_noop() {
    let mut inst = MQClientInstance::new("cid-7".to_string(), 0, config());
    inst.service_state = ServiceState::ShutdownAlready;
    assert!(matches!(inst.start(), StartOutcome::Noop));
    assert_eq!(inst.service_state, ServiceState::ShutdownAlready);
}
