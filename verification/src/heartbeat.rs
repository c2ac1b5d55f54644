//! Heartbeat payloads and dispatch targets: what the instance announces to
//! each broker, built fresh from the registries for every cycle.
use vstd::prelude::*;

use crate::entries::{ConsumeType, MessageModel, ConsumeFromWhere, SubscriptionData, SubView};

verus! {

/// A producer group announcement.
pub struct ProducerData {
    pub group_name: String,
}

/// Mathematical image of a `ProducerData`.
pub ghost struct PdView {
    pub group_name: Seq<char>,
}

impl View for ProducerData {
    type V = PdView;

    open spec fn view(&self) -> PdView {
        PdView { group_name: self.group_name@ }
    }
}

/// A consumer group announcement, with its consumption parameters and its
/// subscription set.
pub struct ConsumerData {
    pub group_name: String,
    pub consume_type: ConsumeType,
    pub message_model: MessageModel,
    pub consume_from_where: ConsumeFromWhere,
    pub subscription_data_set: Vec<SubscriptionData>,
    pub unit_mode: bool,
}

/// Mathematical image of a `ConsumerData`.
pub ghost struct CdView {
    pub group_name: Seq<char>,
    pub consume_type: ConsumeType,
    pub message_model: MessageModel,
    pub consume_from_where: ConsumeFromWhere,
    pub subscription_data_set: Seq<SubView>,
    pub unit_mode: bool,
}

impl View for ConsumerData {
    type V = CdView;

    open spec fn view(&self) -> CdView {
        CdView {
            group_name: self.group_name@,
            consume_type: self.consume_type,
            message_model: self.message_model,
            consume_from_where: self.consume_from_where,
            subscription_data_set: self.subscription_data_set@.map_values(
                |s: SubscriptionData| s@,
            ),
            unit_mode: self.unit_mode,
        }
    }
}

/// One heartbeat payload: the client id and the announcements of every
/// registered group, built fresh per cycle.
pub struct HeartbeatData {
    pub client_id: String,
    pub is_without_sub: bool,
    pub producer_data_set: Vec<ProducerData>,
    pub consumer_data_set: Vec<ConsumerData>,
}

/// Mathematical image of a `HeartbeatData`.
pub ghost struct HbView {
    pub client_id: Seq<char>,
    pub is_without_sub: bool,
    pub producer_data_set: Seq<PdView>,
    pub consumer_data_set: Seq<CdView>,
}

impl View for HeartbeatData {
    type V = HbView;

    open spec fn view(&self) -> HbView {
        HbView {
            client_id: self.client_id@,
            is_without_sub: self.is_without_sub,
            producer_data_set: self.producer_data_set@.map_values(|p: ProducerData| p@),
            consumer_data_set: self.consumer_data_set@.map_values(|c: ConsumerData| c@),
        }
    }
}

/// One address a heartbeat is sent to: replica id, broker name, address.
pub struct HeartbeatTarget {
    pub id: u64,
    pub broker_name: String,
    pub addr: String,
}

/// Mathematical image of a `HeartbeatTarget`.
pub ghost struct TargetView {
    pub id: u64,
    pub broker_name: Seq<char>,
    pub addr: Seq<char>,
}

impl View for HeartbeatTarget {
    type V = TargetView;

    open spec fn view(&self) -> TargetView {
        TargetView { id: self.id, broker_name: self.broker_name@, addr: self.addr@ }
    }
}

} // verus!
