//! Registered client handles: what a producer, consumer or admin client
//! exposes to the instance, held as plain records in the registries.
use vstd::prelude::*;

use crate::alist::{al_find, al_get, al_has_key, al_unique, al_put_exec, lemma_al_find, lemma_al_put_unique};
use crate::publish::{TopicPublishInfo, PubInfoView, pubinfo_ok};
use crate::route::{MessageQueue, MqView};
use crate::strutil::str_eq;

verus! {

/// How a consumer obtains messages.
#[derive(Clone, Copy, PartialEq, Eq, Structural, Debug)]
pub enum ConsumeType {
    ConsumeActively,
    ConsumePassively,
}

/// Whether a group shares queues or every member reads them all.
#[derive(Clone, Copy, PartialEq, Eq, Structural, Debug)]
pub enum MessageModel {
    Broadcasting,
    Clustering,
}

/// Where a fresh consumer group starts reading.
#[derive(Clone, Copy, PartialEq, Eq, Structural, Debug)]
pub enum ConsumeFromWhere {
    ConsumeFromLastOffset,
    ConsumeFromFirstOffset,
    ConsumeFromTimestamp,
}

/// One subscription of a consumer: a topic and its filter expression.
pub struct SubscriptionData {
    pub topic: String,
    pub sub_string: String,
}

/// Mathematical image of a `SubscriptionData`.
pub ghost struct SubView {
    pub topic: Seq<char>,
    pub sub_string: Seq<char>,
}

impl View for SubscriptionData {
    type V = SubView;

    open spec fn view(&self) -> SubView {
        SubView { topic: self.topic@, sub_string: self.sub_string@ }
    }
}

impl SubscriptionData {
    /// A field-by-field copy.
    pub fn copy(&self) -> (r: SubscriptionData)
        ensures
            r@ == self@,
    {
        SubscriptionData { topic: self.topic.clone(), sub_string: self.sub_string.clone() }
    }
}

/// The publish table of one entry is upserted under `k` with a value whose
/// view is `iv`; every other entry is untouched.
pub open spec fn pub_table_upserted(
    old_t: Seq<(String, TopicPublishInfo)>,
    new_t: Seq<(String, TopicPublishInfo)>,
    k: Seq<char>,
    iv: PubInfoView,
) -> bool {
    if al_find(old_t, k) == -1 {
        new_t.len() == old_t.len() + 1 && new_t.take(old_t.len() as int) == old_t
            && new_t.last().0@ == k && new_t.last().1@ == iv
    } else {
        let f = al_find(old_t, k);
        new_t.len() == old_t.len() && new_t[f].0@ == k && new_t[f].1@ == iv && forall|j: int|
            0 <= j < old_t.len() && j != f ==> new_t[j] == old_t[j]
    }
}

/// A registered producer handle: the publish info it has received, by
/// topic.
pub struct ProducerEntry {
    pub publish_table: Vec<(String, TopicPublishInfo)>,
}

/// A producer entry keeps its topics unique.
pub open spec fn pe_wf(p: ProducerEntry) -> bool {
    al_unique(p.publish_table@)
}

/// A producer still needs route data for `topic` when it has none, or what
/// it has lists no queue.
pub open spec fn pe_need_update(p: ProducerEntry, topic: Seq<char>) -> bool {
    match al_get(p.publish_table@, topic) {
        None => true,
        Some(info) => !pubinfo_ok(info@),
    }
}

impl ProducerEntry {
    /// A fresh handle that has received nothing yet.
    pub fn new() -> (r: ProducerEntry)
        ensures
            r.publish_table@.len() == 0,
            pe_wf(r),
    {
        ProducerEntry { publish_table: Vec::new() }
    }

    /// Whether this producer still needs route data for `topic`.
    pub fn is_publish_topic_need_update(&self, topic: &str) -> (r: bool)
        ensures
            r == pe_need_update(*self, topic@),
    {
        match crate::alist::al_get_ref(&self.publish_table, topic) {
            None => true,
            Some(info) => !info.ok(),
        }
    }

    /// Receive fresh publish info for `topic`; nothing is removed when none
    /// is handed over.
    pub fn update_topic_publish_info(&mut self, topic: &str, info: Option<TopicPublishInfo>)
        requires
            pe_wf(*old(self)),
        ensures
            pe_wf(*final(self)),
            match info {
                Some(i) => pub_table_upserted(
                    old(self).publish_table@,
                    final(self).publish_table@,
                    topic@,
                    i@,
                ),
                None => *final(self) == *old(self),
            },
    {
        match info {
            Some(i) => {
                let ghost iv = i@;
                let ghost old_t = self.publish_table@;
                let k = topic.to_owned();
                proof {
                    lemma_al_put_unique(old_t, k, i);
                    lemma_al_find(old_t, k@);
                }
                al_put_exec(&mut self.publish_table, k, i);
                proof {
                    if al_find(old_t, topic@) == -1 {
                        assert(self.publish_table@.take(old_t.len() as int) =~= old_t);
                    }
                }
            },
            None => {},
        }
    }
}

/// The subscribe table of one entry is upserted under `k` with a queue list
/// whose views read `qv`; every other entry is untouched.
pub open spec fn sub_table_upserted(
    old_t: Seq<(String, Vec<MessageQueue>)>,
    new_t: Seq<(String, Vec<MessageQueue>)>,
    k: Seq<char>,
    qv: Seq<MqView>,
) -> bool {
    if al_find(old_t, k) == -1 {
        new_t.len() == old_t.len() + 1 && new_t.take(old_t.len() as int) == old_t
            && new_t.last().0@ == k && new_t.last().1@.map_values(|m: MessageQueue| m@) == qv
    } else {
        let f = al_find(old_t, k);
        new_t.len() == old_t.len() && new_t[f].0@ == k && new_t[f].1@.map_values(
            |m: MessageQueue| m@,
        ) == qv && forall|j: int| 0 <= j < old_t.len() && j != f ==> new_t[j] == old_t[j]
    }
}

/// A registered consumer handle: its consumption parameters, its
/// subscriptions, and the subscribe info it has received, by topic.
pub struct ConsumerEntry {
    pub consume_type: ConsumeType,
    pub message_model: MessageModel,
    pub consume_from_where: ConsumeFromWhere,
    pub unit_mode: bool,
    pub subscriptions: Vec<SubscriptionData>,
    pub subscribe_table: Vec<(String, Vec<MessageQueue>)>,
}

/// A consumer entry keeps its topics unique.
pub open spec fn ce_wf(c: ConsumerEntry) -> bool {
    al_unique(c.subscribe_table@)
}

/// Whether the consumer subscribes to `topic`.
pub open spec fn ce_subscribed(c: ConsumerEntry, topic: Seq<char>) -> bool {
    exists|i: int| 0 <= i < c.subscriptions@.len() && c.subscriptions@[i].topic@ == topic
}

/// A consumer still needs route data for a topic it subscribes to but has
/// no queues for.
pub open spec fn ce_need_update(c: ConsumerEntry, topic: Seq<char>) -> bool {
    ce_subscribed(c, topic) && !al_has_key(c.subscribe_table@, topic)
}

impl ConsumerEntry {
    /// A fresh handle with the given parameters and subscriptions.
    pub fn new(
        consume_type: ConsumeType,
        message_model: MessageModel,
        consume_from_where: ConsumeFromWhere,
        unit_mode: bool,
        subscriptions: Vec<SubscriptionData>,
    ) -> (r: ConsumerEntry)
        ensures
            r.consume_type == consume_type,
            r.message_model == message_model,
            r.consume_from_where == consume_from_where,
            r.unit_mode == unit_mode,
            r.subscriptions == subscriptions,
            r.subscribe_table@.len() == 0,
            ce_wf(r),
    {
        ConsumerEntry {
            consume_type,
            message_model,
            consume_from_where,
            unit_mode,
            subscriptions,
            subscribe_table: Vec::new(),
        }
    }

    /// Whether the consumer subscribes to `topic`.
    pub fn subscribed(&self, topic: &str) -> (r: bool)
        ensures
            r == ce_subscribed(*self, topic@),
    {
        let n = self.subscriptions.len();
        for i in 0..n
            invariant
                n == self.subscriptions@.len(),
                forall|j: int| 0 <= j < i ==> self.subscriptions@[j].topic@ != topic@,
        {
            if str_eq(self.subscriptions[i].topic.as_str(), topic) {
                return true;
            }
        }
        false
    }

    /// Whether this consumer still needs route data for `topic`.
    pub fn is_subscribe_topic_need_update(&self, topic: &str) -> (r: bool)
        ensures
            r == ce_need_update(*self, topic@),
    {
        if !self.subscribed(topic) {
            return false;
        }
        !crate::alist::al_contains_key(&self.subscribe_table, topic)
    }

    /// Receive the subscribe-side queues of `topic`; an update for a topic
    /// this consumer never asked about is ignored.
    pub fn update_topic_subscribe_info(&mut self, topic: &str, qs: &Vec<MessageQueue>)
        requires
            ce_wf(*old(self)),
        ensures
            ce_wf(*final(self)),
            !ce_subscribed(*old(self), topic@) ==> *final(self) == *old(self),
            ce_subscribed(*old(self), topic@) ==> {
                &&& sub_table_upserted(
                    old(self).subscribe_table@,
                    final(self).subscribe_table@,
                    topic@,
                    qs@.map_values(|m: MessageQueue| m@),
                )
                &&& final(self).consume_type == old(self).consume_type
                &&& final(self).message_model == old(self).message_model
                &&& final(self).consume_from_where == old(self).consume_from_where
                &&& final(self).unit_mode == old(self).unit_mode
                &&& final(self).subscriptions == old(self).subscriptions
            },
    {
        if !self.subscribed(topic) {
            return ;
        }
        let mut copied: Vec<MessageQueue> = Vec::new();
        let n = qs.len();
        for i in 0..n
            invariant
                n == qs@.len(),
                copied@.len() == i,
                forall|j: int| 0 <= j < i ==> copied@[j]@ == qs@[j]@,
        {
            let m = qs[i].copy();
            copied.push(m);
        }
        proof {
            assert(copied@.map_values(|m: MessageQueue| m@) =~= qs@.map_values(
                |m: MessageQueue| m@,
            ));
        }
        let ghost old_t = self.subscribe_table@;
        let k = topic.to_owned();
        proof {
            lemma_al_put_unique(old_t, k, copied);
            lemma_al_find(old_t, k@);
        }
        al_put_exec(&mut self.subscribe_table, k, copied);
        proof {
            if al_find(old_t, topic@) == -1 {
                assert(self.subscribe_table@.take(old_t.len() as int) =~= old_t);
            }
        }
    }
}

/// A registered admin handle; the instance only tracks its group name,
/// which is the registry key.
pub struct AdminEntry {}

impl AdminEntry {
    /// A fresh admin handle.
    pub fn new() -> (r: AdminEntry) {
        AdminEntry {  }
    }
}

} // verus!
