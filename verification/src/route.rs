//! Topic routing data: queue and broker descriptors, per-topic route
//! snapshots, and the queue identifiers derived from them.
use vstd::prelude::*;

use crate::strutil::str_eq;

verus! {

/// Replica id of the designated primary ("master") replica of a broker.
pub const MASTER_ID: u64 = 0;

/// Permission bit allowing reads from a queue.
pub const PERM_READ: u32 = 4;

/// Permission bit allowing writes to a queue.
pub const PERM_WRITE: u32 = 2;

/// Whether the permission flags mark a queue writable.
pub open spec fn spec_is_writeable(perm: u32) -> bool {
    perm & PERM_WRITE == PERM_WRITE
}

/// Whether the permission flags mark a queue readable.
pub open spec fn spec_is_readable(perm: u32) -> bool {
    perm & PERM_READ == PERM_READ
}

/// Executable check of the writable permission bit.
pub fn is_writeable(perm: u32) -> (r: bool)
    ensures
        r == spec_is_writeable(perm),
{
    perm & PERM_WRITE == PERM_WRITE
}

/// Executable check of the readable permission bit.
pub fn is_readable(perm: u32) -> (r: bool)
    ensures
        r == spec_is_readable(perm),
{
    perm & PERM_READ == PERM_READ
}

/// The addressable unit of a topic on one broker.
pub struct MessageQueue {
    pub topic: String,
    pub broker_name: String,
    pub queue_id: u32,
}

/// Mathematical image of a `MessageQueue`.
pub ghost struct MqView {
    pub topic: Seq<char>,
    pub broker_name: Seq<char>,
    pub queue_id: u32,
}

impl View for MessageQueue {
    type V = MqView;

    open spec fn view(&self) -> MqView {
        MqView { topic: self.topic@, broker_name: self.broker_name@, queue_id: self.queue_id }
    }
}

impl MessageQueue {
    /// Build a queue identifier from its three parts.
    pub fn from_parts(topic: &str, broker_name: &str, queue_id: u32) -> (r: MessageQueue)
        ensures
            r@ == (MqView { topic: topic@, broker_name: broker_name@, queue_id }),
    {
        MessageQueue {
            topic: topic.to_owned(),
            broker_name: broker_name.to_owned(),
            queue_id,
        }
    }

    /// A field-by-field copy.
    pub fn copy(&self) -> (r: MessageQueue)
        ensures
            r@ == self@,
    {
        MessageQueue {
            topic: self.topic.clone(),
            broker_name: self.broker_name.clone(),
            queue_id: self.queue_id,
        }
    }

    /// Whether two queue identifiers denote the same queue.
    pub fn same_queue(&self, other: &MessageQueue) -> (r: bool)
        ensures
            r == (self@ == other@),
    {
        let r = str_eq(self.topic.as_str(), other.topic.as_str()) && str_eq(
            self.broker_name.as_str(),
            other.broker_name.as_str(),
        ) && self.queue_id == other.queue_id;
        r
    }
}

/// One queue descriptor of a route snapshot.
pub struct QueueData {
    pub broker_name: String,
    pub read_queue_nums: u32,
    pub write_queue_nums: u32,
    pub perm: u32,
}

/// Mathematical image of a `QueueData`.
pub ghost struct QdView {
    pub broker_name: Seq<char>,
    pub read_queue_nums: u32,
    pub write_queue_nums: u32,
    pub perm: u32,
}

impl View for QueueData {
    type V = QdView;

    open spec fn view(&self) -> QdView {
        QdView {
            broker_name: self.broker_name@,
            read_queue_nums: self.read_queue_nums,
            write_queue_nums: self.write_queue_nums,
            perm: self.perm,
        }
    }
}

impl QueueData {
    /// A field-by-field copy.
    pub fn copy(&self) -> (r: QueueData)
        ensures
            r@ == self@,
    {
        QueueData {
            broker_name: self.broker_name.clone(),
            read_queue_nums: self.read_queue_nums,
            write_queue_nums: self.write_queue_nums,
            perm: self.perm,
        }
    }
}

/// One broker descriptor: a broker name and its replica addresses.
pub struct BrokerData {
    pub broker_name: String,
    pub broker_addrs: Vec<(u64, String)>,
}

/// Mathematical image of a `BrokerData`.
pub ghost struct BdView {
    pub broker_name: Seq<char>,
    pub broker_addrs: Seq<(u64, Seq<char>)>,
}

/// View of a replica-id-to-address list.
pub open spec fn addrs_view(a: Seq<(u64, String)>) -> Seq<(u64, Seq<char>)> {
    a.map_values(|p: (u64, String)| (p.0, p.1@))
}

impl View for BrokerData {
    type V = BdView;

    open spec fn view(&self) -> BdView {
        BdView { broker_name: self.broker_name@, broker_addrs: addrs_view(self.broker_addrs@) }
    }
}

impl BrokerData {
    /// A field-by-field copy.
    pub fn copy(&self) -> (r: BrokerData)
        ensures
            r@ == self@,
    {
        let mut addrs: Vec<(u64, String)> = Vec::new();
        let n = self.broker_addrs.len();
        for i in 0..n
            invariant
                n == self.broker_addrs@.len(),
                addrs@.len() == i,
                forall|j: int|
                    0 <= j < i ==> addrs@[j].0 == self.broker_addrs@[j].0 && addrs@[j].1@
                        == self.broker_addrs@[j].1@,
        {
            let pair = (self.broker_addrs[i].0, self.broker_addrs[i].1.clone());
            addrs.push(pair);
        }
        proof {
            assert(addrs_view(addrs@) =~= addrs_view(self.broker_addrs@));
        }
        BrokerData { broker_name: self.broker_name.clone(), broker_addrs: addrs }
    }
}

/// One entry of a static-topic queue mapping: a queue identifier and the
/// broker that hosts it.
pub struct QueueEndpoint {
    pub queue: MessageQueue,
    pub broker_name: String,
}

/// Mathematical image of a `QueueEndpoint`.
pub ghost struct EpView {
    pub queue: MqView,
    pub broker_name: Seq<char>,
}

impl View for QueueEndpoint {
    type V = EpView;

    open spec fn view(&self) -> EpView {
        EpView { queue: self.queue@, broker_name: self.broker_name@ }
    }
}

impl QueueEndpoint {
    /// A field-by-field copy.
    pub fn copy(&self) -> (r: QueueEndpoint)
        ensures
            r@ == self@,
    {
        QueueEndpoint { queue: self.queue.copy(), broker_name: self.broker_name.clone() }
    }
}

/// A per-topic route snapshot as delivered by the naming service. The
/// static-topic queue mapping is carried in its derived endpoint form: one
/// entry per mapped queue, naming the hosting broker.
pub struct TopicRouteData {
    pub order_topic_conf: Option<String>,
    pub queue_datas: Vec<QueueData>,
    pub broker_datas: Vec<BrokerData>,
    pub queue_mapping_endpoints: Option<Vec<QueueEndpoint>>,
}

/// Mathematical image of a `TopicRouteData`.
pub ghost struct RouteView {
    pub order_topic_conf: Option<Seq<char>>,
    pub queue_datas: Seq<QdView>,
    pub broker_datas: Seq<BdView>,
    pub queue_mapping_endpoints: Option<Seq<EpView>>,
}

impl View for TopicRouteData {
    type V = RouteView;

    open spec fn view(&self) -> RouteView {
        RouteView {
            order_topic_conf: match self.order_topic_conf {
                Some(s) => Some(s@),
                None => None,
            },
            queue_datas: self.queue_datas@.map_values(|q: QueueData| q@),
            broker_datas: self.broker_datas@.map_values(|b: BrokerData| b@),
            queue_mapping_endpoints: match self.queue_mapping_endpoints {
                Some(v) => Some(v@.map_values(|e: QueueEndpoint| e@)),
                None => None,
            },
        }
    }
}

/// Well-formedness of a route snapshot: replica ids unique per broker.
pub open spec fn route_wf(r: RouteView) -> bool {
    forall|i: int|
        0 <= i < r.broker_datas.len() ==> crate::alist::il_unique(#[trigger] r.broker_datas[i].broker_addrs)
}

impl TopicRouteData {
    /// A deep, field-by-field copy.
    pub fn copy(&self) -> (r: TopicRouteData)
        ensures
            r@ == self@,
    {
        let order_topic_conf = match &self.order_topic_conf {
            Some(s) => Some(s.clone()),
            None => None,
        };
        let mut queue_datas: Vec<QueueData> = Vec::new();
        let nq = self.queue_datas.len();
        for i in 0..nq
            invariant
                nq == self.queue_datas@.len(),
                queue_datas@.len() == i,
                forall|j: int| 0 <= j < i ==> queue_datas@[j]@ == self.queue_datas@[j]@,
        {
            let q = self.queue_datas[i].copy();
            queue_datas.push(q);
        }
        let mut broker_datas: Vec<BrokerData> = Vec::new();
        let nb = self.broker_datas.len();
        for i in 0..nb
            invariant
                nb == self.broker_datas@.len(),
                broker_datas@.len() == i,
                forall|j: int| 0 <= j < i ==> broker_datas@[j]@ == self.broker_datas@[j]@,
        {
            let b = self.broker_datas[i].copy();
            broker_datas.push(b);
        }
        let queue_mapping_endpoints = match &self.queue_mapping_endpoints {
            Some(eps) => {
                let mut out: Vec<QueueEndpoint> = Vec::new();
                let ne = eps.len();
                for i in 0..ne
                    invariant
                        ne == eps@.len(),
                        out@.len() == i,
                        forall|j: int| 0 <= j < i ==> out@[j]@ == eps@[j]@,
                {
                    let e = eps[i].copy();
                    out.push(e);
                }
                Some(out)
            },
            None => None,
        };
        let r = TopicRouteData { order_topic_conf, queue_datas, broker_datas, queue_mapping_endpoints };
        proof {
            assert(r@.queue_datas =~= self@.queue_datas);
            assert(r@.broker_datas =~= self@.broker_datas);
            if self@.queue_mapping_endpoints is Some {
                assert(r@.queue_mapping_endpoints->0 =~= self@.queue_mapping_endpoints->0);
            }
        }
        r
    }

    /// Structural equality of two snapshots, the route-change test.
    pub fn same_route(&self, other: &TopicRouteData) -> (r: bool)
        ensures
            r == (self@ == other@),
    {
        let conf_eq = match (&self.order_topic_conf, &other.order_topic_conf) {
            (Some(a), Some(b)) => str_eq(a.as_str(), b.as_str()),
            (None, None) => true,
            _ => false,
        };
        if !conf_eq {
            proof {
                assert(self@.order_topic_conf != other@.order_topic_conf);
            }
            return false;
        }
        if self.queue_datas.len() != other.queue_datas.len() {
            proof {
                assert(self@.queue_datas.len() != other@.queue_datas.len());
            }
            return false;
        }
        let nq = self.queue_datas.len();
        for i in 0..nq
            invariant
                nq == self.queue_datas@.len(),
                nq == other.queue_datas@.len(),
                forall|j: int| 0 <= j < i ==> self.queue_datas@[j]@ == other.queue_datas@[j]@,
        {
            let a = &self.queue_datas[i];
            let b = &other.queue_datas[i];
            if !(str_eq(a.broker_name.as_str(), b.broker_name.as_str()) && a.read_queue_nums
                == b.read_queue_nums && a.write_queue_nums == b.write_queue_nums && a.perm
                == b.perm) {
                proof {
                    assert(self@.queue_datas[i as int] != other@.queue_datas[i as int]);
                }
                return false;
            }
        }
        if self.broker_datas.len() != other.broker_datas.len() {
            proof {
                assert(self@.broker_datas.len() != other@.broker_datas.len());
            }
            return false;
        }
        let nb = self.broker_datas.len();
        for i in 0..nb
            invariant
                nb == self.broker_datas@.len(),
                nb == other.broker_datas@.len(),
                forall|j: int| 0 <= j < i ==> self.broker_datas@[j]@ == other.broker_datas@[j]@,
        {
            let a = &self.broker_datas[i];
            let b = &other.broker_datas[i];
            if !str_eq(a.broker_name.as_str(), b.broker_name.as_str()) {
                proof {
                    assert(self@.broker_datas[i as int] != other@.broker_datas[i as int]);
                }
                return false;
            }
            if a.broker_addrs.len() != b.broker_addrs.len() {
                proof {
                    assert(a@.broker_addrs.len() != b@.broker_addrs.len());
                    assert(self@.broker_datas[i as int] != other@.broker_datas[i as int]);
                }
                return false;
            }
            let na = a.broker_addrs.len();
            for k in 0..na
                invariant
                    0 <= i < nb,
                    nb == self.broker_datas@.len(),
                    nb == other.broker_datas@.len(),
                    a == &self.broker_datas@[i as int],
                    b == &other.broker_datas@[i as int],
                    na == a.broker_addrs@.len(),
                    na == b.broker_addrs@.len(),
                    forall|j: int|
                        0 <= j < k ==> a.broker_addrs@[j].0 == b.broker_addrs@[j].0
                            && a.broker_addrs@[j].1@ == b.broker_addrs@[j].1@,
            {
                if a.broker_addrs[k].0 != b.broker_addrs[k].0 || !str_eq(
                    a.broker_addrs[k].1.as_str(),
                    b.broker_addrs[k].1.as_str(),
                ) {
                    proof {
                        assert(a@.broker_addrs[k as int] != b@.broker_addrs[k as int]);
                        assert(self@.broker_datas[i as int] != other@.broker_datas[i as int]);
                    }
                    return false;
                }
            }
            proof {
                assert(a@.broker_addrs =~= b@.broker_addrs);
            }
        }
        let map_eq = match (&self.queue_mapping_endpoints, &other.queue_mapping_endpoints) {
            (Some(a), Some(b)) => {
                if a.len() != b.len() {
                    proof {
                        assert(a@.map_values(|e: QueueEndpoint| e@).len() != b@.map_values(
                            |e: QueueEndpoint| e@,
                        ).len());
                        assert(self@.queue_mapping_endpoints != other@.queue_mapping_endpoints);
                    }
                    false
                } else {
                    let ne = a.len();
                    let mut all_eq = true;
                    for i in 0..ne
                        invariant
                            ne == a@.len(),
                            ne == b@.len(),
                            all_eq == (forall|j: int| 0 <= j < i ==> a@[j]@ == b@[j]@),
                    {
                        let ea = &a[i];
                        let eb = &b[i];
                        let e = ea.queue.same_queue(&eb.queue) && str_eq(
                            ea.broker_name.as_str(),
                            eb.broker_name.as_str(),
                        );
                        proof {
                            assert(e == (ea@ == eb@));
                        }
                        all_eq = all_eq && e;
                    }
                    proof {
                        if all_eq {
                            assert(a@.map_values(|e: QueueEndpoint| e@) =~= b@.map_values(
                                |e: QueueEndpoint| e@,
                            ));
                        } else {
                            let j = choose|j: int| 0 <= j < ne && a@[j]@ != b@[j]@;
                            assert(a@.map_values(|e: QueueEndpoint| e@)[j] != b@.map_values(
                                |e: QueueEndpoint| e@,
                            )[j]);
                        }
                        assert(all_eq == (self@.queue_mapping_endpoints
                            == other@.queue_mapping_endpoints));
                    }
                    all_eq
                }
            },
            (None, None) => true,
            _ => false,
        };
        if !map_eq {
            proof {
                assert(self@.queue_mapping_endpoints != other@.queue_mapping_endpoints);
            }
            return false;
        }
        proof {
            assert(self@.queue_datas =~= other@.queue_datas);
            assert(self@.broker_datas =~= other@.broker_datas);
            if self@.queue_mapping_endpoints is Some && other@.queue_mapping_endpoints is Some {
                assert(self@.queue_mapping_endpoints->0 =~= other@.queue_mapping_endpoints->0);
            }
        }
        true
    }
}

} // verus!
