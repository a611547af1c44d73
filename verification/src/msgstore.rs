//! The queue of messages that wait for clients which were offline when they
//! were published: bounded, expiring, and written behind to a table on disk.
use crate::sort;
use crate::sort::Ranked;
use crate::text;
use crate::topic;
use std::collections::{HashMap, HashSet, VecDeque};
use vstd::prelude::*;
use vstd::std_specs::iter::IteratorSpec;
use vstd::utf8::*;

verus! {

broadcast use vstd::std_specs::hash::group_hash_axioms;

/// The bits of a message id that count messages; the others name the node.
pub const COUNTER_MASK: u64 = 0xFFFF_FFFF_FFFF;

/// What a message costs in memory beside its topic and payload.
pub const OVERHEAD: usize = 384;

/// A published packet: what the queue reads of it, and the rest encoded.
#[derive(Clone, Debug)]
pub struct Publish {
    pub topic: String,
    pub payload: Vec<u8>,
    pub properties: Vec<u8>,
}

/// A queued message with its encoded sender and the clients that have it.
#[derive(Clone, Debug)]
pub struct StoredMsg {
    pub from: Vec<u8>,
    pub publish: Publish,
    pub expiry_at: i64,
    pub delivered_to: Vec<String>,
}

/// A message handed out to a client.
#[derive(Clone, Debug)]
pub struct Delivery {
    pub msg_id: u64,
    pub from: Vec<u8>,
    pub publish: Publish,
}

pub struct PublishView {
    pub topic: Seq<char>,
    pub payload: Seq<u8>,
    pub properties: Seq<u8>,
}

pub struct MsgView {
    pub from: Seq<u8>,
    pub publish: PublishView,
    pub expiry_at: int,
    pub delivered_to: Seq<Seq<char>>,
}

pub struct DeliveryView {
    pub msg_id: u64,
    pub from: Seq<u8>,
    pub publish: PublishView,
}

impl View for Publish {
    type V = PublishView;

    open spec fn view(&self) -> PublishView {
        PublishView {
            topic: self.topic@,
            payload: self.payload@,
            properties: self.properties@,
        }
    }
}

impl View for StoredMsg {
    type V = MsgView;

    open spec fn view(&self) -> MsgView {
        MsgView {
            from: self.from@,
            publish: self.publish@,
            expiry_at: self.expiry_at as int,
            delivered_to: text::texts(self.delivered_to@),
        }
    }
}

impl View for Delivery {
    type V = DeliveryView;

    open spec fn view(&self) -> DeliveryView {
        DeliveryView { msg_id: self.msg_id, from: self.from@, publish: self.publish@ }
    }
}

/// A copy of a run of bytes.
pub fn copy_bytes(b: &Vec<u8>) -> (r: Vec<u8>)
    ensures
        r@ == b@,
{
    let r = b.clone();
    assert(r@ =~= b@);
    r
}

impl Publish {
    /// A copy of the packet.
    pub fn duplicate(&self) -> (r: Publish)
        ensures
            r@ == self@,
    {
        Publish {
            topic: self.topic.clone(),
            payload: copy_bytes(&self.payload),
            properties: copy_bytes(&self.properties),
        }
    }
}

impl StoredMsg {
    /// A copy of the message.
    pub fn duplicate(&self) -> (r: StoredMsg)
        ensures
            r@ == self@,
    {
        StoredMsg {
            from: copy_bytes(&self.from),
            publish: self.publish.duplicate(),
            expiry_at: self.expiry_at,
            delivered_to: text::copy_strings(&self.delivered_to),
        }
    }
}

/// The memory that a message is taken to use.
pub open spec fn size_of_msg(m: MsgView) -> int {
    m.publish.payload.len() + encode_utf8(m.publish.topic).len() + OVERHEAD
}

/// Estimates the memory that a message uses.
pub fn approx_size(m: &StoredMsg) -> (r: usize)
    requires
        size_of_msg(m@) <= usize::MAX,
    ensures
        r == size_of_msg(m@),
{
    m.publish.payload.len() + m.publish.topic.as_str().as_bytes().len() + OVERHEAD
}

/// The state of the queue: the messages by id, the ids from the oldest on, the
/// memory in use, and the ids that the disk does not know of yet.
pub struct MemView {
    pub msgs: Map<u64, MsgView>,
    pub order: Seq<u64>,
    pub bytes: int,
    pub dirty: Set<u64>,
    pub removed: Set<u64>,
}

/// The memory that the messages of a list of ids use together.
pub open spec fn total_size(ids: Seq<u64>, msgs: Map<u64, MsgView>) -> int
    decreases ids.len(),
{
    if ids.len() == 0 {
        0
    } else {
        total_size(ids.drop_last(), msgs) + size_of_msg(msgs[ids.last()])
    }
}

/// `a - b`, but not below zero.
pub open spec fn minus(a: int, b: int) -> int {
    if a >= b {
        a - b
    } else {
        0
    }
}

/// `a + b`, but not above the largest `usize`.
pub open spec fn plus(a: int, b: int) -> int {
    if a + b <= usize::MAX {
        a + b
    } else {
        usize::MAX as int
    }
}

impl MemView {
    /// What holds of every state that the queue can be in.
    pub open spec fn wf(self) -> bool {
        &&& self.order.no_duplicates()
        &&& self.order.to_set() == self.msgs.dom()
        &&& self.dirty.subset_of(self.msgs.dom())
        &&& self.removed.disjoint(self.msgs.dom())
        &&& 0 <= self.bytes <= usize::MAX
        &&& forall|id: u64| #[trigger]
            self.msgs.contains_key(id) ==> size_of_msg(self.msgs[id]) <= usize::MAX
    }

    /// Whether `bytes` is the exact sum of what the messages use.
    pub open spec fn exact(self) -> bool {
        self.bytes == total_size(self.order, self.msgs)
    }

    /// Whether the queue holds more than it may; a limit of zero is none.
    pub open spec fn over_cap(self, max_msgs: int, max_bytes: int) -> bool {
        (max_msgs > 0 && self.order.len() > max_msgs) || (max_bytes > 0 && self.bytes > max_bytes)
    }

    /// Whether the oldest message has to go.
    pub open spec fn must_drop(self, now: int, max_msgs: int, max_bytes: int) -> bool {
        self.order.len() > 0 && (self.over_cap(max_msgs, max_bytes)
            || self.msgs[self.order[0]].expiry_at <= now)
    }

    /// The queue without its oldest message.
    pub open spec fn drop_oldest(self) -> MemView {
        let id = self.order[0];
        MemView {
            msgs: self.msgs.remove(id),
            order: self.order.drop_first(),
            bytes: minus(self.bytes, size_of_msg(self.msgs[id])),
            dirty: self.dirty.remove(id),
            removed: self.removed.insert(id),
        }
    }

    /// The queue after dropping oldest messages until the first that may stay.
    pub open spec fn evict(self, now: int, max_msgs: int, max_bytes: int) -> MemView
        decreases self.order.len(),
    {
        if self.must_drop(now, max_msgs, max_bytes) {
            self.drop_oldest().evict(now, max_msgs, max_bytes)
        } else {
            self
        }
    }

    /// The queue with `msg` under `id`, which is new on disk.
    pub open spec fn put(self, id: u64, msg: MsgView) -> MemView {
        let known = self.msgs.contains_key(id);
        MemView {
            msgs: self.msgs.insert(id, msg),
            order: if known {
                self.order
            } else {
                self.order.push(id)
            },
            bytes: plus(
                if known {
                    minus(self.bytes, size_of_msg(self.msgs[id]))
                } else {
                    self.bytes
                },
                size_of_msg(msg),
            ),
            dirty: self.dirty.insert(id),
            removed: self.removed.remove(id),
        }
    }

    /// Whether a client is owed the message under `id` for a filter.
    pub open spec fn owed(
        self,
        id: u64,
        client: Seq<char>,
        filter: Seq<char>,
        now: int,
    ) -> bool {
        let m = self.msgs[id];
        &&& m.expiry_at > now
        &&& !m.delivered_to.contains(client)
        &&& topic::matches_topic(m.publish.topic, filter)
    }

    /// The ids of the messages that a client is owed for a filter, oldest first.
    pub open spec fn owed_ids(self, client: Seq<char>, filter: Seq<char>, now: int) -> Seq<u64> {
        self.order.filter(|id: u64| self.owed(id, client, filter, now))
    }

    /// What is handed out for a list of ids.
    pub open spec fn deliveries(self, ids: Seq<u64>) -> Seq<DeliveryView> {
        Seq::new(
            ids.len(),
            |i: int|
                DeliveryView {
                    msg_id: ids[i],
                    from: self.msgs[ids[i]].from,
                    publish: self.msgs[ids[i]].publish,
                },
        )
    }

    /// The queue after a client has got the messages under the given ids.
    pub open spec fn mark(self, ids: Set<u64>, client: Seq<char>) -> MemView {
        MemView {
            msgs: Map::new(
                |id: u64| self.msgs.contains_key(id),
                |id: u64|
                    if ids.contains(id) {
                        MsgView {
                            delivered_to: self.msgs[id].delivered_to.push(client),
                            ..self.msgs[id]
                        }
                    } else {
                        self.msgs[id]
                    },
            ),
            dirty: self.dirty.union(ids),
            ..self
        }
    }

    /// The ids of the messages that have not expired.
    pub open spec fn live(self, now: int) -> Set<u64> {
        self.msgs.dom().filter(|id: u64| self.msgs[id].expiry_at > now)
    }

    /// The queue once the disk knows all of it.
    pub open spec fn clean(self) -> MemView {
        MemView { dirty: Set::empty(), removed: Set::empty(), ..self }
    }
}

/// The queue of messages in memory.
pub struct MemState {
    msgs: HashMap<u64, StoredMsg>,
    order: VecDeque<u64>,
    bytes: usize,
    dirty: HashSet<u64>,
    removed: HashSet<u64>,
}

impl View for MemState {
    type V = MemView;

    closed spec fn view(&self) -> MemView {
        MemView {
            msgs: self.msgs@.map_values(|m: StoredMsg| m@),
            order: self.order@,
            bytes: self.bytes as int,
            dirty: self.dirty@,
            removed: self.removed@,
        }
    }
}

proof fn lemma_drop_oldest_wf(v: MemView)
    requires
        v.wf(),
        v.order.len() > 0,
    ensures
        v.drop_oldest().wf(),
        v.msgs.contains_key(v.order[0]),
{
    let id = v.order[0];
    let w = v.drop_oldest();
    assert(v.order.contains(id));
    assert(v.msgs.dom().contains(id));
    assert forall|x: u64| w.order.to_set().contains(x) <==> w.msgs.dom().contains(x) by {
        if w.order.contains(x) {
            let k = choose|k: int| 0 <= k < w.order.len() && w.order[k] == x;
            assert(v.order[k + 1] == x);
            assert(v.order.contains(x));
            assert(v.order.to_set().contains(x));
        }
        if w.msgs.dom().contains(x) {
            assert(v.order.to_set().contains(x));
            let k = choose|k: int| 0 <= k < v.order.len() && v.order[k] == x;
            assert(w.order[k - 1] == x);
        }
    }
    assert(w.order.to_set() =~= w.msgs.dom());
}

impl MemState {
    /// What holds of every queue.
    pub open spec fn wf(&self) -> bool {
        self@.wf()
    }

    /// Drops the oldest messages while the queue is over a limit or the oldest
    /// has expired. A limit of zero is none.
    pub fn evict(&mut self, now: i64, max_msgs: usize, max_bytes: usize)
        requires
            old(self)@.wf(),
        ensures
            final(self)@ == old(self)@.evict(now as int, max_msgs as int, max_bytes as int),
            final(self)@.wf(),
    {
        let ghost start = self@;
        while self.order.len() > 0
            invariant
                self@.wf(),
                start.evict(now as int, max_msgs as int, max_bytes as int) == self@.evict(
                    now as int,
                    max_msgs as int,
                    max_bytes as int,
                ),
            ensures
                self@ == start.evict(now as int, max_msgs as int, max_bytes as int),
                self@.wf(),
            decreases self.order.len(),
        {
            let ghost before = self@;
            let id = self.order[0];
            proof {
                lemma_drop_oldest_wf(before);
            }
            let over_cap = (max_msgs > 0 && self.order.len() > max_msgs) || (max_bytes > 0
                && self.bytes > max_bytes);
            let expired = match self.msgs.get(&id) {
                Some(m) => m.expiry_at <= now,
                None => true,
            };
            if !over_cap && !expired {
                break;
            }
            let _ = self.order.pop_front();
            if let Some(m) = self.msgs.remove(&id) {
                assert(size_of_msg(m@) == size_of_msg(before.msgs[id]));
                self.bytes = self.bytes.saturating_sub(approx_size(&m));
                self.dirty.remove(&id);
                self.removed.insert(id);
            }
            assert(self@.msgs =~= before.drop_oldest().msgs);
            assert(self@.order =~= before.drop_oldest().order);
            assert(self@ == before.drop_oldest());
        }
    }
}

/// Whether a client is among those that have a message.
fn has_client(clients: &Vec<String>, client: &str) -> (r: bool)
    ensures
        r == text::texts(clients@).contains(client@),
{
    let mut i: usize = 0;
    while i < clients.len()
        invariant
            i <= clients.len(),
            forall|j: int| 0 <= j < i ==> clients@[j]@ != client@,
        decreases clients.len() - i,
    {
        if text::str_eq(clients[i].as_str(), client) {
            assert(text::texts(clients@)[i as int] == client@);
            return true;
        }
        i += 1;
    }
    assert forall|j: int| 0 <= j < clients.len() implies text::texts(clients@)[j] != client@ by {}
    false
}

proof fn lemma_put_wf(v: MemView, id: u64, msg: MsgView)
    requires
        v.wf(),
        size_of_msg(msg) <= usize::MAX,
    ensures
        v.put(id, msg).wf(),
{
    let w = v.put(id, msg);
    assert(size_of_msg(msg) >= 0);
    assert forall|x: u64| w.order.to_set().contains(x) <==> w.msgs.dom().contains(x) by {
        assert(v.order.to_set().contains(x) <==> v.msgs.dom().contains(x));
        if v.order.contains(x) && !v.msgs.contains_key(id) {
            let k = choose|k: int| 0 <= k < v.order.len() && v.order[k] == x;
            assert(w.order[k] == x);
        }
        if x == id && !v.msgs.contains_key(id) {
            assert(w.order[v.order.len() as int] == id);
        }
        if w.order.contains(x) {
            let k = choose|k: int| 0 <= k < w.order.len() && w.order[k] == x;
            if k < v.order.len() {
                assert(v.order.contains(v.order[k]));
            }
        }
    }
    assert(w.order.to_set() =~= w.msgs.dom());
    assert(w.order.no_duplicates()) by {
        if !v.msgs.contains_key(id) {
            assert(!v.order.to_set().contains(id));
            assert forall|a: int, b: int|
                0 <= a < w.order.len() && 0 <= b < w.order.len() && a != b implies w.order[a]
                != w.order[b] by {
                if a < v.order.len() {
                    assert(v.order.contains(v.order[a]));
                }
                if b < v.order.len() {
                    assert(v.order.contains(v.order[b]));
                }
            }
        }
    }
}

/// The set of a sequence with one more value behind it.
proof fn lemma_push_to_set(s: Seq<u64>, x: u64)
    ensures
        s.push(x).to_set() == s.to_set().insert(x),
{
    let t = s.push(x);
    assert forall|y: u64| t.to_set().contains(y) <==> s.to_set().insert(x).contains(y) by {
        if t.contains(y) {
            let k = choose|k: int| 0 <= k < t.len() && t[k] == y;
            if k < s.len() {
                assert(s[k] == y);
            }
        }
        if s.contains(y) {
            let k = choose|k: int| 0 <= k < s.len() && s[k] == y;
            assert(t[k] == y);
        }
        assert(t[s.len() as int] == x);
    }
    assert(t.to_set() =~= s.to_set().insert(x));
}

proof fn lemma_mark_wf(v: MemView, ids: Set<u64>, client: Seq<char>)
    requires
        v.wf(),
        ids.subset_of(v.msgs.dom()),
    ensures
        v.mark(ids, client).wf(),
        v.mark(ids, client).msgs.dom() == v.msgs.dom(),
{
    let w = v.mark(ids, client);
    assert(w.msgs.dom() =~= v.msgs.dom());
    assert forall|id: u64| #[trigger] w.msgs.contains_key(id) implies size_of_msg(w.msgs[id])
        <= usize::MAX by {
        assert(v.msgs.contains_key(id));
    }
}

/// Eviction keeps what holds of every queue.
proof fn lemma_evict_wf(v: MemView, now: int, max_msgs: int, max_bytes: int)
    requires
        v.wf(),
    ensures
        v.evict(now, max_msgs, max_bytes).wf(),
    decreases v.order.len(),
{
    if v.must_drop(now, max_msgs, max_bytes) {
        lemma_drop_oldest_wf(v);
        lemma_evict_wf(v.drop_oldest(), now, max_msgs, max_bytes);
    }
}

impl MemState {
    fn new() -> (r: MemState)
        ensures
            r@ == (MemView {
                msgs: Map::empty(),
                order: Seq::empty(),
                bytes: 0,
                dirty: Set::empty(),
                removed: Set::empty(),
            }),
    {
        let r = MemState {
            msgs: HashMap::new(),
            order: VecDeque::new(),
            bytes: 0,
            dirty: HashSet::new(),
            removed: HashSet::new(),
        };
        assert(r@.msgs =~= Map::empty());
        r
    }

    fn put(&mut self, key: u64, msg: StoredMsg)
        requires
            old(self)@.wf(),
            size_of_msg(msg@) <= usize::MAX,
        ensures
            final(self)@ == old(self)@.put(key, msg@),
            final(self)@.wf(),
    {
        let ghost before = self@;
        let ghost m = msg@;
        proof {
            lemma_put_wf(before, key, m);
        }
        let size = approx_size(&msg);
        self.removed.remove(&key);
        match self.msgs.insert(key, msg) {
            Some(old_msg) => {
                assert(before.msgs.contains_key(key));
                assert(old_msg@ == before.msgs[key]);
                self.bytes = self.bytes.saturating_sub(approx_size(&old_msg)).saturating_add(size);
            },
            None => {
                self.order.push_back(key);
                self.bytes = self.bytes.saturating_add(size);
            },
        }
        self.dirty.insert(key);
        assert(self@.msgs =~= before.put(key, m).msgs);
        assert(self@ == before.put(key, m));
    }

    fn take_if_owed(&mut self, id: u64, client: &str, filter: &str, now: i64) -> (r: Option<
        Delivery,
    >)
        requires
            old(self)@.wf(),
            old(self)@.msgs.contains_key(id),
        ensures
            match r {
                Some(d) => {
                    &&& old(self)@.owed(id, client@, filter@, now as int)
                    &&& d@ == (DeliveryView {
                        msg_id: id,
                        from: old(self)@.msgs[id].from,
                        publish: old(self)@.msgs[id].publish,
                    })
                    &&& final(self)@ == old(self)@.mark(set![id], client@)
                },
                None => {
                    &&& !old(self)@.owed(id, client@, filter@, now as int)
                    &&& final(self)@ == old(self)@
                },
            },
            final(self)@.wf(),
    {
        let ghost before = self@;
        proof {
            lemma_mark_wf(before, set![id], client@);
        }
        match self.msgs.get(&id) {
            Some(m) => {
                assert(m@ == before.msgs[id]);
                if m.expiry_at <= now || has_client(&m.delivered_to, client) {
                    return None;
                }
                if !topic::topic_matches(m.publish.topic.as_str(), filter) {
                    return None;
                }
            },
            None => {
                return None;
            },
        }
        match self.msgs.remove(&id) {
            Some(m) => {
                let mut m = m;
                let ghost had = m@;
                let d = Delivery {
                    msg_id: id,
                    from: copy_bytes(&m.from),
                    publish: m.publish.duplicate(),
                };
                m.delivered_to.push(client.to_owned());
                assert(text::texts(m.delivered_to@) =~= had.delivered_to.push(client@));
                let ghost now_has = m@;
                self.msgs.insert(id, m);
                self.dirty.insert(id);
                assert(self@.msgs =~= before.mark(set![id], client@).msgs);
                assert(self@.dirty =~= before.mark(set![id], client@).dirty);
                Some(d)
            },
            None => None,
        }
    }
}

/// The whole store: the queue, its limits, and the counter for message ids.
pub struct StoreView {
    pub node_id: u64,
    pub counter: u64,
    pub queue: MemView,
    pub max_msgs: int,
    pub max_bytes: int,
}

impl StoreView {
    /// The queue after the eviction that every access begins or ends with.
    pub open spec fn evicted(self, now: int) -> MemView {
        self.queue.evict(now, self.max_msgs, self.max_bytes)
    }
}

/// The message store of one node.
pub struct RedbMessageStore {
    node_id: u64,
    counter: u64,
    state: MemState,
    max_msgs: usize,
    max_bytes: usize,
}

impl View for RedbMessageStore {
    type V = StoreView;

    closed spec fn view(&self) -> StoreView {
        StoreView {
            node_id: self.node_id,
            counter: self.counter,
            queue: self.state@,
            max_msgs: self.max_msgs as int,
            max_bytes: self.max_bytes as int,
        }
    }
}

/// What the disk has to be told: messages to write and ids to remove.
#[derive(Clone, Debug)]
pub struct Flush {
    pub batch: Vec<(u64, StoredMsg)>,
    pub removed: Vec<u64>,
}

/// The messages to write, with their ids.
pub open spec fn batch_views(batch: Seq<(u64, StoredMsg)>) -> Seq<(u64, MsgView)> {
    Seq::new(batch.len(), |i: int| (batch[i].0, batch[i].1@))
}

/// Whether messages to write and ids to remove are what a queue has to tell the
/// disk.
pub open spec fn tells(q: MemView, batch: Seq<(u64, MsgView)>, removed: Seq<u64>) -> bool {
    let ids = q.order.filter(|id: u64| q.dirty.contains(id));
    &&& batch.len() == ids.len()
    &&& forall|i: int|
        0 <= i < ids.len() ==> (#[trigger] batch[i]).0 == ids[i] && batch[i].1 == q.msgs[ids[i]]
    &&& removed.no_duplicates()
    &&& removed.to_set() == q.removed
}

/// When a message expires that arrives at `now` and lives for `millis`.
pub open spec fn expiry_of(now: i64, millis: u128) -> int {
    let t = now + (millis as i64);
    if t > i64::MAX {
        i64::MAX as int
    } else if t < i64::MIN {
        i64::MIN as int
    } else {
        t
    }
}

fn expiry_at(now: i64, millis: u128) -> (r: i64)
    ensures
        r == expiry_of(now, millis),
{
    let life = millis as i64;
    match now.checked_add(life) {
        Some(t) => t,
        None => if life > 0 {
            i64::MAX
        } else {
            i64::MIN
        },
    }
}

/// The time in milliseconds, by the time since 1970, or zero for a clock that is
/// before that.
pub fn now_millis(since_epoch: Option<u128>) -> (r: i64)
    ensures
        r == (match since_epoch {
            Some(millis) => millis as i64,
            None => 0,
        }),
{
    match since_epoch {
        Some(millis) => millis as i64,
        None => 0,
    }
}

/// The id that a node gives to the message with a counter value.
pub open spec fn id_of(node_id: u64, counter: u64) -> u64 {
    (node_id << 48) | (counter & COUNTER_MASK)
}

impl RedbMessageStore {
    /// What holds of every store.
    pub open spec fn wf(&self) -> bool {
        self@.queue.wf()
    }

    /// Whether messages are stored at all.
    pub fn enable(&self) -> (r: bool)
        ensures
            r,
    {
        true
    }

    /// Whether what other nodes store is merged into what this one hands out.
    pub fn should_merge_on_get(&self) -> (r: bool)
        ensures
            !r,
    {
        false
    }

    /// The id for the next message: the node in the upper bits and a counter,
    /// which moves on, in the others.
    pub fn next_msg_id(&mut self) -> (r: u64)
        ensures
            r == id_of(old(self)@.node_id, old(self)@.counter),
            final(self)@ == (StoreView {
                counter: old(self)@.counter.wrapping_add(1),
                ..old(self)@
            }),
    {
        let c = self.counter & COUNTER_MASK;
        self.counter = self.counter.wrapping_add(1);
        (self.node_id << 48u64) | c
    }

    /// Queues a message and then drops what has to go.
    pub fn store(
        &mut self,
        msg_id: u64,
        from: Vec<u8>,
        p: Publish,
        now: i64,
        expiry_millis: u128,
        sub_client_ids: Option<Vec<String>>,
    )
        requires
            old(self).wf(),
            p@.payload.len() + encode_utf8(p@.topic).len() + OVERHEAD <= usize::MAX,
        ensures
            final(self).wf(),
            final(self)@ == (StoreView {
                queue: StoreView {
                    queue: old(self)@.queue.put(
                        msg_id,
                        MsgView {
                            from: from@,
                            publish: p@,
                            expiry_at: expiry_of(now, expiry_millis),
                            delivered_to: match sub_client_ids {
                                Some(ids) => text::texts(ids@),
                                None => Seq::empty(),
                            },
                        },
                    ),
                    ..old(self)@
                }.evicted(now as int),
                ..old(self)@
            }),
    {
        let delivered_to = match sub_client_ids {
            Some(ids) => ids,
            None => Vec::new(),
        };
        assert(sub_client_ids is None ==> text::texts(delivered_to@) =~= Seq::empty());
        let msg = StoredMsg {
            from,
            publish: p,
            expiry_at: expiry_at(now, expiry_millis),
            delivered_to,
        };
        self.state.put(msg_id, msg);
        self.state.evict(now, self.max_msgs, self.max_bytes);
    }

    /// Hands a client the messages that it is owed for a filter, oldest first,
    /// and notes that it has them.
    pub fn get(&mut self, client_id: &str, topic_filter: &str, now: i64) -> (r: Vec<Delivery>)
        requires
            old(self).wf(),
        ensures
            final(self).wf(),
            ({
                let q = old(self)@.evicted(now as int);
                let ids = q.owed_ids(client_id@, topic_filter@, now as int);
                &&& Seq::new(r@.len(), |i: int| r@[i]@) == q.deliveries(ids)
                &&& final(self)@ == (StoreView {
                    queue: q.mark(ids.to_set(), client_id@),
                    ..old(self)@
                })
            }),
    {
        self.state.evict(now, self.max_msgs, self.max_bytes);
        let ghost q = self.state@;
        let ghost p = |id: u64| q.owed(id, client_id@, topic_filter@, now as int);
        let ghost mut ids: Seq<u64> = Seq::empty();
        let mut r: Vec<Delivery> = Vec::new();
        let mut i: usize = 0;
        let n = self.state.order.len();
        proof {
            assert(q.order.take(0).filter(p) =~= Seq::empty()) by {
                reveal(Seq::filter);
            }
            assert(q.mark(ids.to_set(), client_id@).msgs =~= q.msgs);
            assert(q.mark(ids.to_set(), client_id@).dirty =~= q.dirty);
            assert(q.deliveries(ids) =~= Seq::empty());
        }
        while i < n
            invariant
                i <= n,
                n == q.order.len(),
                q.wf(),
                q == old(self)@.evicted(now as int),
                p == (|id: u64| q.owed(id, client_id@, topic_filter@, now as int)),
                ids == q.order.take(i as int).filter(p),
                self.state@ == q.mark(ids.to_set(), client_id@),
                self.state@.wf(),
                self.node_id == old(self).node_id,
                self.counter == old(self).counter,
                self.max_msgs == old(self).max_msgs,
                self.max_bytes == old(self).max_bytes,
                Seq::new(r@.len(), |k: int| r@[k]@) == q.deliveries(ids),
            decreases n - i,
        {
            let id = self.state.order[i];
            let ghost before = self.state@;
            let ghost prev = ids;
            proof {
                assert(id == q.order[i as int]);
                assert(q.order.contains(id));
                assert(q.order.to_set().contains(id));
                assert(q.order.take(i + 1) =~= q.order.take(i as int).push(id));
                q.order.take(i as int).lemma_filter_push(id, p);
                if prev.contains(id) {
                    q.order.take(i as int).lemma_filter_contains_rev(p, id);
                    let k = choose|k: int| 0 <= k < i && q.order.take(i as int)[k] == id;
                    assert(q.order[k] == id);
                }
                assert(before.msgs[id] == q.msgs[id]);
                assert(before.owed(id, client_id@, topic_filter@, now as int) == p(id));
            }
            match self.state.take_if_owed(id, client_id, topic_filter, now) {
                Some(d) => {
                    proof {
                        ids = prev.push(id);
                        lemma_push_to_set(prev, id);
                        assert(self.state@.msgs =~= q.mark(ids.to_set(), client_id@).msgs);
                        assert(self.state@.dirty =~= q.mark(ids.to_set(), client_id@).dirty);
                        assert(q.deliveries(ids) =~= q.deliveries(prev).push(d@));
                    }
                    let ghost r0 = r@;
                    r.push(d);
                    assert(Seq::new(r@.len(), |k: int| r@[k]@) =~= Seq::new(
                        r0.len(),
                        |k: int| r0[k]@,
                    ).push(d@));
                },
                None => {},
            }
            i += 1;
        }
        assert(q.order.take(i as int) =~= q.order);
        r
    }
}

/// A row of the table on disk: the id, and the message unless it is unreadable.
pub open spec fn row_view(row: (u64, Option<StoredMsg>)) -> (u64, Option<MsgView>) {
    (
        row.0,
        match row.1 {
            Some(m) => Some(m@),
            None => None,
        },
    )
}

/// The rows of the table on disk.
pub open spec fn rows_view(rows: Seq<(u64, Option<StoredMsg>)>) -> Seq<(u64, Option<MsgView>)> {
    Seq::new(rows.len(), |i: int| row_view(rows[i]))
}

/// Whether a row holds a message that has not expired.
pub open spec fn row_live(row: (u64, Option<MsgView>), now: int) -> bool {
    row.1 matches Some(m) && m.expiry_at > now
}

/// The messages of a table that have not expired.
pub open spec fn loaded(rows: Seq<(u64, Option<MsgView>)>, now: int) -> Map<u64, MsgView>
    decreases rows.len(),
{
    if rows.len() == 0 {
        Map::empty()
    } else {
        let rest = loaded(rows.drop_last(), now);
        if row_live(rows.last(), now) {
            rest.insert(rows.last().0, rows.last().1->0)
        } else {
            rest
        }
    }
}

/// The memory that the messages of a table that have not expired use together.
pub open spec fn loaded_size(rows: Seq<(u64, Option<MsgView>)>, now: int) -> int
    decreases rows.len(),
{
    if rows.len() == 0 {
        0
    } else if row_live(rows.last(), now) {
        loaded_size(rows.drop_last(), now) + size_of_msg(rows.last().1->0)
    } else {
        loaded_size(rows.drop_last(), now)
    }
}

/// One more than the highest counter that a node has in a table, or zero.
pub open spec fn next_counter(rows: Seq<(u64, Option<MsgView>)>, node_id: u64) -> u64
    decreases rows.len(),
{
    if rows.len() == 0 {
        0
    } else {
        let rest = next_counter(rows.drop_last(), node_id);
        let id = rows.last().0;
        let c = ((id & COUNTER_MASK) + 1) as u64;
        if id >> 48 == node_id && c > rest {
            c
        } else {
            rest
        }
    }
}

/// Whether no two rows have the same id, as in any table.
pub open spec fn distinct_ids(rows: Seq<(u64, Option<MsgView>)>) -> bool {
    forall|i: int, j: int|
        #![trigger rows[i], rows[j]]
        0 <= i < j < rows.len() ==> rows[i].0 != rows[j].0
}

/// Whether ids stand in the order in which their messages expire, those that
/// expire together in the order of the ids.
pub open spec fn by_expiry(order: Seq<u64>, msgs: Map<u64, MsgView>) -> bool {
    forall|i: int, j: int|
        #![trigger order[i], order[j]]
        0 <= i < j < order.len() ==> msgs[order[i]].expiry_at < msgs[order[j]].expiry_at || (
        msgs[order[i]].expiry_at == msgs[order[j]].expiry_at && order[i] < order[j])
}

/// An id with the time at which its message expires.
struct Entry {
    expiry_at: i64,
    id: u64,
}

impl Ranked for Entry {
    closed spec fn ranks(&self, other: &Self) -> bool {
        self.expiry_at < other.expiry_at || (self.expiry_at == other.expiry_at && self.id
            <= other.id)
    }

    proof fn ranks_total(a: &Self, b: &Self) {
    }

    proof fn ranks_transitive(a: &Self, b: &Self, c: &Self) {
    }

    fn at_most(&self, other: &Self) -> (r: bool) {
        self.expiry_at < other.expiry_at || (self.expiry_at == other.expiry_at && self.id
            <= other.id)
    }
}

spec fn ids_of(s: Seq<Entry>) -> Seq<u64> {
    Seq::new(s.len(), |i: int| s[i].id)
}

/// Whether entries are those of a map of messages, each once.
spec fn entries_of(s: Seq<Entry>, msgs: Map<u64, MsgView>) -> bool {
    &&& ids_of(s).no_duplicates()
    &&& ids_of(s).to_set() == msgs.dom()
    &&& forall|i: int| 0 <= i < s.len() ==> (#[trigger] s[i]).expiry_at == msgs[s[i].id].expiry_at
}

proof fn lemma_total_remove(s: Seq<u64>, k: int, msgs: Map<u64, MsgView>)
    requires
        0 <= k < s.len(),
    ensures
        total_size(s, msgs) == total_size(s.remove(k), msgs) + size_of_msg(msgs[s[k]]),
    decreases s.len(),
{
    if k == s.len() - 1 {
        assert(s.remove(k) =~= s.drop_last());
    } else {
        lemma_total_remove(s.drop_last(), k, msgs);
        assert(s.remove(k).drop_last() =~= s.drop_last().remove(k));
        assert(s.remove(k).last() == s.last());
    }
}

/// The sum does not depend on the order of the ids.
proof fn lemma_total_permuted(a: Seq<u64>, b: Seq<u64>, msgs: Map<u64, MsgView>)
    requires
        a.no_duplicates(),
        b.no_duplicates(),
        a.to_set() == b.to_set(),
    ensures
        total_size(a, msgs) == total_size(b, msgs),
        a.len() == b.len(),
    decreases a.len(),
{
    a.unique_seq_to_set();
    b.unique_seq_to_set();
    if a.len() > 0 {
        let x = a.last();
        assert(a.to_set().contains(x));
        let k = choose|k: int| 0 <= k < b.len() && b[k] == x;
        let a1 = a.drop_last();
        let b1 = b.remove(k);
        lemma_total_remove(b, k, msgs);
        assert forall|y: u64| a1.to_set().contains(y) <==> b1.to_set().contains(y) by {
            if a1.contains(y) {
                let i = choose|i: int| 0 <= i < a1.len() && a1[i] == y;
                assert(a[i] == y);
                assert(a.to_set().contains(y));
                let j = choose|j: int| 0 <= j < b.len() && b[j] == y;
                assert(j != k);
                assert(b1[if j < k {
                    j
                } else {
                    j - 1
                }] == y);
            }
            if b1.contains(y) {
                let i = choose|i: int| 0 <= i < b1.len() && b1[i] == y;
                let j = if i < k {
                    i
                } else {
                    i + 1
                };
                assert(b[j] == y);
                assert(b.to_set().contains(y));
                let h = choose|h: int| 0 <= h < a.len() && a[h] == y;
                assert(a1[h] == y);
            }
        }
        assert(a1.to_set() =~= b1.to_set());
        assert(b1.no_duplicates());
        lemma_total_permuted(a1, b1, msgs);
    }
}

/// Sorting the entries of a map gives the entries of the map, in expiry order.
proof fn lemma_sorted_entries(r: Seq<Entry>, s: Seq<Entry>, msgs: Map<u64, MsgView>)
    requires
        entries_of(s, msgs),
        sort::sorts(r, s),
    ensures
        entries_of(r, msgs),
        by_expiry(ids_of(r), msgs),
{
    broadcast use vstd::seq_lib::group_to_multiset_ensures;

    assert(s.no_duplicates()) by {
        assert forall|i: int, j: int| 0 <= i < s.len() && 0 <= j < s.len() && i != j implies s[i]
            != s[j] by {
            assert(ids_of(s)[i] != ids_of(s)[j]);
        }
    }
    s.lemma_multiset_has_no_duplicates();
    r.lemma_multiset_has_no_duplicates_conv();
    assert forall|e: Entry| r.contains(e) <==> s.contains(e) by {
        assert(r.to_multiset().count(e) == s.to_multiset().count(e));
    }
    assert forall|i: int| 0 <= i < r.len() implies (#[trigger] r[i]).expiry_at
        == msgs[r[i].id].expiry_at by {
        assert(s.contains(r[i]));
        let j = choose|j: int| 0 <= j < s.len() && s[j] == r[i];
        assert(s[j].expiry_at == msgs[s[j].id].expiry_at);
    }
    assert forall|i: int, j: int| 0 <= i < r.len() && 0 <= j < r.len() && i != j implies ids_of(
        r,
    )[i] != ids_of(r)[j] by {
        if r[i].id == r[j].id {
            assert(r[i].expiry_at == r[j].expiry_at);
            assert(r[i] == r[j]);
        }
    }
    assert forall|x: u64| ids_of(r).to_set().contains(x) <==> msgs.dom().contains(x) by {
        if ids_of(r).contains(x) {
            let i = choose|i: int| 0 <= i < r.len() && ids_of(r)[i] == x;
            assert(s.contains(r[i]));
            let j = choose|j: int| 0 <= j < s.len() && s[j] == r[i];
            assert(ids_of(s)[j] == x);
            assert(ids_of(s).to_set().contains(x));
        }
        if msgs.dom().contains(x) {
            assert(ids_of(s).to_set().contains(x));
            let i = choose|i: int| 0 <= i < s.len() && ids_of(s)[i] == x;
            assert(r.contains(s[i]));
            let j = choose|j: int| 0 <= j < r.len() && r[j] == s[i];
            assert(ids_of(r)[j] == x);
        }
    }
    assert(ids_of(r).to_set() =~= msgs.dom());
    assert forall|i: int, j: int|
        #![trigger ids_of(r)[i], ids_of(r)[j]]
        0 <= i < j < r.len() implies msgs[ids_of(r)[i]].expiry_at < msgs[ids_of(r)[j]].expiry_at
        || (msgs[ids_of(r)[i]].expiry_at == msgs[ids_of(r)[j]].expiry_at && ids_of(r)[i] < ids_of(
        r,
    )[j]) by {
        assert(r[i].ranks(&r[j]));
        assert(ids_of(r)[i] != ids_of(r)[j]);
    }
}

proof fn lemma_loaded_keys(rows: Seq<(u64, Option<MsgView>)>, now: int, id: u64)
    ensures
        loaded(rows, now).contains_key(id) ==> exists|i: int|
            0 <= i < rows.len() && (#[trigger] rows[i]).0 == id,
    decreases rows.len(),
{
    if rows.len() > 0 {
        let rest = rows.drop_last();
        lemma_loaded_keys(rest, now, id);
        if loaded(rows, now).contains_key(id) {
            if loaded(rest, now).contains_key(id) {
                let i = choose|i: int| 0 <= i < rest.len() && (#[trigger] rest[i]).0 == id;
                assert(rows[i].0 == id);
            } else {
                assert(rows[rows.len() - 1].0 == id);
            }
        }
    }
}

proof fn lemma_loaded_size_grows(rows: Seq<(u64, Option<MsgView>)>, now: int, i: int)
    requires
        0 <= i <= rows.len(),
    ensures
        loaded_size(rows.take(i), now) <= loaded_size(rows, now),
    decreases rows.len() - i,
{
    if i < rows.len() {
        lemma_loaded_size_grows(rows, now, i + 1);
        assert(rows.take(i + 1).drop_last() =~= rows.take(i));
        assert(rows.take(i + 1).last() == rows[i]);
    } else {
        assert(rows.take(i) =~= rows);
    }
}

/// Sums over ids do not see a message under another id.
proof fn lemma_total_insert(ids: Seq<u64>, msgs: Map<u64, MsgView>, id: u64, m: MsgView)
    requires
        !ids.contains(id),
    ensures
        total_size(ids, msgs.insert(id, m)) == total_size(ids, msgs),
    decreases ids.len(),
{
    if ids.len() > 0 {
        let rest = ids.drop_last();
        assert(!rest.contains(id)) by {
            if rest.contains(id) {
                let k = choose|k: int| 0 <= k < rest.len() && rest[k] == id;
                assert(ids[k] == id);
            }
        }
        assert(ids.contains(ids.last()));
        lemma_total_insert(rest, msgs, id, m);
    }
}

/// What is known of the messages while a table is being read.
spec fn loading(
    st: Map<u64, MsgView>,
    entries: Seq<Entry>,
    bytes: int,
    rows: Seq<(u64, Option<MsgView>)>,
    now: int,
) -> bool {
    &&& st == loaded(rows, now)
    &&& entries_of(entries, st)
    &&& bytes == loaded_size(rows, now)
    &&& bytes == total_size(ids_of(entries), st)
    &&& forall|id: u64| #[trigger] st.contains_key(id) ==> size_of_msg(st[id]) <= usize::MAX
}

proof fn lemma_loading_step(
    st: Map<u64, MsgView>,
    entries: Seq<Entry>,
    bytes: int,
    rows: Seq<(u64, Option<MsgView>)>,
    now: int,
    e: Entry,
)
    requires
        rows.len() > 0,
        distinct_ids(rows),
        row_live(rows.last(), now),
        e.id == rows.last().0,
        e.expiry_at == rows.last().1->0.expiry_at,
        size_of_msg(rows.last().1->0) <= usize::MAX,
        loading(st, entries, bytes, rows.drop_last(), now),
    ensures
        loading(
            st.insert(e.id, rows.last().1->0),
            entries.push(e),
            bytes + size_of_msg(rows.last().1->0),
            rows,
            now,
        ),
        !st.contains_key(e.id),
{
    let m = rows.last().1->0;
    let id = e.id;
    let rest = rows.drop_last();
    lemma_loaded_keys(rest, now, id);
    if st.contains_key(id) {
        let i = choose|i: int| 0 <= i < rest.len() && (#[trigger] rest[i]).0 == id;
        assert(rows[i].0 == rows[rows.len() - 1].0);
    }
    let es = entries.push(e);
    let st1 = st.insert(id, m);
    let ids = ids_of(entries);
    assert(!ids.to_set().contains(id));
    assert(!ids.contains(id));
    assert(ids_of(es) =~= ids.push(id));
    lemma_push_to_set(ids, id);
    assert(ids_of(es).to_set() =~= st1.dom());
    assert(ids_of(es).no_duplicates()) by {
        assert forall|a: int, b: int|
            0 <= a < es.len() && 0 <= b < es.len() && a != b implies ids_of(es)[a] != ids_of(
            es,
        )[b] by {
            if a < ids.len() {
                assert(ids.contains(ids[a]));
            }
            if b < ids.len() {
                assert(ids.contains(ids[b]));
            }
        }
    }
    assert forall|i: int| 0 <= i < es.len() implies (#[trigger] es[i]).expiry_at
        == st1[es[i].id].expiry_at by {
        if i < entries.len() {
            assert(entries[i].expiry_at == st[entries[i].id].expiry_at);
            assert(ids.contains(ids[i]));
        }
    }
    lemma_total_insert(ids, st, id, m);
    assert(ids_of(es).drop_last() =~= ids);
}

impl RedbMessageStore {
    /// The number of messages that have not expired.
    pub fn count(&self, now: i64) -> (r: usize)
        requires
            self.wf(),
        ensures
            r == self@.queue.live(now as int).len(),
    {
        let ghost q = self@.queue;
        let ghost p = |id: u64| q.msgs[id].expiry_at > now;
        let mut r: usize = 0;
        let mut i: usize = 0;
        let n = self.state.order.len();
        proof {
            reveal(Seq::filter);
            assert(q.order.take(0).filter(p) =~= Seq::empty());
        }
        while i < n
            invariant
                i <= n,
                n == q.order.len(),
                q == self@.queue,
                q.wf(),
                p == (|id: u64| q.msgs[id].expiry_at > now),
                r <= i,
                r == q.order.take(i as int).filter(p).len(),
            decreases n - i,
        {
            let id = self.state.order[i];
            proof {
                assert(q.order.contains(id));
                assert(q.order.to_set().contains(id));
                assert(q.order.take(i + 1) =~= q.order.take(i as int).push(id));
                q.order.take(i as int).lemma_filter_push(id, p);
            }
            if let Some(m) = self.state.msgs.get(&id) {
                if m.expiry_at > now {
                    r += 1;
                }
            }
            i += 1;
        }
        proof {
            assert(q.order.take(i as int) =~= q.order);
            lemma_filter_set(q.order, p);
            assert(q.order.filter(p).to_set() =~= q.live(now as int));
        }
        r
    }

    /// Evicts, and then hands out everything that the disk has to be told.
    pub fn flush(&mut self, now: i64) -> (r: Flush)
        requires
            old(self).wf(),
        ensures
            final(self).wf(),
            ({
                let q = old(self)@.evicted(now as int);
                &&& final(self)@ == (StoreView { queue: q.clean(), ..old(self)@ })
                &&& tells(q, batch_views(r.batch@), r.removed@)
            }),
    {
        self.state.evict(now, self.max_msgs, self.max_bytes);
        let ghost q = self.state@;
        let ghost p = |id: u64| q.dirty.contains(id);
        let mut batch: Vec<(u64, StoredMsg)> = Vec::new();
        let mut i: usize = 0;
        let n = self.state.order.len();
        proof {
            reveal(Seq::filter);
            assert(q.order.take(0).filter(p) =~= Seq::empty());
        }
        while i < n
            invariant
                i <= n,
                n == q.order.len(),
                q == self.state@,
                q.wf(),
                p == (|id: u64| q.dirty.contains(id)),
                batch@.len() == q.order.take(i as int).filter(p).len(),
                forall|k: int|
                    0 <= k < batch@.len() ==> (#[trigger] batch@[k]).0 == q.order.take(
                        i as int,
                    ).filter(p)[k] && batch@[k].1@ == q.msgs[batch@[k].0],
            decreases n - i,
        {
            let id = self.state.order[i];
            proof {
                assert(q.order.contains(id));
                assert(q.order.to_set().contains(id));
                assert(q.order.take(i + 1) =~= q.order.take(i as int).push(id));
                q.order.take(i as int).lemma_filter_push(id, p);
            }
            if self.state.dirty.contains(&id) {
                if let Some(m) = self.state.msgs.get(&id) {
                    batch.push((id, m.duplicate()));
                }
            }
            i += 1;
        }
        assert(q.order.take(i as int) =~= q.order);
        let mut removed: Vec<u64> = Vec::new();
        let ids = self.state.removed.iter();
        let ghost all = ids.remaining().unref();
        proof {
            assert forall|a: int, b: int|
                0 <= a < all.len() && 0 <= b < all.len() && a != b implies all[a] != all[b] by {
                assert(ids.remaining()[a] != ids.remaining()[b]);
            }
        }
        for id in it: ids
            invariant
                it.seq().unref() == all,
                removed@ == all.take(it.index() as int),
        {
            removed.push(*id);
            assert(removed@ =~= all.take(it.index() + 1));
        }
        assert(removed@ =~= all);
        self.state.dirty.clear();
        self.state.removed.clear();
        assert(self.state@ == q.clean());
        Flush { batch, removed }
    }

    /// The store over a table that was read from disk: the messages that have
    /// not expired, queued in the order in which they will, and a counter past
    /// every id of this node. A limit of zero is none.
    pub fn open(
        rows: Vec<(u64, Option<StoredMsg>)>,
        node_id: u64,
        now: i64,
        max_msgs: usize,
        max_bytes: usize,
    ) -> (r: RedbMessageStore)
        requires
            distinct_ids(rows_view(rows@)),
            loaded_size(rows_view(rows@), now as int) <= usize::MAX,
        ensures
            r.wf(),
            r@.queue.exact(),
            r@.queue.msgs == loaded(rows_view(rows@), now as int),
            by_expiry(r@.queue.order, r@.queue.msgs),
            r@.queue.dirty == Set::<u64>::empty(),
            r@.queue.removed == Set::<u64>::empty(),
            r@.node_id == node_id,
            r@.counter == next_counter(rows_view(rows@), node_id),
            r@.max_msgs == max_msgs,
            r@.max_bytes == max_bytes,
    {
        let ghost all = rows_view(rows@);
        let mut state = MemState::new();
        let mut entries: VecDeque<Entry> = VecDeque::new();
        let mut start: u64 = 0;
        let mut bytes: usize = 0;
        proof {
            assert(all.take(0) =~= Seq::empty());
            assert(ids_of(entries@) =~= Seq::empty());
            assert(ids_of(entries@).to_set() =~= Set::empty());
            assert(state@.msgs.dom() =~= Set::empty());
        }
        for row in it: rows
            invariant
                it.seq() == rows@,
                all == rows_view(rows@),
                distinct_ids(all),
                loaded_size(all, now as int) <= usize::MAX,
                loading(
                    state@.msgs,
                    entries@,
                    bytes as int,
                    all.take(it.index() as int),
                    now as int,
                ),
                start == next_counter(all.take(it.index() as int), node_id),
                state@.order == Seq::<u64>::empty(),
                state@.dirty == Set::<u64>::empty(),
                state@.removed == Set::<u64>::empty(),
        {
            let ghost i = it.index() as int;
            let ghost seen = all.take(i + 1);
            proof {
                assert(seen.drop_last() =~= all.take(i));
                assert(seen.last() == row_view(row));
                assert forall|a: int, b: int|
                    #![trigger seen[a], seen[b]]
                    0 <= a < b < seen.len() implies seen[a].0 != seen[b].0 by {
                    assert(all[a].0 != all[b].0);
                }
                lemma_loaded_size_grows(all, now as int, i + 1);
            }
            let (id, msg) = row;
            assert(id & COUNTER_MASK <= COUNTER_MASK) by (bit_vector);
            if id >> 48u64 == node_id {
                let c: u64 = (id & COUNTER_MASK) + 1;
                if c > start {
                    start = c;
                }
            }
            if let Some(m) = msg {
                if m.expiry_at > now {
                    let e = Entry { expiry_at: m.expiry_at, id };
                    proof {
                        lemma_loaded_size_nonneg(all.take(i), now as int);
                        lemma_loading_step(
                            state@.msgs,
                            entries@,
                            bytes as int,
                            seen,
                            now as int,
                            e,
                        );
                    }
                    bytes = bytes + approx_size(&m);
                    let ghost before = state@.msgs;
                    let ghost mv = m@;
                    state.msgs.insert(id, m);
                    assert(state@.msgs =~= before.insert(id, mv));
                    entries.push_back(e);
                }
            }
        }
        assert(all.take(all.len() as int) =~= all);
        let ghost unsorted = entries@;
        let sorted = sort::sort(entries);
        proof {
            lemma_sorted_entries(sorted@, unsorted, state@.msgs);
            lemma_total_permuted(ids_of(unsorted), ids_of(sorted@), state@.msgs);
        }
        let ghost msgs = state@.msgs;
        let mut k: usize = 0;
        while k < sorted.len()
            invariant
                k <= sorted.len(),
                state@.msgs == msgs,
                state@.order == ids_of(sorted@).take(k as int),
                state@.dirty == Set::<u64>::empty(),
                state@.removed == Set::<u64>::empty(),
            decreases sorted.len() - k,
        {
            let id = sorted[k].id;
            state.order.push_back(id);
            k += 1;
            assert(state@.order =~= ids_of(sorted@).take(k as int));
        }
        assert(ids_of(sorted@).take(k as int) =~= ids_of(sorted@));
        state.bytes = bytes;
        RedbMessageStore { node_id, counter: start, state, max_msgs, max_bytes }
    }
}

proof fn lemma_loaded_size_nonneg(rows: Seq<(u64, Option<MsgView>)>, now: int)
    ensures
        loaded_size(rows, now) >= 0,
    decreases rows.len(),
{
    if rows.len() > 0 {
        lemma_loaded_size_nonneg(rows.drop_last(), now);
    }
}

/// The values of a sequence without duplicates that satisfy a predicate are as
/// many as the set of them.
proof fn lemma_filter_set(s: Seq<u64>, p: spec_fn(u64) -> bool)
    requires
        s.no_duplicates(),
    ensures
        s.filter(p).no_duplicates(),
        s.filter(p).len() == s.filter(p).to_set().len(),
        s.filter(p).to_set() == s.to_set().filter(p),
    decreases s.len(),
{
    reveal(Seq::filter);
    if s.len() > 0 {
        let t = s.drop_last();
        let x = s.last();
        lemma_filter_set(t, p);
        assert(!t.contains(x)) by {
            if t.contains(x) {
                let k = choose|k: int| 0 <= k < t.len() && t[k] == x;
                assert(s[k] == s[s.len() - 1]);
            }
        }
        assert(!t.filter(p).contains(x)) by {
            if t.filter(p).contains(x) {
                assert(t.filter(p).to_set().contains(x));
                assert(t.to_set().contains(x));
            }
        }
        assert(s =~= t.push(x));
        lemma_push_to_set(t, x);
        lemma_push_to_set(t.filter(p), x);
        if p(x) {
            let f = t.filter(p).push(x);
            assert(s.filter(p) =~= f);
            assert forall|a: int, b: int|
                0 <= a < f.len() && 0 <= b < f.len() && a != b implies f[a] != f[b] by {
                if a < f.len() - 1 {
                    assert(t.filter(p).contains(f[a]));
                }
                if b < f.len() - 1 {
                    assert(t.filter(p).contains(f[b]));
                }
            }
        }
    }
    assert(s.filter(p).to_set() =~= s.to_set().filter(p));
    s.filter(p).unique_seq_to_set();
}

proof fn lemma_total_nonneg(ids: Seq<u64>, msgs: Map<u64, MsgView>)
    ensures
        total_size(ids, msgs) >= 0,
    decreases ids.len(),
{
    if ids.len() > 0 {
        lemma_total_nonneg(ids.drop_last(), msgs);
    }
}

/// A sum is the same over maps whose messages have the same sizes.
proof fn lemma_total_same_sizes(ids: Seq<u64>, a: Map<u64, MsgView>, b: Map<u64, MsgView>)
    requires
        forall|i: int| 0 <= i < ids.len() ==> size_of_msg(a[#[trigger] ids[i]]) == size_of_msg(
            b[ids[i]],
        ),
    ensures
        total_size(ids, a) == total_size(ids, b),
    decreases ids.len(),
{
    if ids.len() > 0 {
        let rest = ids.drop_last();
        assert forall|i: int| 0 <= i < rest.len() implies size_of_msg(a[#[trigger] rest[i]])
            == size_of_msg(b[rest[i]]) by {
            assert(rest[i] == ids[i]);
        }
        lemma_total_same_sizes(rest, a, b);
        assert(ids[ids.len() - 1] == ids.last());
    }
}

proof fn lemma_drop_oldest_exact(v: MemView)
    requires
        v.wf(),
        v.exact(),
        v.order.len() > 0,
    ensures
        v.drop_oldest().exact(),
        v.drop_oldest().bytes <= v.bytes,
{
    let id = v.order[0];
    let w = v.drop_oldest();
    lemma_total_remove(v.order, 0, v.msgs);
    assert(v.order.remove(0) =~= w.order);
    lemma_total_nonneg(w.order, v.msgs);
    assert forall|i: int| 0 <= i < w.order.len() implies size_of_msg(v.msgs[#[trigger] w.order[i]])
        == size_of_msg(w.msgs[w.order[i]]) by {
        assert(w.order[i] == v.order[i + 1]);
        assert(v.order[0] != v.order[i + 1]);
    }
    lemma_total_same_sizes(w.order, v.msgs, w.msgs);
}

/// The memory counted for a queue stays the exact sum of what its messages use
/// when messages are dropped for age or to make room.
pub proof fn law_eviction_counts_exactly(v: MemView, now: int, max_msgs: int, max_bytes: int)
    requires
        v.wf(),
        v.exact(),
    ensures
        v.evict(now, max_msgs, max_bytes).wf(),
        v.evict(now, max_msgs, max_bytes).exact(),
    decreases v.order.len(),
{
    if v.must_drop(now, max_msgs, max_bytes) {
        lemma_drop_oldest_wf(v);
        lemma_drop_oldest_exact(v);
        law_eviction_counts_exactly(v.drop_oldest(), now, max_msgs, max_bytes);
    }
}

/// The memory counted for a queue stays exact when a message is stored, be it
/// new or in place of another, as long as the sum can be counted at all.
pub proof fn law_storing_counts_exactly(v: MemView, id: u64, msg: MsgView)
    requires
        v.wf(),
        v.exact(),
        v.bytes + size_of_msg(msg) <= usize::MAX,
    ensures
        v.put(id, msg).wf(),
        v.put(id, msg).exact(),
{
    let w = v.put(id, msg);
    lemma_put_wf(v, id, msg);
    if v.msgs.contains_key(id) {
        assert(v.order.to_set().contains(id));
        let k = choose|k: int| 0 <= k < v.order.len() && v.order[k] == id;
        lemma_total_remove(v.order, k, v.msgs);
        lemma_total_remove(v.order, k, w.msgs);
        let rest = v.order.remove(k);
        lemma_total_nonneg(rest, v.msgs);
        assert forall|i: int| 0 <= i < rest.len() implies size_of_msg(v.msgs[#[trigger] rest[i]])
            == size_of_msg(w.msgs[rest[i]]) by {
            let j = if i < k {
                i
            } else {
                i + 1
            };
            assert(rest[i] == v.order[j]);
            assert(v.order[j] != v.order[k]);
        }
        lemma_total_same_sizes(rest, v.msgs, w.msgs);
    } else {
        assert(!v.order.to_set().contains(id));
        assert(!v.order.contains(id));
        lemma_total_insert(v.order, v.msgs, id, msg);
        assert(w.order.drop_last() =~= v.order);
    }
}

/// Handing messages out does not change the memory counted for them.
pub proof fn law_delivery_counts_exactly(v: MemView, ids: Set<u64>, client: Seq<char>)
    requires
        v.wf(),
        v.exact(),
        ids.subset_of(v.msgs.dom()),
    ensures
        v.mark(ids, client).wf(),
        v.mark(ids, client).exact(),
{
    let w = v.mark(ids, client);
    lemma_mark_wf(v, ids, client);
    assert forall|i: int| 0 <= i < v.order.len() implies size_of_msg(v.msgs[#[trigger] v.order[i]])
        == size_of_msg(w.msgs[v.order[i]]) by {
        assert(v.order.contains(v.order[i]));
        assert(v.order.to_set().contains(v.order[i]));
    }
    lemma_total_same_sizes(v.order, v.msgs, w.msgs);
}

/// After an eviction the queue is within its limits, and its oldest message
/// has not expired.
pub proof fn law_eviction_meets_limits(v: MemView, now: int, max_msgs: int, max_bytes: int)
    requires
        v.wf(),
        v.exact(),
    ensures
        ({
            let e = v.evict(now, max_msgs, max_bytes);
            &&& max_msgs > 0 ==> e.order.len() <= max_msgs
            &&& max_bytes > 0 ==> e.bytes <= max_bytes
            &&& e.order.len() > 0 ==> e.msgs[e.order[0]].expiry_at > now
        }),
    decreases v.order.len(),
{
    if v.must_drop(now, max_msgs, max_bytes) {
        lemma_drop_oldest_wf(v);
        lemma_drop_oldest_exact(v);
        law_eviction_meets_limits(v.drop_oldest(), now, max_msgs, max_bytes);
    }
}

/// An eviction takes messages from the old end only: what stays is the newest
/// part of the queue, in the same order and unchanged, and every message that
/// went is noted as gone.
pub proof fn law_eviction_keeps_the_newest(v: MemView, now: int, max_msgs: int, max_bytes: int)
    requires
        v.wf(),
    ensures
        ({
            let e = v.evict(now, max_msgs, max_bytes);
            &&& e.order.len() <= v.order.len()
            &&& e.order == v.order.skip(v.order.len() - e.order.len())
            &&& e.msgs == v.msgs.restrict(e.msgs.dom())
            &&& e.msgs.dom().subset_of(v.msgs.dom())
            &&& e.removed == v.removed.union(v.msgs.dom().difference(e.msgs.dom()))
            &&& e.dirty == v.dirty.intersect(e.msgs.dom())
        }),
    decreases v.order.len(),
{
    let e = v.evict(now, max_msgs, max_bytes);
    if v.must_drop(now, max_msgs, max_bytes) {
        let w = v.drop_oldest();
        lemma_drop_oldest_wf(v);
        law_eviction_keeps_the_newest(w, now, max_msgs, max_bytes);
        assert(e.order =~= v.order.skip(v.order.len() - e.order.len()));
        assert(e.msgs =~= v.msgs.restrict(e.msgs.dom())) by {
            assert forall|id: u64| e.msgs.contains_key(id) implies e.msgs[id] == v.msgs[id] by {
                assert(w.msgs.contains_key(id));
                assert(e.msgs[id] == w.msgs.restrict(e.msgs.dom())[id]);
            }
        }
        assert(e.removed =~= v.removed.union(v.msgs.dom().difference(e.msgs.dom())));
        assert(e.dirty =~= v.dirty.intersect(e.msgs.dom()));
    } else {
        assert(e.order =~= v.order.skip(0));
        assert(e.msgs =~= v.msgs.restrict(e.msgs.dom()));
        assert(e.removed =~= v.removed.union(v.msgs.dom().difference(e.msgs.dom())));
        assert(e.dirty =~= v.dirty.intersect(e.msgs.dom()));
    }
}

/// A queue that is within its limits loses nothing but expired messages.
pub proof fn law_within_limits_only_expired_go(
    v: MemView,
    now: int,
    max_msgs: int,
    max_bytes: int,
    id: u64,
)
    requires
        v.wf(),
        !v.over_cap(max_msgs, max_bytes),
        v.msgs.contains_key(id),
        v.msgs[id].expiry_at > now,
    ensures
        v.evict(now, max_msgs, max_bytes).msgs.contains_key(id),
        v.evict(now, max_msgs, max_bytes).msgs[id] == v.msgs[id],
    decreases v.order.len(),
{
    if v.must_drop(now, max_msgs, max_bytes) {
        lemma_drop_oldest_wf(v);
        let w = v.drop_oldest();
        assert(size_of_msg(v.msgs[v.order[0]]) >= 0);
        assert(w.bytes <= v.bytes);
        law_within_limits_only_expired_go(w, now, max_msgs, max_bytes, id);
    }
}

/// A queue that is within its limits stays within them as messages go.
proof fn lemma_evict_within_limits(v: MemView, now: int, max_msgs: int, max_bytes: int)
    requires
        v.wf(),
        !v.over_cap(max_msgs, max_bytes),
    ensures
        !v.evict(now, max_msgs, max_bytes).over_cap(max_msgs, max_bytes),
    decreases v.order.len(),
{
    if v.must_drop(now, max_msgs, max_bytes) {
        lemma_drop_oldest_wf(v);
        assert(size_of_msg(v.msgs[v.order[0]]) >= 0);
        lemma_evict_within_limits(v.drop_oldest(), now, max_msgs, max_bytes);
    }
}

/// A client is handed exactly the queued messages that have not expired, that
/// it has not had, and whose topics its filter matches.
pub proof fn law_get_hands_out_what_is_owed(
    v: MemView,
    client: Seq<char>,
    filter: Seq<char>,
    now: int,
    id: u64,
)
    requires
        v.wf(),
    ensures
        v.owed_ids(client, filter, now).no_duplicates(),
        v.owed_ids(client, filter, now).contains(id) <==> {
            &&& v.msgs.contains_key(id)
            &&& v.msgs[id].expiry_at > now
            &&& !v.msgs[id].delivered_to.contains(client)
            &&& topic::matches_topic(v.msgs[id].publish.topic, filter)
        },
{
    let p = |x: u64| v.owed(x, client, filter, now);
    lemma_filter_set(v.order, p);
    assert(v.order.filter(p).contains(id) <==> v.order.filter(p).to_set().contains(id));
    assert(v.order.to_set().contains(id) <==> v.msgs.dom().contains(id));
}

/// Whether a message is among what is handed out for a list of ids.
pub open spec fn handed_out(q: MemView, ids: Seq<u64>, id: u64, msg: MsgView) -> bool {
    exists|i: int|
        0 <= i < ids.len() && #[trigger] q.deliveries(ids)[i] == (DeliveryView {
            msg_id: id,
            from: msg.from,
            publish: msg.publish,
        })
}

/// What was stored is handed out again as it was stored, until it expires, to a
/// client that has not had it and asks for its topic: always if the queue is
/// within its limits with it, and else for as long as it has not been dropped.
pub proof fn law_get_gives_back_what_was_stored(
    s: StoreView,
    id: u64,
    msg: MsgView,
    stored_at: int,
    client: Seq<char>,
    filter: Seq<char>,
    asked_at: int,
)
    requires
        s.queue.wf(),
        size_of_msg(msg) <= usize::MAX,
        !msg.delivered_to.contains(client),
        topic::matches_topic(msg.publish.topic, filter),
        msg.expiry_at > asked_at,
    ensures
        ({
            let put = s.queue.put(id, msg);
            let kept = StoreView { queue: put, ..s }.evicted(stored_at);
            let q = StoreView { queue: kept, ..s }.evicted(asked_at);
            let ids = q.owed_ids(client, filter, asked_at);
            &&& q.msgs.contains_key(id) ==> handed_out(q, ids, id, msg)
            &&& !put.over_cap(s.max_msgs, s.max_bytes) && msg.expiry_at > stored_at ==> handed_out(
                q,
                ids,
                id,
                msg,
            )
        }),
{
    let put = s.queue.put(id, msg);
    let kept = StoreView { queue: put, ..s }.evicted(stored_at);
    let q = StoreView { queue: kept, ..s }.evicted(asked_at);
    let ids = q.owed_ids(client, filter, asked_at);
    lemma_put_wf(s.queue, id, msg);
    lemma_evict_wf(put, stored_at, s.max_msgs, s.max_bytes);
    lemma_evict_wf(kept, asked_at, s.max_msgs, s.max_bytes);
    if !put.over_cap(s.max_msgs, s.max_bytes) && msg.expiry_at > stored_at {
        law_within_limits_only_expired_go(put, stored_at, s.max_msgs, s.max_bytes, id);
        lemma_evict_within_limits(put, stored_at, s.max_msgs, s.max_bytes);
        law_within_limits_only_expired_go(kept, asked_at, s.max_msgs, s.max_bytes, id);
    }
    if q.msgs.contains_key(id) {
        law_eviction_keeps_the_newest(put, stored_at, s.max_msgs, s.max_bytes);
        law_eviction_keeps_the_newest(kept, asked_at, s.max_msgs, s.max_bytes);
        assert(kept.msgs.contains_key(id));
        assert(q.msgs[id] == kept.msgs.restrict(q.msgs.dom())[id]);
        assert(kept.msgs[id] == put.msgs.restrict(kept.msgs.dom())[id]);
        assert(q.msgs[id] == msg);
        law_get_hands_out_what_is_owed(q, client, filter, asked_at, id);
        let i = choose|i: int| 0 <= i < ids.len() && ids[i] == id;
        assert(q.deliveries(ids)[i].msg_id == id);
    }
}

/// A message has not expired before its lifetime is over. The last moment that
/// can be counted is the end of every lifetime.
pub proof fn law_messages_live_for_their_lifetime(stored_at: i64, lifetime: u128, asked_at: i64)
    requires
        lifetime <= i64::MAX,
        asked_at < stored_at + lifetime,
        asked_at < i64::MAX,
    ensures
        expiry_of(stored_at, lifetime) > asked_at,
{
}

/// A message is handed out to nobody once its lifetime is over.
pub proof fn law_messages_expire(
    v: MemView,
    id: u64,
    stored_at: i64,
    lifetime: u128,
    client: Seq<char>,
    filter: Seq<char>,
    asked_at: i64,
)
    requires
        v.wf(),
        v.msgs.contains_key(id),
        v.msgs[id].expiry_at == expiry_of(stored_at, lifetime),
        lifetime <= i64::MAX,
        stored_at + lifetime <= asked_at,
    ensures
        !v.owed_ids(client, filter, asked_at as int).contains(id),
{
    law_get_hands_out_what_is_owed(v, client, filter, asked_at as int, id);
}

/// No client is handed a message twice: of what it has got, a later request
/// hands out nothing, whatever its filter.
pub proof fn law_delivered_once(
    s: StoreView,
    client: Seq<char>,
    filter: Seq<char>,
    now: int,
    later_filter: Seq<char>,
    later: int,
    id: u64,
)
    requires
        s.queue.wf(),
    ensures
        ({
            let q = s.evicted(now);
            let ids = q.owed_ids(client, filter, now);
            let after = StoreView { queue: q.mark(ids.to_set(), client), ..s }.evicted(later);
            ids.contains(id) ==> !after.owed_ids(client, later_filter, later).contains(id)
        }),
{
    let q = s.evicted(now);
    let ids = q.owed_ids(client, filter, now);
    let marked = q.mark(ids.to_set(), client);
    let after = StoreView { queue: marked, ..s }.evicted(later);
    lemma_evict_wf(s.queue, now, s.max_msgs, s.max_bytes);
    law_get_hands_out_what_is_owed(q, client, filter, now, id);
    assert(ids.to_set().subset_of(q.msgs.dom())) by {
        lemma_filter_set(q.order, |x: u64| q.owed(x, client, filter, now));
    }
    lemma_mark_wf(q, ids.to_set(), client);
    lemma_evict_wf(marked, later, s.max_msgs, s.max_bytes);
    law_eviction_keeps_the_newest(marked, later, s.max_msgs, s.max_bytes);
    law_get_hands_out_what_is_owed(after, client, later_filter, later, id);
    if ids.contains(id) && after.msgs.contains_key(id) {
        assert(after.msgs[id] == marked.msgs.restrict(after.msgs.dom())[id]);
        let had = q.msgs[id].delivered_to;
        assert(marked.msgs[id].delivered_to == had.push(client));
        assert(had.push(client)[had.len() as int] == client);
    }
}

/// Handing messages to one client leaves what another is owed as it was.
pub proof fn law_clients_do_not_interfere(
    v: MemView,
    client: Seq<char>,
    other: Seq<char>,
    ids: Set<u64>,
    filter: Seq<char>,
    now: int,
)
    requires
        v.wf(),
        client != other,
        ids.subset_of(v.msgs.dom()),
    ensures
        v.mark(ids, client).owed_ids(other, filter, now) == v.owed_ids(other, filter, now),
        v.mark(ids, client).deliveries(v.owed_ids(other, filter, now)) == v.deliveries(
            v.owed_ids(other, filter, now),
        ),
{
    let w = v.mark(ids, client);
    let p = |id: u64| v.owed(id, other, filter, now);
    let q = |id: u64| w.owed(id, other, filter, now);
    assert forall|i: int| 0 <= i < v.order.len() implies p(#[trigger] v.order[i]) == q(
        v.order[i],
    ) by {
        let id = v.order[i];
        assert(v.order.contains(id));
        assert(v.order.to_set().contains(id));
        let had = v.msgs[id].delivered_to;
        let has = had.push(client);
        if had.contains(other) {
            let k = choose|k: int| 0 <= k < had.len() && had[k] == other;
            assert(has[k] == other);
        }
        if has.contains(other) {
            let k = choose|k: int| 0 <= k < has.len() && has[k] == other;
            assert(had[k] == other);
        }
    }
    lemma_filter_agrees(v.order, p, q);
    let due = v.owed_ids(other, filter, now);
    assert forall|i: int| 0 <= i < due.len() implies w.deliveries(due)[i]
        == v.deliveries(due)[i] by {
        law_get_hands_out_what_is_owed(v, other, filter, now, due[i]);
        assert(due.contains(due[i]));
    }
    assert(w.deliveries(due) =~= v.deliveries(due));
}

/// Predicates that agree on a sequence filter it alike.
proof fn lemma_filter_agrees(s: Seq<u64>, p: spec_fn(u64) -> bool, q: spec_fn(u64) -> bool)
    requires
        forall|i: int| 0 <= i < s.len() ==> p(#[trigger] s[i]) == q(s[i]),
    ensures
        s.filter(p) == s.filter(q),
    decreases s.len(),
{
    reveal(Seq::filter);
    if s.len() > 0 {
        let t = s.drop_last();
        assert forall|i: int| 0 <= i < t.len() implies p(#[trigger] t[i]) == q(t[i]) by {
            assert(t[i] == s[i]);
        }
        lemma_filter_agrees(t, p, q);
        assert(p(s[s.len() - 1]) == q(s[s.len() - 1]));
    }
}

/// Whether a table on disk lacks nothing of a queue but what the queue still
/// has to tell it; what is only on disk had expired at `since`.
pub open spec fn agrees(q: MemView, disk: Map<u64, MsgView>, since: int) -> bool {
    &&& forall|id: u64| #[trigger]
        q.msgs.contains_key(id) && !q.dirty.contains(id) ==> disk.contains_key(id) && disk[id]
            == q.msgs[id]
    &&& forall|id: u64| #[trigger]
        disk.contains_key(id) && !q.msgs.contains_key(id) && !q.removed.contains(id)
            ==> disk[id].expiry_at <= since
}

/// The table after a flush of the queue `q`: what went is gone, what changed
/// is written.
pub open spec fn written(disk: Map<u64, MsgView>, q: MemView) -> Map<u64, MsgView> {
    disk.remove_keys(q.removed).union_prefer_right(q.msgs.restrict(q.dirty))
}

/// A table after messages were written to it, in this order.
pub open spec fn put_all(disk: Map<u64, MsgView>, batch: Seq<(u64, MsgView)>) -> Map<u64, MsgView>
    decreases batch.len(),
{
    if batch.len() == 0 {
        disk
    } else {
        put_all(disk, batch.drop_last()).insert(batch.last().0, batch.last().1)
    }
}

proof fn lemma_put_all(
    disk: Map<u64, MsgView>,
    batch: Seq<(u64, MsgView)>,
    msgs: Map<u64, MsgView>,
    id: u64,
)
    requires
        forall|i: int| 0 <= i < batch.len() ==> (#[trigger] batch[i]).1 == msgs[batch[i].0],
    ensures
        ({
            let d = put_all(disk, batch);
            if exists|i: int| 0 <= i < batch.len() && (#[trigger] batch[i]).0 == id {
                d.contains_key(id) && d[id] == msgs[id]
            } else {
                d.contains_key(id) == disk.contains_key(id) && d[id] == disk[id]
            }
        }),
    decreases batch.len(),
{
    if batch.len() > 0 {
        let rest = batch.drop_last();
        let n = batch.len() - 1;
        assert forall|i: int| 0 <= i < rest.len() implies (#[trigger] rest[i]).1
            == msgs[rest[i].0] by {
            assert(rest[i] == batch[i]);
        }
        lemma_put_all(disk, rest, msgs, id);
        assert(batch[n] == batch.last());
        if batch[n].0 != id {
            if exists|i: int| 0 <= i < batch.len() && (#[trigger] batch[i]).0 == id {
                let i = choose|i: int| 0 <= i < batch.len() && (#[trigger] batch[i]).0 == id;
                assert(rest[i].0 == id);
            }
            if exists|i: int| 0 <= i < rest.len() && (#[trigger] rest[i]).0 == id {
                let i = choose|i: int| 0 <= i < rest.len() && (#[trigger] rest[i]).0 == id;
                assert(batch[i].0 == id);
            }
        }
    }
}

/// Removing the ids and writing the messages that a flush hands out turns the
/// table into what it has to be.
pub proof fn law_flush_hands_out_what_is_to_be_written(
    q: MemView,
    batch: Seq<(u64, MsgView)>,
    removed: Seq<u64>,
    disk: Map<u64, MsgView>,
)
    requires
        q.wf(),
        tells(q, batch, removed),
    ensures
        put_all(disk.remove_keys(removed.to_set()), batch) == written(disk, q),
{
    let p = |id: u64| q.dirty.contains(id);
    let ids = q.order.filter(p);
    lemma_filter_set(q.order, p);
    let left = disk.remove_keys(removed.to_set());
    let d = put_all(left, batch);
    let w = written(disk, q);
    assert forall|i: int| 0 <= i < batch.len() implies (#[trigger] batch[i]).1
        == q.msgs[batch[i].0] by {}
    assert forall|id: u64|
        #![trigger d.dom().contains(id)]
        #![trigger w.dom().contains(id)]
        #![trigger d[id]]
        d.dom().contains(id) == w.dom().contains(id) && (w.dom().contains(id) ==> d[id]
            == w[id]) by {
        lemma_put_all(left, batch, q.msgs, id);
        if q.dirty.contains(id) {
            assert(q.msgs.dom().contains(id));
            assert(q.order.to_set().contains(id));
            assert(ids.to_set().contains(id));
            let i = choose|i: int| 0 <= i < ids.len() && ids[i] == id;
            assert(batch[i].0 == id);
        }
        if exists|i: int| 0 <= i < batch.len() && (#[trigger] batch[i]).0 == id {
            let i = choose|i: int| 0 <= i < batch.len() && (#[trigger] batch[i]).0 == id;
            assert(ids.contains(ids[i]));
            assert(ids.to_set().contains(id));
        }
    }
    assert(d =~= w);
}

/// Storing, evicting and handing out never lose track of what the disk has to
/// be told.
pub proof fn law_disk_is_never_lost_track_of(
    q: MemView,
    disk: Map<u64, MsgView>,
    since: int,
    id: u64,
    msg: MsgView,
    now: int,
    max_msgs: int,
    max_bytes: int,
    ids: Set<u64>,
    client: Seq<char>,
)
    requires
        q.wf(),
        agrees(q, disk, since),
        ids.subset_of(q.msgs.dom()),
    ensures
        agrees(q.put(id, msg), disk, since),
        agrees(q.evict(now, max_msgs, max_bytes), disk, since),
        agrees(q.mark(ids, client), disk, since),
{
    let p = q.put(id, msg);
    assert forall|x: u64| #[trigger]
        p.msgs.contains_key(x) && !p.dirty.contains(x) implies disk.contains_key(x) && disk[x]
        == p.msgs[x] by {
        assert(q.msgs.contains_key(x) && !q.dirty.contains(x));
    }
    assert forall|x: u64| #[trigger]
        disk.contains_key(x) && !p.msgs.contains_key(x) && !p.removed.contains(
            x,
        ) implies disk[x].expiry_at <= since by {
        assert(!q.msgs.contains_key(x));
    }
    let e = q.evict(now, max_msgs, max_bytes);
    law_eviction_keeps_the_newest(q, now, max_msgs, max_bytes);
    assert forall|x: u64| #[trigger]
        e.msgs.contains_key(x) && !e.dirty.contains(x) implies disk.contains_key(x) && disk[x]
        == e.msgs[x] by {
        assert(e.msgs[x] == q.msgs.restrict(e.msgs.dom())[x]);
        assert(q.msgs.contains_key(x) && !q.dirty.contains(x));
    }
    let m = q.mark(ids, client);
    assert forall|x: u64| #[trigger]
        m.msgs.contains_key(x) && !m.dirty.contains(x) implies disk.contains_key(x) && disk[x]
        == m.msgs[x] by {
        assert(q.msgs.contains_key(x) && !q.dirty.contains(x));
    }
    assert forall|x: u64| #[trigger]
        disk.contains_key(x) && !m.msgs.contains_key(x) && !m.removed.contains(
            x,
        ) implies disk[x].expiry_at <= since by {
        assert(!q.msgs.contains_key(x));
    }
}

/// After a flush the table holds every queued message as it is queued and none
/// that went, so the queue owes the disk nothing.
pub proof fn law_flush_brings_the_disk_up_to_date(
    q: MemView,
    disk: Map<u64, MsgView>,
    since: int,
)
    requires
        q.wf(),
        agrees(q, disk, since),
    ensures
        agrees(q.clean(), written(disk, q), since),
        forall|id: u64| #[trigger]
            q.msgs.contains_key(id) ==> written(disk, q).contains_key(id) && written(disk, q)[id]
                == q.msgs[id],
        forall|id: u64|
            q.removed.contains(id) ==> !(#[trigger] written(disk, q).contains_key(id)),
{
    let w = written(disk, q);
    assert forall|id: u64| #[trigger] q.msgs.contains_key(id) implies w.contains_key(id) && w[id]
        == q.msgs[id] by {
        assert(!q.removed.contains(id));
    }
    assert forall|id: u64| #[trigger]
        w.contains_key(id) && !q.clean().msgs.contains_key(id) && !q.clean().removed.contains(
            id,
        ) implies w[id].expiry_at <= since by {
        assert(disk.contains_key(id));
    }
}

/// Whether rows are those of a table, each once and readable.
pub open spec fn lists(rows: Seq<(u64, Option<MsgView>)>, disk: Map<u64, MsgView>) -> bool {
    &&& distinct_ids(rows)
    &&& forall|i: int|
        0 <= i < rows.len() ==> disk.contains_key((#[trigger] rows[i]).0) && rows[i].1 == Some(
            disk[rows[i].0],
        )
    &&& forall|id: u64| #[trigger]
        disk.contains_key(id) ==> exists|i: int| 0 <= i < rows.len() && (#[trigger] rows[i]).0 == id
}

/// What is loaded under an id is the unexpired row with that id.
proof fn lemma_loaded(rows: Seq<(u64, Option<MsgView>)>, now: int, i: int)
    requires
        distinct_ids(rows),
        0 <= i < rows.len(),
    ensures
        loaded(rows, now).contains_key(rows[i].0) <==> row_live(rows[i], now),
        row_live(rows[i], now) ==> loaded(rows, now)[rows[i].0] == rows[i].1->0,
    decreases rows.len(),
{
    let rest = rows.drop_last();
    assert(rows.last() == rows[rows.len() - 1]);
    assert forall|a: int, b: int|
        #![trigger rest[a], rest[b]]
        0 <= a < b < rest.len() implies rest[a].0 != rest[b].0 by {
        assert(rows[a].0 != rows[b].0);
    }
    if i < rest.len() {
        lemma_loaded(rest, now, i);
        assert(rest[i] == rows[i]);
        assert(rows[i].0 != rows[rows.len() - 1].0);
    } else {
        lemma_loaded_keys(rest, now, rows[i].0);
        if loaded(rest, now).contains_key(rows[i].0) {
            let j = choose|j: int| 0 <= j < rest.len() && (#[trigger] rest[j]).0 == rows[i].0;
            assert(rows[j].0 != rows[i].0);
        }
    }
}

/// A store that was opened on a table lacks nothing of it but what had expired.
pub proof fn law_opening_agrees_with_the_disk(
    q: MemView,
    disk: Map<u64, MsgView>,
    rows: Seq<(u64, Option<MsgView>)>,
    now: int,
)
    requires
        lists(rows, disk),
        q.msgs == loaded(rows, now),
    ensures
        agrees(q, disk, now),
{
    assert forall|id: u64| #[trigger]
        q.msgs.contains_key(id) && !q.dirty.contains(id) implies disk.contains_key(id) && disk[id]
        == q.msgs[id] by {
        lemma_loaded_keys(rows, now, id);
        let i = choose|i: int| 0 <= i < rows.len() && (#[trigger] rows[i]).0 == id;
        lemma_loaded(rows, now, i);
    }
    assert forall|id: u64| #[trigger]
        disk.contains_key(id) && !q.msgs.contains_key(id) && !q.removed.contains(
            id,
        ) implies disk[id].expiry_at <= now by {
        let i = choose|i: int| 0 <= i < rows.len() && (#[trigger] rows[i]).0 == id;
        lemma_loaded(rows, now, i);
    }
}

/// A store that is opened on the table of a flushed one has exactly the
/// messages of that one that have not expired by then.
pub proof fn law_reopening_gives_the_queue_back(
    q: MemView,
    disk: Map<u64, MsgView>,
    since: int,
    rows: Seq<(u64, Option<MsgView>)>,
    now: int,
)
    requires
        q.wf(),
        agrees(q, disk, since),
        lists(rows, written(disk, q)),
        since <= now,
    ensures
        loaded(rows, now) == q.msgs.restrict(q.live(now)),
{
    let w = written(disk, q);
    let l = loaded(rows, now);
    law_flush_brings_the_disk_up_to_date(q, disk, since);
    assert forall|id: u64| l.contains_key(id) <==> q.live(now).contains(id) by {
        lemma_loaded_keys(rows, now, id);
        if l.contains_key(id) {
            let i = choose|i: int| 0 <= i < rows.len() && (#[trigger] rows[i]).0 == id;
            lemma_loaded(rows, now, i);
            assert(w[id].expiry_at > now);
            assert(w.contains_key(id));
            if !q.msgs.contains_key(id) {
                assert(!q.clean().msgs.contains_key(id));
                assert(false);
            }
        }
        if q.live(now).contains(id) {
            assert(q.msgs.contains_key(id));
            assert(w.contains_key(id));
            let i = choose|i: int| 0 <= i < rows.len() && (#[trigger] rows[i]).0 == id;
            lemma_loaded(rows, now, i);
        }
    }
    assert forall|id: u64| l.contains_key(id) implies l[id] == q.msgs[id] by {
        lemma_loaded_keys(rows, now, id);
        let i = choose|i: int| 0 <= i < rows.len() && (#[trigger] rows[i]).0 == id;
        lemma_loaded(rows, now, i);
        assert(q.live(now).contains(id));
        assert(q.msgs.contains_key(id));
    }
    assert(l =~= q.msgs.restrict(q.live(now)));
}

/// Until a counter comes round, a node gives no id twice, and no two nodes give
/// the same; the id tells the node and the counter.
pub proof fn law_ids_are_distinct(node: u64, counter: u64, other_node: u64, other_counter: u64)
    requires
        node < 0x1_0000,
        other_node < 0x1_0000,
        counter <= COUNTER_MASK,
        other_counter <= COUNTER_MASK,
    ensures
        id_of(node, counter) >> 48 == node,
        id_of(node, counter) & COUNTER_MASK == counter,
        id_of(node, counter) == id_of(other_node, other_counter) <==> node == other_node
            && counter == other_counter,
{
    let m = COUNTER_MASK;
    assert(((node << 48) | (counter & m)) >> 48 == node) by (bit_vector)
        requires
            node < 0x1_0000,
            m == 0xFFFF_FFFF_FFFF,
    ;
    assert(((node << 48) | (counter & m)) & m == counter) by (bit_vector)
        requires
            counter <= m,
            m == 0xFFFF_FFFF_FFFF,
    ;
    assert(((other_node << 48) | (other_counter & m)) >> 48 == other_node) by (bit_vector)
        requires
            other_node < 0x1_0000,
            m == 0xFFFF_FFFF_FFFF,
    ;
    assert(((other_node << 48) | (other_counter & m)) & m == other_counter) by (bit_vector)
        requires
            other_counter <= m,
            m == 0xFFFF_FFFF_FFFF,
    ;
}

/// A store gives no id that is in the table it was opened on, until its
/// counter comes round.
pub proof fn law_new_ids_are_not_on_disk(
    rows: Seq<(u64, Option<MsgView>)>,
    node: u64,
    counter: u64,
    i: int,
)
    requires
        node < 0x1_0000,
        next_counter(rows, node) <= counter <= COUNTER_MASK,
        0 <= i < rows.len(),
    ensures
        rows[i].0 != id_of(node, counter),
    decreases rows.len(),
{
    law_ids_are_distinct(node, counter, node, counter);
    let rest = rows.drop_last();
    assert(rows.last() == rows[rows.len() - 1]);
    let id = rows.last().0;
    let m = COUNTER_MASK;
    assert(id & m <= m) by (bit_vector);
    if i < rest.len() {
        law_new_ids_are_not_on_disk(rest, node, counter, i);
        assert(rest[i] == rows[i]);
    }
}

/// What a message, a packet and a delivery hold is what is seen of them.
pub proof fn law_messages_as_seen(m: StoredMsg, p: Publish, d: Delivery)
    ensures
        m@.from == m.from@,
        m@.publish == m.publish@,
        m@.expiry_at == m.expiry_at,
        m@.delivered_to.len() == m.delivered_to@.len(),
        forall|i: int|
            0 <= i < m.delivered_to@.len() ==> #[trigger] m@.delivered_to[i]
                == m.delivered_to@[i]@,
        p@.topic == p.topic@,
        p@.payload == p.payload@,
        p@.properties == p.properties@,
        d@.msg_id == d.msg_id,
        d@.from == d.from@,
        d@.publish == d.publish@,
{
}

/// A message is taken to use the bytes of its topic and its payload and 384 more,
/// and several use the sum.
pub proof fn law_sizes(m: MsgView, ids: Seq<u64>, id: u64, msgs: Map<u64, MsgView>)
    ensures
        size_of_msg(m) == m.publish.payload.len() + encode_utf8(m.publish.topic).len() + 384,
        total_size(Seq::empty(), msgs) == 0,
        total_size(ids.push(id), msgs) == total_size(ids, msgs) + size_of_msg(msgs[id]),
{
    assert(ids.push(id).drop_last() =~= ids);
}

/// Every queue is one that can be: each message stands once in the order, what is
/// new on disk is queued, what is gone is not, and the memory can be counted.
pub proof fn law_any_queue_can_be(v: MemView)
    requires
        v.order.no_duplicates(),
        v.order.to_set() == v.msgs.dom(),
        v.dirty.subset_of(v.msgs.dom()),
        v.removed.disjoint(v.msgs.dom()),
        0 <= v.bytes <= usize::MAX,
        forall|id: u64| #[trigger]
            v.msgs.contains_key(id) ==> v.msgs[id].publish.payload.len() + encode_utf8(
                v.msgs[id].publish.topic,
            ).len() + 384 <= usize::MAX,
    ensures
        v.wf(),
{
}

/// The memory counted is exact if it is the sum of what the messages use.
pub proof fn law_exact(v: MemView)
    ensures
        v.exact() <==> v.bytes == total_size(v.order, v.msgs),
{
}

/// An eviction drops a message that has not expired only if there are more
/// messages than a limit allows, or more bytes; zero is no limit.
pub proof fn law_unexpired_messages_stay_within_limits(
    v: MemView,
    now: int,
    max_msgs: int,
    max_bytes: int,
    id: u64,
)
    requires
        v.wf(),
        max_msgs == 0 || v.order.len() <= max_msgs,
        max_bytes == 0 || v.bytes <= max_bytes,
        v.msgs.contains_key(id),
        v.msgs[id].expiry_at > now,
    ensures
        v.evict(now, max_msgs, max_bytes).msgs.contains_key(id),
        v.evict(now, max_msgs, max_bytes).msgs[id] == v.msgs[id],
{
    law_within_limits_only_expired_go(v, now, max_msgs, max_bytes, id);
}

/// An eviction drops no more than it has to: the newest message that went had
/// expired, or the queue was over a limit with it.
pub proof fn law_eviction_drops_no_more_than_it_must(
    v: MemView,
    now: int,
    max_msgs: int,
    max_bytes: int,
)
    requires
        v.wf(),
        v.exact(),
    ensures
        ({
            let e = v.evict(now, max_msgs, max_bytes);
            let last = v.order[v.order.len() - e.order.len() - 1];
            e.order.len() < v.order.len() ==> {
                ||| v.msgs[last].expiry_at <= now
                ||| max_msgs > 0 && e.order.len() + 1 > max_msgs
                ||| max_bytes > 0 && e.bytes + size_of_msg(v.msgs[last]) > max_bytes
            }
        }),
    decreases v.order.len(),
{
    if v.must_drop(now, max_msgs, max_bytes) {
        let w = v.drop_oldest();
        let e = v.evict(now, max_msgs, max_bytes);
        lemma_drop_oldest_wf(v);
        lemma_drop_oldest_exact(v);
        law_eviction_drops_no_more_than_it_must(w, now, max_msgs, max_bytes);
        law_eviction_keeps_the_newest(w, now, max_msgs, max_bytes);
        if e.order.len() < w.order.len() {
            let k = v.order.len() - e.order.len() - 1;
            assert(w.order[k - 1] == v.order[k]);
            assert(v.order[k] != v.order[0]);
            assert(w.msgs[v.order[k]] == v.msgs[v.order[k]]);
        } else {
            lemma_drop_oldest_counts(v);
            if w.must_drop(now, max_msgs, max_bytes) {
                lemma_drop_oldest_wf(w);
                law_eviction_keeps_the_newest(w.drop_oldest(), now, max_msgs, max_bytes);
            }
            assert(w.evict(now, max_msgs, max_bytes) == w);
        }
    }
}

/// Without its oldest message a queue uses what the message used less.
proof fn lemma_drop_oldest_counts(v: MemView)
    requires
        v.wf(),
        v.exact(),
        v.order.len() > 0,
    ensures
        v.drop_oldest().bytes + size_of_msg(v.msgs[v.order[0]]) == v.bytes,
{
    lemma_total_remove(v.order, 0, v.msgs);
    lemma_total_nonneg(v.order.remove(0), v.msgs);
}

/// After an eviction the oldest message has not expired, whatever the limits.
pub proof fn law_oldest_message_has_not_expired(
    v: MemView,
    now: int,
    max_msgs: int,
    max_bytes: int,
)
    ensures
        ({
            let e = v.evict(now, max_msgs, max_bytes);
            e.order.len() > 0 ==> e.msgs[e.order[0]].expiry_at > now
        }),
    decreases v.order.len(),
{
    if v.must_drop(now, max_msgs, max_bytes) {
        law_oldest_message_has_not_expired(v.drop_oldest(), now, max_msgs, max_bytes);
    }
}

/// The eviction of a store goes by its own limits.
pub proof fn law_store_evicts_by_its_limits(s: StoreView, now: int)
    ensures
        s.evicted(now) == s.queue.evict(now, s.max_msgs, s.max_bytes),
{
}

/// Storing queues the message under its id, behind the others unless the id was
/// there, notes that the disk lacks it, and touches no other message.
pub proof fn law_storing(v: MemView, id: u64, msg: MsgView)
    requires
        v.wf(),
        v.bytes + size_of_msg(msg) <= usize::MAX,
    ensures
        v.put(id, msg).msgs == v.msgs.insert(id, msg),
        v.put(id, msg).order == (if v.msgs.contains_key(id) {
            v.order
        } else {
            v.order.push(id)
        }),
        v.put(id, msg).dirty == v.dirty.insert(id),
        v.put(id, msg).removed == v.removed.remove(id),
        !v.msgs.contains_key(id) ==> v.put(id, msg).bytes == v.bytes + size_of_msg(msg),
{
    assert(size_of_msg(msg) >= 0);
}

/// A message expires when its lifetime is over, or at the last moment that can be
/// counted if that comes first.
pub proof fn law_expiry(now: i64, lifetime: u128)
    requires
        lifetime <= i64::MAX,
    ensures
        expiry_of(now, lifetime) == (if now + lifetime <= i64::MAX {
            now + lifetime
        } else {
            i64::MAX as int
        }),
{
}

/// Messages are handed out oldest first, each as it is queued.
pub proof fn law_deliveries_come_in_order(
    v: MemView,
    client: Seq<char>,
    filter: Seq<char>,
    now: int,
    i: int,
    j: int,
)
    requires
        v.wf(),
        0 <= i < j < v.owed_ids(client, filter, now).len(),
    ensures
        exists|a: int, b: int|
            0 <= a < b < v.order.len() && #[trigger] v.order[a] == v.owed_ids(
                client,
                filter,
                now,
            )[i] && #[trigger] v.order[b] == v.owed_ids(client, filter, now)[j],
{
    lemma_filter_in_order(v.order, |id: u64| v.owed(id, client, filter, now), i, j);
}

proof fn lemma_filter_in_order(s: Seq<u64>, p: spec_fn(u64) -> bool, i: int, j: int)
    requires
        0 <= i < j < s.filter(p).len(),
    ensures
        exists|a: int, b: int|
            0 <= a < b < s.len() && #[trigger] s[a] == s.filter(p)[i] && #[trigger] s[b]
                == s.filter(p)[j],
    decreases s.len(),
{
    reveal(Seq::filter);
    let rest = s.drop_last();
    let f = rest.filter(p);
    if j < f.len() {
        lemma_filter_in_order(rest, p, i, j);
        let (a, b) = choose|a: int, b: int|
            0 <= a < b < rest.len() && #[trigger] rest[a] == f[i] && #[trigger] rest[b] == f[j];
        assert(s[a] == rest[a] && s[b] == rest[b]);
    } else {
        rest.lemma_filter_contains_rev(p, f[i]);
        let a = choose|a: int| 0 <= a < rest.len() && rest[a] == f[i];
        assert(s[a] == rest[a]);
        assert(s[s.len() - 1] == s.filter(p)[j]);
    }
}

/// What is handed out is the sender and the packet of each queued message.
pub proof fn law_deliveries(v: MemView, ids: Seq<u64>, i: int)
    requires
        0 <= i < ids.len(),
    ensures
        v.deliveries(ids).len() == ids.len(),
        v.deliveries(ids)[i].msg_id == ids[i],
        v.deliveries(ids)[i].from == v.msgs[ids[i]].from,
        v.deliveries(ids)[i].publish == v.msgs[ids[i]].publish,
{
}

/// Handing messages out notes the client on each of them, which the disk does not
/// know yet, and changes nothing else of the queue.
pub proof fn law_handing_out(v: MemView, ids: Set<u64>, client: Seq<char>, id: u64)
    requires
        v.msgs.contains_key(id),
    ensures
        v.mark(ids, client).msgs.dom() == v.msgs.dom(),
        v.mark(ids, client).msgs[id].from == v.msgs[id].from,
        v.mark(ids, client).msgs[id].publish == v.msgs[id].publish,
        v.mark(ids, client).msgs[id].expiry_at == v.msgs[id].expiry_at,
        v.mark(ids, client).msgs[id].delivered_to == (if ids.contains(id) {
            v.msgs[id].delivered_to.push(client)
        } else {
            v.msgs[id].delivered_to
        }),
        v.mark(ids, client).order == v.order,
        v.mark(ids, client).bytes == v.bytes,
        v.mark(ids, client).removed == v.removed,
        v.mark(ids, client).dirty.contains(id) <==> v.dirty.contains(id) || ids.contains(id),
{
    assert(v.mark(ids, client).msgs.dom() =~= v.msgs.dom());
}

/// What counts is queued and has not expired.
pub proof fn law_what_counts(v: MemView, now: int, id: u64)
    ensures
        v.live(now).contains(id) <==> v.msgs.contains_key(id) && v.msgs[id].expiry_at > now,
{
}

/// A flush tells the disk each message that it does not know, once and as it is
/// queued, and each id that is gone.
pub proof fn law_what_a_flush_tells(
    q: MemView,
    batch: Seq<(u64, MsgView)>,
    removed: Seq<u64>,
    id: u64,
)
    requires
        q.wf(),
        tells(q, batch, removed),
    ensures
        (exists|i: int| 0 <= i < batch.len() && (#[trigger] batch[i]).0 == id)
            <==> q.dirty.contains(id),
        forall|i: int|
            0 <= i < batch.len() ==> (#[trigger] batch[i]).1 == q.msgs[batch[i].0],
        forall|i: int, j: int|
            #![trigger batch[i], batch[j]]
            0 <= i < j < batch.len() ==> batch[i].0 != batch[j].0,
        removed.contains(id) <==> q.removed.contains(id),
{
    let p = |x: u64| q.dirty.contains(x);
    let ids = q.order.filter(p);
    lemma_filter_set(q.order, p);
    assert(removed.contains(id) <==> removed.to_set().contains(id));
    assert(ids.contains(id) <==> ids.to_set().contains(id));
    assert(q.dirty.contains(id) ==> q.order.to_set().contains(id));
    if ids.contains(id) {
        let i = choose|i: int| 0 <= i < ids.len() && ids[i] == id;
        assert(batch[i].0 == id);
    }
    if exists|i: int| 0 <= i < batch.len() && (#[trigger] batch[i]).0 == id {
        let i = choose|i: int| 0 <= i < batch.len() && (#[trigger] batch[i]).0 == id;
        assert(ids[i] == id);
    }
    assert forall|i: int, j: int|
        #![trigger batch[i], batch[j]]
        0 <= i < j < batch.len() implies batch[i].0 != batch[j].0 by {
        assert(batch[i].0 == ids[i] && batch[j].0 == ids[j]);
    }
}

/// Each pair of a batch is seen as it is.
pub proof fn law_batch_as_seen(batch: Seq<(u64, StoredMsg)>, i: int)
    requires
        0 <= i < batch.len(),
    ensures
        batch_views(batch).len() == batch.len(),
        batch_views(batch)[i].0 == batch[i].0,
        batch_views(batch)[i].1 == batch[i].1@,
{
}

/// After a flush the queue is as before, and the disk knows all of it.
pub proof fn law_flushed(v: MemView)
    ensures
        v.clean().msgs == v.msgs,
        v.clean().order == v.order,
        v.clean().bytes == v.bytes,
        v.clean().dirty == Set::<u64>::empty(),
        v.clean().removed == Set::<u64>::empty(),
{
}

/// Each row is seen with its id and its message, if it could be read.
pub proof fn law_rows_as_seen(rows: Seq<(u64, Option<StoredMsg>)>, i: int)
    requires
        0 <= i < rows.len(),
    ensures
        rows_view(rows).len() == rows.len(),
        rows_view(rows)[i].0 == rows[i].0,
        rows_view(rows)[i].1 is Some <==> rows[i].1 is Some,
        rows[i].1 matches Some(m) ==> rows_view(rows)[i].1 == Some(m@),
{
}

/// Opening loads the rows that could be read and have not expired, as they are.
pub proof fn law_what_is_loaded(rows: Seq<(u64, Option<MsgView>)>, now: int, id: u64)
    requires
        forall|i: int, j: int|
            #![trigger rows[i], rows[j]]
            0 <= i < j < rows.len() ==> rows[i].0 != rows[j].0,
    ensures
        loaded(rows, now).contains_key(id) <==> exists|i: int|
            0 <= i < rows.len() && (#[trigger] rows[i]).0 == id && rows[i].1 is Some
                && rows[i].1->0.expiry_at > now,
        forall|i: int|
            0 <= i < rows.len() && (#[trigger] rows[i]).0 == id && rows[i].1 is Some
                && rows[i].1->0.expiry_at > now ==> loaded(rows, now)[id] == rows[i].1->0,
    decreases rows.len(),
{
    if rows.len() > 0 {
        let rest = rows.drop_last();
        let n = rows.len() - 1;
        assert forall|i: int, j: int|
            #![trigger rest[i], rest[j]]
            0 <= i < j < rest.len() implies rest[i].0 != rest[j].0 by {
            assert(rest[i] == rows[i] && rest[j] == rows[j]);
        }
        law_what_is_loaded(rest, now, id);
        assert(rows[n] == rows.last());
        assert forall|i: int|
            0 <= i < rows.len() && (#[trigger] rows[i]).0 == id && rows[i].1 is Some
                && rows[i].1->0.expiry_at > now implies loaded(rows, now).contains_key(id)
            && loaded(rows, now)[id] == rows[i].1->0 by {
            if i < n {
                assert(rest[i] == rows[i]);
                assert(rows[i].0 != rows[n].0);
            }
        }
        if loaded(rows, now).contains_key(id) && rows[n].0 != id {
            let i = choose|i: int|
                0 <= i < rest.len() && (#[trigger] rest[i]).0 == id && rest[i].1 is Some
                    && rest[i].1->0.expiry_at > now;
            assert(rows[i] == rest[i]);
        }
        if loaded(rows, now).contains_key(id) && rows[n].0 == id && !row_live(rows[n], now) {
            let i = choose|i: int|
                0 <= i < rest.len() && (#[trigger] rest[i]).0 == id && rest[i].1 is Some
                    && rest[i].1->0.expiry_at > now;
            assert(rows[i] == rest[i]);
        }
    }
}

/// The rows that are loaded use what their messages use together.
pub proof fn law_loaded_size(
    rows: Seq<(u64, Option<MsgView>)>,
    row: (u64, Option<MsgView>),
    now: int,
)
    ensures
        loaded_size(Seq::empty(), now) == 0,
        loaded_size(rows.push(row), now) == loaded_size(rows, now) + (if row.1 is Some
            && row.1->0.expiry_at > now {
            size_of_msg(row.1->0)
        } else {
            0
        }),
        distinct_ids(rows) <==> forall|i: int, j: int|
            #![trigger rows[i], rows[j]]
            0 <= i < j < rows.len() ==> rows[i].0 != rows[j].0,
{
    assert(rows.push(row).drop_last() =~= rows);
}

/// In the order of expiry no message expires before one that stands in front of
/// it, and of two that expire together the smaller id stands in front.
pub proof fn law_order_of_expiry(order: Seq<u64>, msgs: Map<u64, MsgView>, i: int, j: int)
    requires
        by_expiry(order, msgs),
        0 <= i < j < order.len(),
    ensures
        msgs[order[i]].expiry_at <= msgs[order[j]].expiry_at,
        msgs[order[i]].expiry_at == msgs[order[j]].expiry_at ==> order[i] < order[j],
{
}

/// The counter starts behind the ids of the node that are on disk, and at zero or
/// right behind one of them.
pub proof fn law_counter_starts_behind(rows: Seq<(u64, Option<MsgView>)>, node: u64)
    ensures
        forall|i: int|
            0 <= i < rows.len() && (#[trigger] rows[i]).0 >> 48 == node ==> next_counter(rows, node)
                > rows[i].0 & 0xFFFF_FFFF_FFFF,
        next_counter(rows, node) == 0 || exists|i: int|
            0 <= i < rows.len() && (#[trigger] rows[i]).0 >> 48 == node && next_counter(rows, node)
                == (rows[i].0 & 0xFFFF_FFFF_FFFF) + 1,
    decreases rows.len(),
{
    if rows.len() > 0 {
        let rest = rows.drop_last();
        let n = rows.len() - 1;
        let id = rows[n].0;
        law_counter_starts_behind(rest, node);
        assert(rows[n] == rows.last());
        assert(id & 0xFFFF_FFFF_FFFF < 0x1_0000_0000_0000) by (bit_vector);
        assert forall|i: int| 0 <= i < rows.len() && (#[trigger] rows[i]).0 >> 48 == node implies
            next_counter(rows, node) > rows[i].0 & 0xFFFF_FFFF_FFFF by {
            if i < n {
                assert(rest[i] == rows[i]);
            }
        }
        if next_counter(rows, node) == next_counter(rest, node) && next_counter(rest, node) != 0 {
            let i = choose|i: int|
                0 <= i < rest.len() && (#[trigger] rest[i]).0 >> 48 == node && next_counter(
                    rest,
                    node,
                ) == (rest[i].0 & 0xFFFF_FFFF_FFFF) + 1;
            assert(rows[i] == rest[i]);
        }
    }
}

/// A new id has the node in its upper sixteen bits and the counter in the others.
pub proof fn law_ids_tell_node_and_counter(node: u64, counter: u64)
    requires
        node < 0x1_0000,
    ensures
        id_of(node, counter) / 0x1_0000_0000_0000 == node,
        id_of(node, counter) % 0x1_0000_0000_0000 == counter % 0x1_0000_0000_0000,
{
    assert(COUNTER_MASK == 0xFFFF_FFFF_FFFF);
    assert(((node << 48) | (counter & 0xFFFF_FFFF_FFFF)) / 0x1_0000_0000_0000 == node && ((node
        << 48) | (counter & 0xFFFF_FFFF_FFFF)) % 0x1_0000_0000_0000 == counter
        % 0x1_0000_0000_0000) by (bit_vector)
        requires
            node < 0x1_0000,
    ;
}

/// How an eviction goes: it is over once the queue is empty, and once it is within both
/// limits, zero being none, with an oldest message that has not expired; until then the
/// oldest message goes, is noted as gone, and its memory is given back.
pub proof fn law_eviction_step_by_step(v: MemView, now: int, max_msgs: int, max_bytes: int)
    requires
        max_msgs >= 0,
        max_bytes >= 0,
    ensures
        v.order.len() == 0 ==> v.evict(now, max_msgs, max_bytes) == v,
        v.order.len() > 0 && (max_msgs == 0 || v.order.len() <= max_msgs) && (max_bytes == 0
            || v.bytes <= max_bytes) && v.msgs[v.order[0]].expiry_at > now ==> v.evict(
            now,
            max_msgs,
            max_bytes,
        ) == v,
        v.order.len() > 0 && ((max_msgs > 0 && v.order.len() > max_msgs) || (max_bytes > 0
            && v.bytes > max_bytes) || v.msgs[v.order[0]].expiry_at <= now) ==> v.evict(
            now,
            max_msgs,
            max_bytes,
        ) == (MemView {
            msgs: v.msgs.remove(v.order[0]),
            order: v.order.skip(1),
            bytes: if v.bytes >= size_of_msg(v.msgs[v.order[0]]) {
                v.bytes - size_of_msg(v.msgs[v.order[0]])
            } else {
                0
            },
            dirty: v.dirty.remove(v.order[0]),
            removed: v.removed.insert(v.order[0]),
        }).evict(now, max_msgs, max_bytes),
{
    if v.order.len() > 0 {
        assert(v.order.skip(1) =~= v.order.drop_first());
    }
}

/// The memory in use after storing is what was in use, less that of a message that is
/// replaced, and that of the new one; it is not counted beyond the largest number.
pub proof fn law_memory_after_storing(v: MemView, id: u64, msg: MsgView)
    ensures
        ({
            let before = if !v.msgs.contains_key(id) {
                v.bytes
            } else if v.bytes >= size_of_msg(v.msgs[id]) {
                v.bytes - size_of_msg(v.msgs[id])
            } else {
                0
            };
            v.put(id, msg).bytes == (if before + size_of_msg(msg) <= usize::MAX {
                before + size_of_msg(msg)
            } else {
                usize::MAX as int
            })
        }),
{
}

} // verus!
