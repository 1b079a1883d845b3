//! The routing decisions of the message broker: who is subscribed to which
//! topic, which connection serves each shard, and, for each event and
//! message, what must be sent where. Connections are named by the 128-bit
//! value of their UUID; the streams themselves are held by the network layer,
//! which only tells which connections have a reliable or unreliable stream.
use vstd::prelude::*;
use std::collections::{HashMap, HashSet};
use crate::broker_protocol::{BrokerMessage, BrokerMsg, encode_broker, topic_from_bytes, topic_from_slice};
use crate::handoff::{copy_topics, topics_equal};
use crate::spatial::{shard_name, shard_topic};
use crate::topic_table::TopicTable;
use crate::util::{contains_id, copy_ids, lemma_push_no_duplicates};

verus! {

/// `s` with `x` appended, unless it already holds it.
pub open spec fn with_item<T>(s: Seq<T>, x: T) -> Seq<T> {
    if s.contains(x) {
        s
    } else {
        s.push(x)
    }
}

/// `s` without any occurrence of `x`.
pub open spec fn without_item<T>(s: Seq<T>, x: T) -> Seq<T> {
    s.filter(|y: T| y != x)
}

/// The list stored under `k`, empty when there is none.
pub open spec fn list_at<K, T>(m: Map<K, Seq<T>>, k: K) -> Seq<T> {
    if m.contains_key(k) {
        m[k]
    } else {
        Seq::empty()
    }
}

/// `m` with `x` added to the list under `k`, creating the list if needed.
pub open spec fn add_to<K, T>(m: Map<K, Seq<T>>, k: K, x: T) -> Map<K, Seq<T>> {
    m.insert(k, with_item(list_at(m, k), x))
}

/// `m` with `x` taken out of the list under `k`, when there is such a list.
pub open spec fn remove_from<K, T>(m: Map<K, Seq<T>>, k: K, x: T) -> Map<K, Seq<T>> {
    if m.contains_key(k) {
        m.insert(k, without_item(m[k], x))
    } else {
        m
    }
}

/// No list of `m` holds an item twice.
pub open spec fn lists_distinct<K, T>(m: Map<K, Seq<T>>) -> bool {
    forall|k: K| m.contains_key(k) ==> (#[trigger] m[k]).no_duplicates()
}

/// Adding an item to a list keeps the lists without duplicates.
proof fn lemma_add_to_distinct<K, T>(m: Map<K, Seq<T>>, k: K, x: T)
    requires
        lists_distinct(m),
    ensures
        lists_distinct(add_to(m, k, x)),
{
    let l = list_at(m, k);
    assert(l.no_duplicates());
    if !l.contains(x) {
        lemma_push_no_duplicates(l, x);
    }
}

/// Taking an item out of a list keeps it without duplicates.
proof fn lemma_without_distinct<T>(s: Seq<T>, x: T)
    requires
        s.no_duplicates(),
    ensures
        without_item(s, x).no_duplicates(),
    decreases s.len(),
{
    reveal_with_fuel(Seq::filter, 1);
    if s.len() > 0 {
        let p = s.drop_last();
        assert forall|i: int, j: int| 0 <= i < p.len() && 0 <= j < p.len() && i != j implies p[i] != p[j] by {
            assert(p[i] == s[i] && p[j] == s[j]);
        }
        lemma_without_distinct(p, x);
        let w = without_item(p, x);
        if s.last() != x {
            lemma_without_contains(p, x, s.last());
            if p.contains(s.last()) {
                let j = choose|j: int| 0 <= j < p.len() && p[j] == s.last();
                assert(s[j] == s[s.len() - 1]);
            }
            lemma_push_no_duplicates(w, s.last());
        }
    }
}

/// Taking an item out of a list keeps the lists without duplicates.
proof fn lemma_remove_from_distinct<K, T>(m: Map<K, Seq<T>>, k: K, x: T)
    requires
        lists_distinct(m),
    ensures
        lists_distinct(remove_from(m, k, x)),
{
    if m.contains_key(k) {
        lemma_without_distinct(m[k], x);
    }
}

/// The topic of the global chat: the name "chat" padded to 32 bytes.
pub open spec fn chat_topic_bytes() -> Seq<u8> {
    topic_from_bytes(seq![99u8, 104u8, 97u8, 116u8])
}

/// The topic of the global chat.
pub fn chat_topic() -> (t: [u8; 32])
    ensures
        t@ == chat_topic_bytes(),
{
    let mut name: Vec<u8> = Vec::new();
    name.push(99u8);
    name.push(104u8);
    name.push(97u8);
    name.push(116u8);
    assert(name@ =~= seq![99u8, 104u8, 97u8, 116u8]);
    topic_from_slice(name.as_slice())
}

/// Which kind of peer a connection announced itself as.
#[derive(Debug, Clone, Copy, PartialEq, Eq, Structural)]
pub enum PeerKind {
    Client,
    SpatialServer,
    ChatService,
}

/// Something the broker must send.
#[derive(Debug)]
pub enum BrokerAction {
    /// Send `msg` to connection `to`, on its reliable or its unreliable stream.
    Send { to: u128, reliable: bool, msg: BrokerMessage },
    /// Answer a join on the stream it came on: the client's identifier is `player_id`.
    Welcome { to: u128, reliable: bool, player_id: u32 },
    /// Tell the shard at `to`, as an input of `client_id`, that the client left.
    ForwardDisconnect { to: u128, client_id: u32 },
}

/// The value of a [`BrokerAction`].
pub enum Action {
    Send { to: u128, reliable: bool, msg: BrokerMsg },
    Welcome { to: u128, reliable: bool, player_id: u32 },
    ForwardDisconnect { to: u128, client_id: u32 },
}

impl View for BrokerAction {
    type V = Action;

    open spec fn view(&self) -> Action {
        match self {
            BrokerAction::Send { to, reliable, msg } => Action::Send { to: *to, reliable: *reliable, msg: msg@ },
            BrokerAction::Welcome { to, reliable, player_id } => Action::Welcome {
                to: *to,
                reliable: *reliable,
                player_id: *player_id,
            },
            BrokerAction::ForwardDisconnect { to, client_id } => Action::ForwardDisconnect {
                to: *to,
                client_id: *client_id,
            },
        }
    }
}

/// The values of a list of actions.
pub open spec fn actions_view(a: Seq<BrokerAction>) -> Seq<Action> {
    a.map_values(|x: BrokerAction| x@)
}

/// The routing state of the broker.
pub struct BrokerState {
    /// The clients subscribed to each topic, in the order they subscribed.
    pub topic_subscribers: TopicTable<Vec<u32>>,
    /// The topics of each client, in the order they were added.
    pub client_topics: HashMap<u32, Vec<[u8; 32]>>,
    /// The connection of the shard that publishes each topic.
    pub topic_to_shard: TopicTable<u128>,
    /// The identifier the next connection gets.
    pub next_client_id: u32,
    pub uuid_to_id: HashMap<u128, u32>,
    pub id_to_uuid: HashMap<u32, u128>,
    pub spatial_server_uuid: Option<u128>,
    pub chat_server_uuid: Option<u128>,
    /// Connections that have a reliable stream.
    pub reliable_streams: HashSet<u128>,
    /// Connections that have an unreliable stream.
    pub unreliable_streams: HashSet<u128>,
    /// The shard that new players join.
    pub default_shard_id: u32,
}

impl BrokerState {
    /// The tables keyed by topic have one entry per topic, and no list of
    /// subscribers or of topics names anything twice.
    pub open spec fn wf(self) -> bool {
        &&& self.topic_subscribers.wf()
        &&& self.topic_to_shard.wf()
        &&& lists_distinct(self.subs())
        &&& lists_distinct(self.topics())
    }

    /// The subscribers of each topic.
    pub open spec fn subs(self) -> Map<Seq<u8>, Seq<u32>> {
        self.topic_subscribers.map().map_values(|v: Vec<u32>| v@)
    }

    /// The topics of each client.
    pub open spec fn topics(self) -> Map<u32, Seq<Seq<u8>>> {
        self.client_topics@.map_values(|v: Vec<[u8; 32]>| v@.map_values(|t: [u8; 32]| t@))
    }

    /// The shard connection of each topic.
    pub open spec fn shards(self) -> Map<Seq<u8>, u128> {
        self.topic_to_shard.map()
    }

    /// The connections that have a stream of the given reliability.
    pub open spec fn streams(self, reliable: bool) -> Set<u128> {
        if reliable {
            self.reliable_streams@
        } else {
            self.unreliable_streams@
        }
    }

    /// The shard connection that serves `t`, when it has a stream of the
    /// given reliability.
    pub open spec fn route_of(self, t: Seq<u8>, reliable: bool) -> Option<u128> {
        if self.shards().contains_key(t) && self.streams(reliable).contains(self.shards()[t]) {
            Some(self.shards()[t])
        } else {
            None
        }
    }

    /// The shard connections, in order, that serve the topics `ts` with a
    /// stream of the given reliability.
    pub open spec fn topic_routes(self, ts: Seq<Seq<u8>>, reliable: bool) -> Seq<u128>
        decreases ts.len(),
    {
        if ts.len() == 0 {
            Seq::empty()
        } else {
            let prev = self.topic_routes(ts.drop_last(), reliable);
            match self.route_of(ts.last(), reliable) {
                Some(u) => prev.push(u),
                None => prev,
            }
        }
    }

    /// The connection of client `c`, when it has a stream of the given reliability.
    pub open spec fn client_route(self, c: u32, reliable: bool) -> Option<u128> {
        if self.id_to_uuid@.contains_key(c) && self.streams(reliable).contains(self.id_to_uuid@[c]) {
            Some(self.id_to_uuid@[c])
        } else {
            None
        }
    }

    /// The connections, in order, of the clients `ids` that have a stream of
    /// the given reliability.
    pub open spec fn client_routes(self, ids: Seq<u32>, reliable: bool) -> Seq<u128>
        decreases ids.len(),
    {
        if ids.len() == 0 {
            Seq::empty()
        } else {
            let prev = self.client_routes(ids.drop_last(), reliable);
            match self.client_route(ids.last(), reliable) {
                Some(u) => prev.push(u),
                None => prev,
            }
        }
    }

    /// The other fields than the subscription tables are those of `o`.
    pub open spec fn same_routing(self, o: BrokerState) -> bool {
        &&& self.wf()
        &&& self.shards() == o.shards()
        &&& self.next_client_id == o.next_client_id
        &&& self.uuid_to_id@ == o.uuid_to_id@
        &&& self.id_to_uuid@ == o.id_to_uuid@
        &&& self.spatial_server_uuid == o.spatial_server_uuid
        &&& self.chat_server_uuid == o.chat_server_uuid
        &&& self.reliable_streams@ == o.reliable_streams@
        &&& self.unreliable_streams@ == o.unreliable_streams@
        &&& self.default_shard_id == o.default_shard_id
    }
}

/// The identifiers of `v` other than `x`, in order.
fn ids_without(v: &[u32], x: u32) -> (out: Vec<u32>)
    ensures
        out@ == without_item(v@, x),
{
    let mut out: Vec<u32> = Vec::new();
    let mut i: usize = 0;
    while i < v.len()
        invariant
            i <= v@.len(),
            out@ == without_item(v@.take(i as int), x),
        decreases v@.len() - i,
    {
        proof {
            reveal_with_fuel(Seq::filter, 1);
            assert(v@.take(i as int + 1).drop_last() =~= v@.take(i as int));
        }
        if v[i] != x {
            out.push(v[i]);
        }
        i = i + 1;
    }
    assert(v@.take(v@.len() as int) =~= v@);
    out
}

/// The topics of `v` other than `x`, in order.
fn topics_without(v: &Vec<[u8; 32]>, x: &[u8; 32]) -> (out: Vec<[u8; 32]>)
    ensures
        out@.map_values(|t: [u8; 32]| t@) == without_item(v@.map_values(|t: [u8; 32]| t@), x@),
{
    let ghost ts = v@.map_values(|t: [u8; 32]| t@);
    let mut out: Vec<[u8; 32]> = Vec::new();
    let mut i: usize = 0;
    while i < v.len()
        invariant
            i <= v@.len(),
            ts == v@.map_values(|t: [u8; 32]| t@),
            out@.map_values(|t: [u8; 32]| t@) == without_item(ts.take(i as int), x@),
        decreases v@.len() - i,
    {
        proof {
            reveal_with_fuel(Seq::filter, 1);
            assert(ts.take(i as int + 1).drop_last() =~= ts.take(i as int));
            assert(ts.take(i as int + 1).last() == v@[i as int]@);
        }
        let ghost before = out@;
        if !topics_equal(&v[i], x) {
            out.push(v[i]);
            assert(out@.map_values(|t: [u8; 32]| t@) =~= before.map_values(|t: [u8; 32]| t@).push(v@[i as int]@));
        }
        i = i + 1;
    }
    assert(ts.take(ts.len() as int) =~= ts);
    out
}

/// Whether `x` is among the topics of `v`.
fn has_topic(v: &Vec<[u8; 32]>, x: &[u8; 32]) -> (b: bool)
    ensures
        b == v@.map_values(|t: [u8; 32]| t@).contains(x@),
{
    let ghost ts = v@.map_values(|t: [u8; 32]| t@);
    let mut i: usize = 0;
    while i < v.len()
        invariant
            i <= v@.len(),
            ts == v@.map_values(|t: [u8; 32]| t@),
            forall|j: int| 0 <= j < i ==> ts[j] != x@,
        decreases v@.len() - i,
    {
        assert(ts[i as int] == v@[i as int]@);
        if topics_equal(&v[i], x) {
            return true;
        }
        i = i + 1;
    }
    false
}

impl BrokerState {
    /// A broker that knows no connection; identifiers start at 1 and new
    /// players join shard 0.
    pub fn new() -> (s: Self)
        ensures
            s.wf(),
            s.subs() == Map::<Seq<u8>, Seq<u32>>::empty(),
            s.topics() == Map::<u32, Seq<Seq<u8>>>::empty(),
            s.shards() == Map::<Seq<u8>, u128>::empty(),
            s.next_client_id == 1,
            s.uuid_to_id@ == Map::<u128, u32>::empty(),
            s.id_to_uuid@ == Map::<u32, u128>::empty(),
            s.spatial_server_uuid is None,
            s.chat_server_uuid is None,
            s.reliable_streams@ == Set::<u128>::empty(),
            s.unreliable_streams@ == Set::<u128>::empty(),
            s.default_shard_id == 0,
    {
        let s = BrokerState {
            topic_subscribers: TopicTable::new(),
            client_topics: HashMap::new(),
            topic_to_shard: TopicTable::new(),
            next_client_id: 1,
            uuid_to_id: HashMap::new(),
            id_to_uuid: HashMap::new(),
            spatial_server_uuid: None,
            chat_server_uuid: None,
            reliable_streams: HashSet::new(),
            unreliable_streams: HashSet::new(),
            default_shard_id: 0,
        };
        assert(s.subs() =~= Map::<Seq<u8>, Seq<u32>>::empty());
        assert(s.topics() =~= Map::<u32, Seq<Seq<u8>>>::empty());
        s
    }

    /// Adds `client` to the subscribers of `topic`.
    fn subscribe_client(&mut self, topic: [u8; 32], client: u32)
        requires
            old(self).wf(),
        ensures
            final(self).subs() == add_to(old(self).subs(), topic@, client),
            final(self).topics() == old(self).topics(),
            final(self).same_routing(*old(self)),
    {
        proof {
            lemma_add_to_distinct(old(self).subs(), topic@, client);
        }
        match self.topic_subscribers.find(&topic) {
            Some(i) => {
                if !contains_id(self.topic_subscribers.entries[i].1.as_slice(), client) {
                    let mut v = copy_ids(self.topic_subscribers.entries[i].1.as_slice());
                    v.push(client);
                    let ghost v_view = v@;
                    self.topic_subscribers.set_value(i, v);
                    assert(self.subs() =~= add_to(old(self).subs(), topic@, client));
                } else {
                    assert(self.subs() =~= add_to(old(self).subs(), topic@, client));
                }
            },
            None => {
                let mut v: Vec<u32> = Vec::new();
                v.push(client);
                assert(v@ =~= seq![client]);
                assert(Seq::<u32>::empty().push(client) =~= seq![client]);
                self.topic_subscribers.push_new(topic, v);
                assert(self.subs() =~= add_to(old(self).subs(), topic@, client));
            },
        }
    }

    /// Takes `client` out of the subscribers of `topic`.
    fn unsubscribe_client(&mut self, topic: &[u8; 32], client: u32)
        requires
            old(self).wf(),
        ensures
            final(self).subs() == remove_from(old(self).subs(), topic@, client),
            final(self).topics() == old(self).topics(),
            final(self).same_routing(*old(self)),
    {
        proof {
            lemma_remove_from_distinct(old(self).subs(), topic@, client);
        }
        match self.topic_subscribers.find(topic) {
            Some(i) => {
                let v = ids_without(self.topic_subscribers.entries[i].1.as_slice(), client);
                self.topic_subscribers.set_value(i, v);
                assert(self.subs() =~= remove_from(old(self).subs(), topic@, client));
            },
            None => {
                assert(self.subs() =~= remove_from(old(self).subs(), topic@, client));
            },
        }
    }

    /// Adds `topic` to the topics of `client`.
    fn add_client_topic(&mut self, client: u32, topic: [u8; 32])
        requires
            old(self).wf(),
        ensures
            final(self).topics() == add_to(old(self).topics(), client, topic@),
            final(self).subs() == old(self).subs(),
            final(self).same_routing(*old(self)),
    {
        proof {
            lemma_add_to_distinct(old(self).topics(), client, topic@);
        }
        broadcast use vstd::std_specs::hash::group_hash_axioms;
        let current: Vec<[u8; 32]> = match self.client_topics.get(&client) {
            Some(v) => copy_topics(v),
            None => Vec::new(),
        };
        assert(current@.map_values(|t: [u8; 32]| t@) =~= list_at(old(self).topics(), client));
        if !has_topic(&current, &topic) {
            let mut v = current;
            let ghost before = v@;
            v.push(topic);
            assert(v@.map_values(|t: [u8; 32]| t@) =~= before.map_values(|t: [u8; 32]| t@).push(topic@));
            let ghost vv = v@;
            self.client_topics.insert(client, v);
            assert(self.topics() =~= add_to(old(self).topics(), client, topic@));
        } else {
            assert(old(self).topics().contains_key(client));
            assert(self.topics() =~= add_to(old(self).topics(), client, topic@));
        }
    }

    /// Takes `topic` out of the topics of `client`.
    fn remove_client_topic(&mut self, client: u32, topic: &[u8; 32])
        requires
            old(self).wf(),
        ensures
            final(self).topics() == remove_from(old(self).topics(), client, topic@),
            final(self).subs() == old(self).subs(),
            final(self).same_routing(*old(self)),
    {
        proof {
            lemma_remove_from_distinct(old(self).topics(), client, topic@);
        }
        broadcast use vstd::std_specs::hash::group_hash_axioms;
        let rest: Option<Vec<[u8; 32]>> = match self.client_topics.get(&client) {
            Some(v) => Some(topics_without(v, topic)),
            None => None,
        };
        match rest {
            Some(v) => {
                self.client_topics.insert(client, v);
                assert(self.topics() =~= remove_from(old(self).topics(), client, topic@));
            },
            None => {
                assert(self.topics() =~= remove_from(old(self).topics(), client, topic@));
            },
        }
    }

    /// The shard connection that serves `topic` with a stream of the given reliability.
    fn route_to_shard(&self, topic: &[u8; 32], reliable: bool) -> (r: Option<u128>)
        requires
            self.wf(),
        ensures
            r == self.route_of(topic@, reliable),
    {
        broadcast use vstd::std_specs::hash::group_hash_axioms;
        match self.topic_to_shard.find(topic) {
            Some(i) => {
                let u = self.topic_to_shard.entries[i].1;
                let has = if reliable {
                    self.reliable_streams.contains(&u)
                } else {
                    self.unreliable_streams.contains(&u)
                };
                if has {
                    Some(u)
                } else {
                    None
                }
            },
            None => None,
        }
    }

    /// The connection of client `c` with a stream of the given reliability.
    fn route_to_client(&self, c: u32, reliable: bool) -> (r: Option<u128>)
        ensures
            r == self.client_route(c, reliable),
    {
        broadcast use vstd::std_specs::hash::group_hash_axioms;
        match self.id_to_uuid.get(&c) {
            Some(u) => {
                let has = if reliable {
                    self.reliable_streams.contains(u)
                } else {
                    self.unreliable_streams.contains(u)
                };
                if has {
                    Some(*u)
                } else {
                    None
                }
            },
            None => None,
        }
    }
}

/// Sending `m` with the given reliability to each of `targets`, in order.
pub open spec fn sends(targets: Seq<u128>, reliable: bool, m: BrokerMsg) -> Seq<Action> {
    targets.map_values(|u: u128| Action::Send { to: u, reliable, msg: m })
}

/// Sending `m` to the connection `r`, if there is one.
pub open spec fn send_to(r: Option<u128>, reliable: bool, m: BrokerMsg) -> Seq<Action> {
    match r {
        Some(u) => seq![Action::Send { to: u, reliable, msg: m }],
        None => Seq::empty(),
    }
}

/// `m` with `x` taken out of the lists under each of `ks`.
pub open spec fn remove_from_all<K, T>(m: Map<K, Seq<T>>, ks: Seq<K>, x: T) -> Map<K, Seq<T>>
    decreases ks.len(),
{
    if ks.len() == 0 {
        m
    } else {
        remove_from(remove_from_all(m, ks.drop_last(), x), ks.last(), x)
    }
}

/// A copy of the bytes.
fn copy_bytes(a: &[u8]) -> (out: Vec<u8>)
    ensures
        out@ == a@,
{
    let mut out: Vec<u8> = Vec::new();
    let mut i: usize = 0;
    while i < a.len()
        invariant
            i <= a@.len(),
            out@ == a@.take(i as int),
        decreases a@.len() - i,
    {
        out.push(a[i]);
        assert(a@.take(i as int + 1) =~= a@.take(i as int).push(a@[i as int]));
        i = i + 1;
    }
    assert(a@.take(a@.len() as int) =~= a@);
    out
}

impl BrokerMessage {
    /// A copy of the message.
    pub fn duplicate(&self) -> (m: BrokerMessage)
        ensures
            m@ == self@,
    {
        match self {
            BrokerMessage::Subscribe { client_id, topic } => BrokerMessage::Subscribe {
                client_id: *client_id,
                topic: *topic,
            },
            BrokerMessage::Unsubscribe { client_id, topic } => BrokerMessage::Unsubscribe {
                client_id: *client_id,
                topic: *topic,
            },
            BrokerMessage::Publish { topic, payload } => BrokerMessage::Publish {
                topic: *topic,
                payload: copy_bytes(payload.as_slice()),
            },
            BrokerMessage::Broadcast { payload } => BrokerMessage::Broadcast {
                payload: copy_bytes(payload.as_slice()),
            },
            BrokerMessage::ClientInput { client_id, input } => BrokerMessage::ClientInput {
                client_id: *client_id,
                input: *input,
            },
            BrokerMessage::PositionUpdate { client_id, x, y } => BrokerMessage::PositionUpdate {
                client_id: *client_id,
                x: *x,
                y: *y,
            },
            BrokerMessage::ShardReady { shard_id } => BrokerMessage::ShardReady { shard_id: *shard_id },
            BrokerMessage::CrossingAlert { client_id, dest_authority_topic, neighbor_topic } =>
                BrokerMessage::CrossingAlert {
                client_id: *client_id,
                dest_authority_topic: *dest_authority_topic,
                neighbor_topic: *neighbor_topic,
            },
            BrokerMessage::AuthoritySwitch { client_id, old_auth_topic, new_auth_topic } =>
                BrokerMessage::AuthoritySwitch {
                client_id: *client_id,
                old_auth_topic: *old_auth_topic,
                new_auth_topic: *new_auth_topic,
            },
            BrokerMessage::CrossingExit { client_id, obsolete_auth_topic, new_auth_topic } =>
                BrokerMessage::CrossingExit {
                client_id: *client_id,
                obsolete_auth_topic: *obsolete_auth_topic,
                new_auth_topic: *new_auth_topic,
            },
            BrokerMessage::InterShardMessage { topic_dest, topic_from, payload } =>
                BrokerMessage::InterShardMessage {
                topic_dest: *topic_dest,
                topic_from: *topic_from,
                payload: copy_bytes(payload.as_slice()),
            },
        }
    }
}

/// Appends a copy of `msg` for each target, in order.
fn push_sends(actions: &mut Vec<BrokerAction>, targets: &Vec<u128>, reliable: bool, msg: &BrokerMessage)
    ensures
        actions_view(final(actions)@) == actions_view(old(actions)@) + sends(targets@, reliable, msg@),
{
    let mut i: usize = 0;
    while i < targets.len()
        invariant
            i <= targets@.len(),
            actions_view(actions@) == actions_view(old(actions)@) + sends(targets@.take(i as int), reliable, msg@),
        decreases targets@.len() - i,
    {
        let ghost before = actions@;
        actions.push(BrokerAction::Send { to: targets[i], reliable, msg: msg.duplicate() });
        assert(actions_view(actions@) =~= actions_view(before).push(
            Action::Send { to: targets@[i as int], reliable, msg: msg@ },
        ));
        assert(targets@.take(i as int + 1) =~= targets@.take(i as int).push(targets@[i as int]));
        assert(sends(targets@.take(i as int + 1), reliable, msg@) =~= sends(targets@.take(i as int), reliable, msg@).push(
            Action::Send { to: targets@[i as int], reliable, msg: msg@ },
        ));
        i = i + 1;
    }
    assert(targets@.take(targets@.len() as int) =~= targets@);
}

/// Appends `msg` for the connection `to`, if there is one.
fn push_send(actions: &mut Vec<BrokerAction>, to: Option<u128>, reliable: bool, msg: BrokerMessage)
    ensures
        actions_view(final(actions)@) == actions_view(old(actions)@) + send_to(to, reliable, msg@),
{
    let ghost m = msg@;
    let ghost before = actions@;
    match to {
        Some(u) => {
            actions.push(BrokerAction::Send { to: u, reliable, msg });
            assert(actions_view(actions@) =~= actions_view(before) + send_to(to, reliable, m));
        },
        None => {
            assert(actions_view(actions@) =~= actions_view(before) + send_to(to, reliable, m));
        },
    }
}

impl BrokerState {
    /// The connections of the clients `ids` with a stream of the given reliability, in order.
    fn client_targets(&self, ids: &Vec<u32>, reliable: bool) -> (out: Vec<u128>)
        ensures
            out@ == self.client_routes(ids@, reliable),
    {
        let mut out: Vec<u128> = Vec::new();
        let mut i: usize = 0;
        while i < ids.len()
            invariant
                i <= ids@.len(),
                out@ == self.client_routes(ids@.take(i as int), reliable),
            decreases ids@.len() - i,
        {
            assert(ids@.take(i as int + 1).drop_last() =~= ids@.take(i as int));
            match self.route_to_client(ids[i], reliable) {
                Some(u) => out.push(u),
                None => {},
            }
            i = i + 1;
        }
        assert(ids@.take(ids@.len() as int) =~= ids@);
        out
    }

    /// The shard connections serving the topics `ts` with a stream of the
    /// given reliability, in order.
    fn topic_targets(&self, ts: &Vec<[u8; 32]>, reliable: bool) -> (out: Vec<u128>)
        requires
            self.wf(),
        ensures
            out@ == self.topic_routes(ts@.map_values(|t: [u8; 32]| t@), reliable),
    {
        let ghost tv = ts@.map_values(|t: [u8; 32]| t@);
        let mut out: Vec<u128> = Vec::new();
        let mut i: usize = 0;
        while i < ts.len()
            invariant
                self.wf(),
                i <= ts@.len(),
                tv == ts@.map_values(|t: [u8; 32]| t@),
                out@ == self.topic_routes(tv.take(i as int), reliable),
            decreases ts@.len() - i,
        {
            assert(tv.take(i as int + 1).drop_last() =~= tv.take(i as int));
            assert(tv.take(i as int + 1).last() == ts@[i as int]@);
            match self.route_to_shard(&ts[i], reliable) {
                Some(u) => out.push(u),
                None => {},
            }
            i = i + 1;
        }
        assert(tv.take(tv.len() as int) =~= tv);
        out
    }

    /// The topics recorded for `client`, empty when none are.
    fn topics_of(&self, client: u32) -> (v: Vec<[u8; 32]>)
        ensures
            v@.map_values(|t: [u8; 32]| t@) == list_at(self.topics(), client),
    {
        broadcast use vstd::std_specs::hash::group_hash_axioms;
        let v = match self.client_topics.get(&client) {
            Some(v) => copy_topics(v),
            None => Vec::new(),
        };
        assert(v@.map_values(|t: [u8; 32]| t@) =~= list_at(self.topics(), client));
        v
    }

    /// The subscribers recorded for `topic`, empty when none are.
    fn subscribers_of(&self, topic: &[u8; 32]) -> (v: Vec<u32>)
        requires
            self.wf(),
        ensures
            v@ == list_at(self.subs(), topic@),
    {
        match self.topic_subscribers.find(topic) {
            Some(i) => copy_ids(self.topic_subscribers.entries[i].1.as_slice()),
            None => Vec::new(),
        }
    }
}

/// The subscription tables are those of `o`, and so is the rest.
pub open spec fn unchanged(s: BrokerState, o: BrokerState) -> bool {
    s.subs() == o.subs() && s.topics() == o.topics() && s.same_routing(o)
}

/// The client a client input is taken to come from: for identifier 0, the
/// identifier of the connection when it has one.
pub open spec fn input_client(s: BrokerState, from: u128, client_id: u32) -> u32 {
    if client_id == 0 && s.uuid_to_id@.contains_key(from) {
        s.uuid_to_id@[from]
    } else {
        client_id
    }
}

/// A client input with identifier 0 that decodes as a join, from a known connection.
pub open spec fn is_join(s: BrokerState, from: u128, client_id: u32, input_is_join: bool) -> bool {
    client_id == 0 && input_is_join && s.uuid_to_id@.contains_key(from)
}

/// What a client input does: a join subscribes the client to the spawn shard
/// and to the chat, and is answered with a welcome; then the input goes to
/// the shard of each topic of the client.
pub open spec fn client_input_effect(
    o: BrokerState,
    n: BrokerState,
    from: u128,
    reliable: bool,
    client_id: u32,
    input: Seq<u8>,
    input_is_join: bool,
    acts: Seq<Action>,
) -> bool {
    let player = input_client(o, from, client_id);
    let joins = is_join(o, from, client_id, input_is_join);
    let spawn = topic_from_bytes(shard_name(o.default_shard_id));
    let subs1 = if joins {
        add_to(add_to(o.subs(), spawn, player), chat_topic_bytes(), player)
    } else {
        o.subs()
    };
    let topics1 = if joins {
        add_to(add_to(o.topics(), player, spawn), player, chat_topic_bytes())
    } else {
        o.topics()
    };
    &&& n.subs() == subs1
    &&& n.topics() == topics1
    &&& n.same_routing(o)
    &&& acts == (if joins {
        seq![Action::Welcome { to: from, reliable, player_id: player }]
    } else {
        Seq::empty()
    }) + sends(
        o.topic_routes(list_at(topics1, player), reliable),
        reliable,
        BrokerMsg::ClientInput { client_id: player, input },
    )
}

/// What a message from connection `from`, received on a stream of the given
/// reliability, does to the state (`o` before, `n` after) and sends.
pub open spec fn message_effect(
    o: BrokerState,
    n: BrokerState,
    from: u128,
    reliable: bool,
    m: BrokerMsg,
    input_is_join: bool,
    acts: Seq<Action>,
) -> bool {
    match m {
        BrokerMsg::Subscribe { client_id, topic } => {
            &&& n.subs() == add_to(o.subs(), topic, client_id)
            &&& n.topics() == add_to(o.topics(), client_id, topic)
            &&& n.same_routing(o)
            &&& acts.len() == 0
        },
        BrokerMsg::Unsubscribe { client_id, topic } => {
            &&& n.subs() == remove_from(o.subs(), topic, client_id)
            &&& n.topics() == remove_from(o.topics(), client_id, topic)
            &&& n.same_routing(o)
            &&& acts.len() == 0
        },
        BrokerMsg::Publish { topic, payload } => {
            &&& n.subs() == o.subs()
            &&& n.topics() == o.topics()
            &&& n.wf()
            &&& n.shards() == o.shards().insert(topic, from)
            &&& n.next_client_id == o.next_client_id
            &&& n.uuid_to_id@ == o.uuid_to_id@
            &&& n.id_to_uuid@ == o.id_to_uuid@
            &&& n.spatial_server_uuid == o.spatial_server_uuid
            &&& n.chat_server_uuid == o.chat_server_uuid
            &&& n.reliable_streams@ == o.reliable_streams@
            &&& n.unreliable_streams@ == o.unreliable_streams@
            &&& n.default_shard_id == o.default_shard_id
            &&& acts == sends(
                o.client_routes(list_at(o.subs(), topic), false),
                false,
                BrokerMsg::Broadcast { payload },
            )
        },
        BrokerMsg::ClientInput { client_id, input } => client_input_effect(
            o,
            n,
            from,
            reliable,
            client_id,
            input,
            input_is_join,
            acts,
        ),
        BrokerMsg::PositionUpdate { .. } => {
            &&& unchanged(n, o)
            &&& acts == send_to(
                match o.spatial_server_uuid {
                    Some(u) => if o.unreliable_streams@.contains(u) {
                        Some(u)
                    } else {
                        None
                    },
                    None => None,
                },
                false,
                m,
            )
        },
        BrokerMsg::ShardReady { .. } => {
            &&& unchanged(n, o)
            &&& acts == send_to(
                match o.spatial_server_uuid {
                    Some(u) => if o.reliable_streams@.contains(u) {
                        Some(u)
                    } else {
                        None
                    },
                    None => None,
                },
                true,
                m,
            )
        },
        BrokerMsg::CrossingAlert { client_id, dest_authority_topic, neighbor_topic } => {
            &&& n.subs() == add_to(o.subs(), neighbor_topic, client_id)
            &&& n.topics() == add_to(o.topics(), client_id, neighbor_topic)
            &&& n.same_routing(o)
            &&& acts == send_to(o.route_of(dest_authority_topic, true), true, m)
        },
        BrokerMsg::AuthoritySwitch { old_auth_topic, .. } => {
            &&& unchanged(n, o)
            &&& acts == send_to(o.route_of(old_auth_topic, true), true, m)
        },
        BrokerMsg::CrossingExit { client_id, obsolete_auth_topic, new_auth_topic } => {
            &&& n.subs() == remove_from(o.subs(), obsolete_auth_topic, client_id)
            &&& n.topics() == remove_from(o.topics(), client_id, obsolete_auth_topic)
            &&& n.same_routing(o)
            &&& acts == send_to(o.route_of(obsolete_auth_topic, true), true, m) + send_to(
                o.route_of(new_auth_topic, true),
                true,
                m,
            )
        },
        BrokerMsg::InterShardMessage { topic_dest, .. } => {
            &&& unchanged(n, o)
            &&& acts == send_to(o.route_of(topic_dest, true), true, m)
        },
        BrokerMsg::Broadcast { .. } => {
            &&& unchanged(n, o)
            &&& acts.len() == 0
        },
    }
}

/// The shard connection registered for topic `t` has a reliable stream.
pub open spec fn reaches_shard(o: BrokerState, t: Seq<u8>) -> bool {
    o.shards().contains_key(t) && o.reliable_streams@.contains(o.shards()[t])
}

/// The reliable send of `m` to the shard connection registered for `t`.
pub open spec fn shard_send(o: BrokerState, t: Seq<u8>, m: BrokerMsg) -> Action {
    Action::Send { to: o.shards()[t], reliable: true, msg: m }
}

/// Messages between shards go to the shards of the topics they name, on
/// their reliable streams, unchanged: a crossing exit to both the obsolete
/// and the new authority (each of them, independently of the other), a
/// crossing alert to the destination authority, an authority switch to the
/// old authority, an inter-shard message to its destination. A shard that
/// is reached gets the message; nothing else is sent.
pub proof fn lemma_shard_messages_routed(
    o: BrokerState,
    n: BrokerState,
    from: u128,
    reliable: bool,
    m: BrokerMsg,
    input_is_join: bool,
    acts: Seq<Action>,
)
    requires
        message_effect(o, n, from, reliable, m, input_is_join, acts),
    ensures
        m matches BrokerMsg::CrossingExit { client_id: c, obsolete_auth_topic: a, new_auth_topic: b } ==> {
            &&& forall|x: u32|
                #[trigger] list_at(n.subs(), a).contains(x) <==> (list_at(o.subs(), a).contains(x) && x != c)
            &&& forall|t: Seq<u8>| t != a ==> #[trigger] list_at(n.subs(), t) == list_at(o.subs(), t)
            &&& forall|t: Seq<u8>|
                #[trigger] list_at(n.topics(), c).contains(t) <==> (list_at(o.topics(), c).contains(t) && t != a)
            &&& reaches_shard(o, a) ==> acts.contains(shard_send(o, a, m))
            &&& reaches_shard(o, b) ==> acts.contains(shard_send(o, b, m))
            &&& forall|i: int|
                0 <= i < acts.len() ==> (reaches_shard(o, a) && #[trigger] acts[i] == shard_send(o, a, m)) || (
                reaches_shard(o, b) && acts[i] == shard_send(o, b, m))
        },
        m matches BrokerMsg::CrossingAlert { dest_authority_topic: d, .. } ==> acts == if reaches_shard(o, d) {
            seq![shard_send(o, d, m)]
        } else {
            Seq::empty()
        },
        m matches BrokerMsg::CrossingAlert { client_id: c, neighbor_topic: nb, .. } ==> {
            &&& list_at(n.subs(), nb).contains(c)
            &&& forall|x: u32| #[trigger] list_at(o.subs(), nb).contains(x) ==> list_at(n.subs(), nb).contains(x)
            &&& forall|t: Seq<u8>| t != nb ==> #[trigger] list_at(n.subs(), t) == list_at(o.subs(), t)
            &&& list_at(n.topics(), c).contains(nb)
        },
        m matches BrokerMsg::AuthoritySwitch { old_auth_topic: d, .. } ==> acts == if reaches_shard(o, d) {
            seq![shard_send(o, d, m)]
        } else {
            Seq::empty()
        },
        m matches BrokerMsg::InterShardMessage { topic_dest: d, .. } ==> acts == if reaches_shard(o, d) {
            seq![shard_send(o, d, m)]
        } else {
            Seq::empty()
        },
{
    if let BrokerMsg::CrossingAlert { client_id: c, neighbor_topic: nb, .. } = m {
        assert(with_item(list_at(o.subs(), nb), c).contains(c)) by {
            let l = list_at(o.subs(), nb);
            if !l.contains(c) {
                assert(l.push(c)[l.len() as int] == c);
            }
        }
        assert(with_item(list_at(o.topics(), c), nb).contains(nb)) by {
            let l = list_at(o.topics(), c);
            if !l.contains(nb) {
                assert(l.push(nb)[l.len() as int] == nb);
            }
        }
        assert forall|x: u32| #[trigger] list_at(o.subs(), nb).contains(x) implies list_at(n.subs(), nb).contains(x) by {
            let l = list_at(o.subs(), nb);
            if !l.contains(c) {
                let i = choose|i: int| 0 <= i < l.len() && l[i] == x;
                assert(l.push(c)[i] == x);
            }
        }
    }
    if let BrokerMsg::CrossingExit { client_id: c, obsolete_auth_topic: a, new_auth_topic: b } = m {
        assert forall|x: u32| #[trigger] list_at(n.subs(), a).contains(x) <==> (list_at(o.subs(), a).contains(x)
            && x != c) by {
            lemma_without_contains(list_at(o.subs(), a), c, x);
        }
        assert forall|t: Seq<u8>| #[trigger] list_at(n.topics(), c).contains(t) <==> (list_at(o.topics(), c).contains(
            t,
        ) && t != a) by {
            lemma_without_contains(list_at(o.topics(), c), a, t);
        }
        let sa = send_to(o.route_of(a, true), true, m);
        let sb = send_to(o.route_of(b, true), true, m);
        assert(acts == sa + sb);
        if reaches_shard(o, a) {
            assert(acts[0] == shard_send(o, a, m));
        }
        if reaches_shard(o, b) {
            assert(acts[sa.len() as int] == shard_send(o, b, m));
        }
        assert forall|i: int| 0 <= i < acts.len() implies (reaches_shard(o, a) && #[trigger] acts[i] == shard_send(
            o,
            a,
            m,
        )) || (reaches_shard(o, b) && acts[i] == shard_send(o, b, m)) by {
            if i < sa.len() {
                assert(acts[i] == sa[i]);
            } else {
                assert(acts[i] == sb[i - sa.len()]);
            }
        }
    }
}

/// Routes depend only on the shard table, the client identifiers and the streams.
proof fn lemma_routes_same(a: BrokerState, b: BrokerState, ts: Seq<Seq<u8>>, ids: Seq<u32>, reliable: bool)
    requires
        a.shards() == b.shards(),
        a.id_to_uuid@ == b.id_to_uuid@,
        a.reliable_streams@ == b.reliable_streams@,
        a.unreliable_streams@ == b.unreliable_streams@,
    ensures
        a.topic_routes(ts, reliable) == b.topic_routes(ts, reliable),
        a.client_routes(ids, reliable) == b.client_routes(ids, reliable),
    decreases ts.len() + ids.len(),
{
    if ts.len() > 0 {
        lemma_routes_same(a, b, ts.drop_last(), ids, reliable);
    }
    if ids.len() > 0 {
        lemma_routes_same(a, b, ts, ids.drop_last(), reliable);
    }
}

impl BrokerState {
    /// Handles a client input: a join from a connection that has an
    /// identifier subscribes that client to the spawn shard and the chat and
    /// is answered with a welcome; then the input is forwarded to the shard of
    /// each of the client's topics, on a stream of the same reliability.
    fn handle_client_input(
        &mut self,
        from: u128,
        reliable: bool,
        client_id: u32,
        input: [u8; 16],
        input_is_join: bool,
        actions: &mut Vec<BrokerAction>,
    )
        requires
            old(self).wf(),
        ensures
            client_input_effect(
                *old(self),
                *final(self),
                from,
                reliable,
                client_id,
                input@,
                input_is_join,
                actions_view(final(actions)@).skip(old(actions)@.len() as int),
            ),
            actions_view(final(actions)@).take(old(actions)@.len() as int) == actions_view(old(actions)@),
    {
        broadcast use vstd::std_specs::hash::group_hash_axioms;
        let ghost a0 = actions_view(actions@);
        let mut player = client_id;
        if client_id == 0 {
            match self.uuid_to_id.get(&from) {
                Some(id) => {
                    player = *id;
                },
                None => {},
            }
        }
        assert(player == input_client(*old(self), from, client_id));
        let known = self.uuid_to_id.contains_key(&from);
        let joins = client_id == 0 && input_is_join && known;
        assert(joins == is_join(*old(self), from, client_id, input_is_join));
        if joins {
            actions.push(BrokerAction::Welcome { to: from, reliable, player_id: player });
            let spawn = shard_topic(self.default_shard_id);
            self.add_client_topic(player, spawn);
            self.subscribe_client(spawn, player);
            let chat = chat_topic();
            self.add_client_topic(player, chat);
            self.subscribe_client(chat, player);
        }
        let ghost mid = actions_view(actions@);
        let topics = self.topics_of(player);
        let targets = self.topic_targets(&topics, reliable);
        let msg = BrokerMessage::ClientInput { client_id: player, input };
        push_sends(actions, &targets, reliable, &msg);
        proof {
            lemma_routes_same(*self, *old(self), list_at(self.topics(), player), Seq::empty(), reliable);
            let added = actions_view(actions@).skip(a0.len() as int);
            assert(actions_view(actions@).take(a0.len() as int) =~= a0);
            assert(added =~= (if joins {
                seq![Action::Welcome { to: from, reliable, player_id: player }]
            } else {
                Seq::empty()
            }) + sends(targets@, reliable, msg@));
        }
    }
}

impl BrokerState {
    /// Records `from` as the shard connection that publishes `topic`.
    fn register_shard(&mut self, topic: [u8; 32], from: u128)
        requires
            old(self).wf(),
        ensures
            final(self).wf(),
            final(self).shards() == old(self).shards().insert(topic@, from),
            final(self).subs() == old(self).subs(),
            final(self).topics() == old(self).topics(),
            final(self).next_client_id == old(self).next_client_id,
            final(self).uuid_to_id == old(self).uuid_to_id,
            final(self).id_to_uuid == old(self).id_to_uuid,
            final(self).spatial_server_uuid == old(self).spatial_server_uuid,
            final(self).chat_server_uuid == old(self).chat_server_uuid,
            final(self).reliable_streams == old(self).reliable_streams,
            final(self).unreliable_streams == old(self).unreliable_streams,
            final(self).default_shard_id == old(self).default_shard_id,
    {
        match self.topic_to_shard.find(&topic) {
            Some(i) => self.topic_to_shard.set_value(i, from),
            None => self.topic_to_shard.push_new(topic, from),
        }
    }

    /// The spatial server's connection, when it has a stream of the given reliability.
    fn spatial_route(&self, reliable: bool) -> (r: Option<u128>)
        ensures
            r == match self.spatial_server_uuid {
                Some(u) => if self.streams(reliable).contains(u) {
                    Some(u)
                } else {
                    None
                },
                None => None,
            },
    {
        broadcast use vstd::std_specs::hash::group_hash_axioms;
        match self.spatial_server_uuid {
            Some(u) => {
                let has = if reliable {
                    self.reliable_streams.contains(&u)
                } else {
                    self.unreliable_streams.contains(&u)
                };
                if has {
                    Some(u)
                } else {
                    None
                }
            },
            None => None,
        }
    }

    /// Handles one message that connection `from` sent on a stream of the
    /// given reliability, and returns what must be sent. `input_is_join` says
    /// whether the input of a client input decodes as a join request.
    /// Subscriptions and unsubscriptions update both tables; a publication
    /// records its sender as the topic's shard and is broadcast to the
    /// topic's subscribers; position updates and shard-ready reports go to
    /// the spatial server; crossing messages go to the shards concerned and
    /// update the client's subscriptions; inter-shard messages go to the
    /// destination shard.
    pub fn handle_message(&mut self, from: u128, reliable: bool, msg: BrokerMessage, input_is_join: bool) -> (actions: Vec<BrokerAction>)
        requires
            old(self).wf(),
        ensures
            final(self).wf(),
            message_effect(*old(self), *final(self), from, reliable, msg@, input_is_join, actions_view(actions@)),
            msg@ matches BrokerMsg::CrossingExit { obsolete_auth_topic: a, new_auth_topic: b, .. } ==> {
                &&& reaches_shard(*old(self), a) ==> actions_view(actions@).contains(shard_send(*old(self), a, msg@))
                &&& reaches_shard(*old(self), b) ==> actions_view(actions@).contains(shard_send(*old(self), b, msg@))
            },
    {
        let mut actions: Vec<BrokerAction> = Vec::new();
        let ghost m = msg@;
        match &msg {
            BrokerMessage::Subscribe { client_id, topic } => {
                self.subscribe_client(*topic, *client_id);
                self.add_client_topic(*client_id, *topic);
            },
            BrokerMessage::Unsubscribe { client_id, topic } => {
                self.unsubscribe_client(topic, *client_id);
                self.remove_client_topic(*client_id, topic);
            },
            BrokerMessage::Publish { topic, payload } => {
                let subscribers = self.subscribers_of(topic);
                let targets = self.client_targets(&subscribers, false);
                let out = BrokerMessage::Broadcast { payload: copy_bytes(payload.as_slice()) };
                push_sends(&mut actions, &targets, false, &out);
                self.register_shard(*topic, from);
                assert(actions_view(actions@) =~= sends(targets@, false, out@));
            },
            BrokerMessage::Broadcast { .. } => {},
            BrokerMessage::ClientInput { client_id, input } => {
                self.handle_client_input(from, reliable, *client_id, *input, input_is_join, &mut actions);
                assert(actions_view(actions@).skip(0) =~= actions_view(actions@));
            },
            BrokerMessage::PositionUpdate { .. } => {
                let to = self.spatial_route(false);
                push_send(&mut actions, to, false, msg.duplicate());
                assert(actions_view(actions@) =~= send_to(to, false, m));
            },
            BrokerMessage::ShardReady { .. } => {
                let to = self.spatial_route(true);
                push_send(&mut actions, to, true, msg.duplicate());
                assert(actions_view(actions@) =~= send_to(to, true, m));
            },
            BrokerMessage::CrossingAlert { client_id, dest_authority_topic, neighbor_topic } => {
                let to = self.route_to_shard(dest_authority_topic, true);
                push_send(&mut actions, to, true, msg.duplicate());
                assert(actions_view(actions@) =~= send_to(to, true, m));
                self.add_client_topic(*client_id, *neighbor_topic);
                self.subscribe_client(*neighbor_topic, *client_id);
            },
            BrokerMessage::AuthoritySwitch { old_auth_topic, .. } => {
                let to = self.route_to_shard(old_auth_topic, true);
                push_send(&mut actions, to, true, msg.duplicate());
                assert(actions_view(actions@) =~= send_to(to, true, m));
            },
            BrokerMessage::CrossingExit { client_id, obsolete_auth_topic, new_auth_topic } => {
                self.unsubscribe_client(obsolete_auth_topic, *client_id);
                self.remove_client_topic(*client_id, obsolete_auth_topic);
                let to_old = self.route_to_shard(obsolete_auth_topic, true);
                push_send(&mut actions, to_old, true, msg.duplicate());
                let to_new = self.route_to_shard(new_auth_topic, true);
                push_send(&mut actions, to_new, true, msg.duplicate());
                assert(actions_view(actions@) =~= send_to(to_old, true, m) + send_to(to_new, true, m));
            },
            BrokerMessage::InterShardMessage { topic_dest, .. } => {
                let to = self.route_to_shard(topic_dest, true);
                push_send(&mut actions, to, true, msg.duplicate());
                assert(actions_view(actions@) =~= send_to(to, true, m));
            },
        }
        proof {
            lemma_shard_messages_routed(
                *old(self),
                *self,
                from,
                reliable,
                m,
                input_is_join,
                actions_view(actions@),
            );
        }
        actions
    }

    /// A new connection: it gets the next client identifier.
    pub fn on_connected(&mut self, uuid: u128) -> (id: u32)
        requires
            old(self).wf(),
            old(self).next_client_id < u32::MAX,
        ensures
            id == old(self).next_client_id,
            final(self).next_client_id == old(self).next_client_id + 1,
            final(self).uuid_to_id@ == old(self).uuid_to_id@.insert(uuid, id),
            final(self).id_to_uuid@ == old(self).id_to_uuid@.insert(id, uuid),
            final(self).wf(),
            final(self).subs() == old(self).subs(),
            final(self).topics() == old(self).topics(),
            final(self).shards() == old(self).shards(),
            final(self).spatial_server_uuid == old(self).spatial_server_uuid,
            final(self).chat_server_uuid == old(self).chat_server_uuid,
            final(self).reliable_streams@ == old(self).reliable_streams@,
            final(self).unreliable_streams@ == old(self).unreliable_streams@,
            final(self).default_shard_id == old(self).default_shard_id,
    {
        broadcast use vstd::std_specs::hash::group_hash_axioms;
        let id = self.next_client_id;
        self.next_client_id = id + 1;
        self.uuid_to_id.insert(uuid, id);
        self.id_to_uuid.insert(id, uuid);
        id
    }

    /// A connection opened a stream of the given reliability.
    pub fn on_stream_created(&mut self, uuid: u128, reliable: bool)
        requires
            old(self).wf(),
        ensures
            final(self).reliable_streams@ == if reliable {
                old(self).reliable_streams@.insert(uuid)
            } else {
                old(self).reliable_streams@
            },
            final(self).unreliable_streams@ == if reliable {
                old(self).unreliable_streams@
            } else {
                old(self).unreliable_streams@.insert(uuid)
            },
            final(self).wf(),
            final(self).subs() == old(self).subs(),
            final(self).topics() == old(self).topics(),
            final(self).shards() == old(self).shards(),
            final(self).next_client_id == old(self).next_client_id,
            final(self).uuid_to_id@ == old(self).uuid_to_id@,
            final(self).id_to_uuid@ == old(self).id_to_uuid@,
            final(self).spatial_server_uuid == old(self).spatial_server_uuid,
            final(self).chat_server_uuid == old(self).chat_server_uuid,
            final(self).default_shard_id == old(self).default_shard_id,
    {
        broadcast use vstd::std_specs::hash::group_hash_axioms;
        if reliable {
            self.reliable_streams.insert(uuid);
        } else {
            self.unreliable_streams.insert(uuid);
        }
    }

    /// A connection announced what kind of peer it is. The first spatial
    /// server and the first chat service are remembered; the chat service's
    /// reliable stream is registered, and a chat service resets the
    /// subscribers of the chat topic to none.
    pub fn register_peer(&mut self, uuid: u128, kind: PeerKind)
        requires
            old(self).wf(),
        ensures
            final(self).wf(),
            final(self).topics() == old(self).topics(),
            final(self).shards() == old(self).shards(),
            final(self).next_client_id == old(self).next_client_id,
            final(self).uuid_to_id@ == old(self).uuid_to_id@,
            final(self).id_to_uuid@ == old(self).id_to_uuid@,
            final(self).unreliable_streams@ == old(self).unreliable_streams@,
            final(self).default_shard_id == old(self).default_shard_id,
            final(self).spatial_server_uuid == if kind == PeerKind::SpatialServer
                && old(self).spatial_server_uuid is None {
                Some(uuid)
            } else {
                old(self).spatial_server_uuid
            },
            final(self).chat_server_uuid == if kind == PeerKind::ChatService && old(self).chat_server_uuid is None {
                Some(uuid)
            } else {
                old(self).chat_server_uuid
            },
            final(self).reliable_streams@ == if kind == PeerKind::ChatService && old(self).chat_server_uuid is None {
                old(self).reliable_streams@.insert(uuid)
            } else {
                old(self).reliable_streams@
            },
            final(self).subs() == if kind == PeerKind::ChatService {
                old(self).subs().insert(chat_topic_bytes(), Seq::empty())
            } else {
                old(self).subs()
            },
    {
        broadcast use vstd::std_specs::hash::group_hash_axioms;
        match kind {
            PeerKind::Client => {},
            PeerKind::SpatialServer => {
                if self.spatial_server_uuid.is_none() {
                    self.spatial_server_uuid = Some(uuid);
                }
            },
            PeerKind::ChatService => {
                if self.chat_server_uuid.is_none() {
                    self.chat_server_uuid = Some(uuid);
                    self.reliable_streams.insert(uuid);
                }
                let chat = chat_topic();
                let empty: Vec<u32> = Vec::new();
                match self.topic_subscribers.find(&chat) {
                    Some(i) => self.topic_subscribers.set_value(i, empty),
                    None => self.topic_subscribers.push_new(chat, empty),
                }
                assert(self.subs() =~= old(self).subs().insert(chat_topic_bytes(), Seq::empty()));
            },
        }
    }
}

/// Telling each shard connection of `targets`, in order, that `client_id` left.
pub open spec fn disconnect_forwards(targets: Seq<u128>, client_id: u32) -> Seq<Action> {
    targets.map_values(|u: u128| Action::ForwardDisconnect { to: u, client_id })
}

impl BrokerState {
    /// A connection closed. Its streams are forgotten; when it had a client
    /// identifier, the identifier is forgotten too, the client is taken out
    /// of the subscribers of each of its topics, and the shard of each of
    /// those topics that still has a reliable stream is told that the client
    /// left.
    pub fn on_disconnected(&mut self, uuid: u128) -> (actions: Vec<BrokerAction>)
        requires
            old(self).wf(),
        ensures
            final(self).wf(),
            final(self).reliable_streams@ == old(self).reliable_streams@.remove(uuid),
            final(self).unreliable_streams@ == old(self).unreliable_streams@.remove(uuid),
            final(self).shards() == old(self).shards(),
            final(self).next_client_id == old(self).next_client_id,
            final(self).spatial_server_uuid == old(self).spatial_server_uuid,
            final(self).chat_server_uuid == old(self).chat_server_uuid,
            final(self).default_shard_id == old(self).default_shard_id,
            match old(self).uuid_to_id@.get(uuid) {
                Some(id) => {
                    &&& final(self).uuid_to_id@ == old(self).uuid_to_id@.remove(uuid)
                    &&& final(self).id_to_uuid@ == old(self).id_to_uuid@.remove(id)
                    &&& final(self).topics() == old(self).topics().remove(id)
                    &&& final(self).subs() == remove_from_all(old(self).subs(), list_at(old(self).topics(), id), id)
                    &&& actions_view(actions@) == disconnect_forwards(
                        final(self).topic_routes(list_at(old(self).topics(), id), true),
                        id,
                    )
                },
                None => {
                    &&& final(self).uuid_to_id@ == old(self).uuid_to_id@
                    &&& final(self).id_to_uuid@ == old(self).id_to_uuid@
                    &&& final(self).topics() == old(self).topics()
                    &&& final(self).subs() == old(self).subs()
                    &&& actions@.len() == 0
                },
            },
    {
        broadcast use vstd::std_specs::hash::group_hash_axioms;
        let mut actions: Vec<BrokerAction> = Vec::new();
        self.reliable_streams.remove(&uuid);
        self.unreliable_streams.remove(&uuid);
        let removed = self.uuid_to_id.remove(&uuid);
        match removed {
            Some(id) => {
                self.id_to_uuid.remove(&id);
                let topics = self.topics_of(id);
                let ghost tv = topics@.map_values(|t: [u8; 32]| t@);
                let ghost subs0 = self.subs();
                self.client_topics.remove(&id);
                assert(self.topics() =~= old(self).topics().remove(id));
                let ghost s1 = *self;
                let mut i: usize = 0;
                while i < topics.len()
                    invariant
                        i <= topics@.len(),
                        tv == topics@.map_values(|t: [u8; 32]| t@),
                        self.same_routing(s1),
                        self.topics() == s1.topics(),
                        self.subs() == remove_from_all(subs0, tv.take(i as int), id),
                        actions_view(actions@) == disconnect_forwards(s1.topic_routes(tv.take(i as int), true), id),
                    decreases topics@.len() - i,
                {
                    let ghost before = actions_view(actions@);
                    proof {
                        lemma_routes_same(*self, s1, tv.take(i as int + 1), Seq::empty(), true);
                        assert(tv.take(i as int + 1).drop_last() =~= tv.take(i as int));
                        assert(tv.take(i as int + 1).last() == topics@[i as int]@);
                    }
                    match self.route_to_shard(&topics[i], true) {
                        Some(u) => {
                            actions.push(BrokerAction::ForwardDisconnect { to: u, client_id: id });
                            assert(actions_view(actions@) =~= before.push(
                                Action::ForwardDisconnect { to: u, client_id: id },
                            ));
                        },
                        None => {
                            assert(actions_view(actions@) =~= before);
                        },
                    }
                    assert(disconnect_forwards(s1.topic_routes(tv.take(i as int + 1), true), id) =~= (
                    match s1.route_of(topics@[i as int]@, true) {
                        Some(u) => disconnect_forwards(s1.topic_routes(tv.take(i as int), true), id).push(
                            Action::ForwardDisconnect { to: u, client_id: id },
                        ),
                        None => disconnect_forwards(s1.topic_routes(tv.take(i as int), true), id),
                    }));
                    self.unsubscribe_client(&topics[i], id);
                    i = i + 1;
                }
                proof {
                    assert(tv.take(tv.len() as int) =~= tv);
                    lemma_routes_same(*self, s1, tv, Seq::empty(), true);
                }
            },
            None => {},
        }
        actions
    }
}

/// Taking out an item that is absent leaves a list as it is.
proof fn lemma_without_absent<T>(s: Seq<T>, x: T)
    requires
        !s.contains(x),
    ensures
        without_item(s, x) == s,
    decreases s.len(),
{
    reveal_with_fuel(Seq::filter, 1);
    if s.len() > 0 {
        assert(!s.drop_last().contains(x)) by {
            if s.drop_last().contains(x) {
                let j = choose|j: int| 0 <= j < s.drop_last().len() && s.drop_last()[j] == x;
                assert(s[j] == x);
            }
        }
        lemma_without_absent(s.drop_last(), x);
        assert(s.last() != x) by {
            assert(s[s.len() - 1] == s.last());
        }
        assert(s.drop_last().push(s.last()) =~= s);
    }
}

/// What remains after taking out `x` is what the list held besides `x`.
proof fn lemma_without_contains<T>(s: Seq<T>, x: T, y: T)
    ensures
        without_item(s, x).contains(y) <==> (s.contains(y) && y != x),
{
    let pred = |z: T| z != x;
    s.filter_lemma(pred);
    if without_item(s, x).contains(y) {
        s.lemma_filter_contains_rev(pred, y);
        let j = choose|j: int| 0 <= j < s.filter(pred).len() && s.filter(pred)[j] == y;
        assert(pred(s.filter(pred)[j]));
    }
    if s.contains(y) && y != x {
        let j = choose|j: int| 0 <= j < s.len() && s[j] == y;
        s.lemma_filter_contains(pred, j);
    }
}

/// Subscribing a client to a topic it was not subscribed to, then
/// unsubscribing it, gives back the lists of before (with an empty list for a
/// topic that had none). The same holds of the client's list of topics.
pub proof fn lemma_subscribe_then_unsubscribe<K, T>(m: Map<K, Seq<T>>, k: K, x: T)
    requires
        !list_at(m, k).contains(x),
    ensures
        remove_from(add_to(m, k, x), k, x) == m.insert(k, list_at(m, k)),
        m.contains_key(k) ==> remove_from(add_to(m, k, x), k, x) == m,
{
    let l = list_at(m, k);
    reveal_with_fuel(Seq::filter, 1);
    assert(l.push(x).drop_last() =~= l);
    lemma_without_absent(l, x);
    assert(without_item(l.push(x), x) == l);
    assert(remove_from(add_to(m, k, x), k, x) =~= m.insert(k, l));
    if m.contains_key(k) {
        assert(m.insert(k, l) =~= m);
    }
}

/// Each client listed as a subscriber of a topic has that topic among its
/// topics, and the other way round.
pub open spec fn subscriptions_agree(subs: Map<Seq<u8>, Seq<u32>>, topics: Map<u32, Seq<Seq<u8>>>) -> bool {
    forall|t: Seq<u8>, c: u32| #[trigger] list_at(subs, t).contains(c) <==> #[trigger] list_at(topics, c).contains(t)
}

/// Adding a subscription on both sides, as a subscription, a crossing alert
/// or a join does, keeps the two tables in agreement; so does taking one out
/// on both sides, as an unsubscription or a crossing exit does.
pub proof fn lemma_subscriptions_agree_kept(
    subs: Map<Seq<u8>, Seq<u32>>,
    topics: Map<u32, Seq<Seq<u8>>>,
    t: Seq<u8>,
    c: u32,
)
    requires
        subscriptions_agree(subs, topics),
    ensures
        subscriptions_agree(add_to(subs, t, c), add_to(topics, c, t)),
        subscriptions_agree(remove_from(subs, t, c), remove_from(topics, c, t)),
{
    let s1 = add_to(subs, t, c);
    let p1 = add_to(topics, c, t);
    assert forall|t2: Seq<u8>, c2: u32| #[trigger] list_at(s1, t2).contains(c2) <==> #[trigger] list_at(
        p1,
        c2,
    ).contains(t2) by {
        let a = list_at(subs, t2);
        let b = list_at(topics, c2);
        assert(list_at(subs, t2).contains(c2) <==> list_at(topics, c2).contains(t2));
        if t2 == t {
            if !a.contains(c) {
                assert(a.push(c).contains(c2) <==> (a.contains(c2) || c2 == c)) by {
                    if a.push(c).contains(c2) {
                        let j = choose|j: int| 0 <= j < a.push(c).len() && a.push(c)[j] == c2;
                        if j < a.len() {
                            assert(a[j] == c2);
                        }
                    }
                    if a.contains(c2) {
                        let j = choose|j: int| 0 <= j < a.len() && a[j] == c2;
                        assert(a.push(c)[j] == c2);
                    }
                    if c2 == c {
                        assert(a.push(c)[a.len() as int] == c2);
                    }
                }
            }
        }
        if c2 == c {
            if !b.contains(t) {
                assert(b.push(t).contains(t2) <==> (b.contains(t2) || t2 == t)) by {
                    if b.push(t).contains(t2) {
                        let j = choose|j: int| 0 <= j < b.push(t).len() && b.push(t)[j] == t2;
                        if j < b.len() {
                            assert(b[j] == t2);
                        }
                    }
                    if b.contains(t2) {
                        let j = choose|j: int| 0 <= j < b.len() && b[j] == t2;
                        assert(b.push(t)[j] == t2);
                    }
                    if t2 == t {
                        assert(b.push(t)[b.len() as int] == t2);
                    }
                }
            }
        }
    }
    let s2 = remove_from(subs, t, c);
    let p2 = remove_from(topics, c, t);
    assert forall|t2: Seq<u8>, c2: u32| #[trigger] list_at(s2, t2).contains(c2) <==> #[trigger] list_at(
        p2,
        c2,
    ).contains(t2) by {
        assert(list_at(subs, t2).contains(c2) <==> list_at(topics, c2).contains(t2));
        lemma_without_contains(list_at(subs, t2), c, c2);
        lemma_without_contains(list_at(topics, c2), t, t2);
    }
}

/// After taking `x` out of the lists under each of `ks`, a list holds what it
/// held, but `x` no longer under any of `ks`.
proof fn lemma_remove_from_all_contains<K, T>(m: Map<K, Seq<T>>, ks: Seq<K>, x: T, k: K, y: T)
    ensures
        list_at(remove_from_all(m, ks, x), k).contains(y) <==> (list_at(m, k).contains(y) && !(y == x
            && ks.contains(k))),
    decreases ks.len(),
{
    if ks.len() > 0 {
        let prev = remove_from_all(m, ks.drop_last(), x);
        lemma_remove_from_all_contains(m, ks.drop_last(), x, k, y);
        if prev.contains_key(ks.last()) {
            lemma_without_contains(prev[ks.last()], x, y);
        }
        assert(ks.contains(k) <==> (ks.drop_last().contains(k) || ks.last() == k)) by {
            if ks.contains(k) {
                let j = choose|j: int| 0 <= j < ks.len() && ks[j] == k;
                if j < ks.len() - 1 {
                    assert(ks.drop_last()[j] == k);
                }
            }
            if ks.drop_last().contains(k) {
                let j = choose|j: int| 0 <= j < ks.drop_last().len() && ks.drop_last()[j] == k;
                assert(ks[j] == k);
            }
            if ks.last() == k {
                assert(ks[ks.len() - 1] == k);
            }
        }
    }
}

/// A disconnection keeps the subscription tables in agreement: the client
/// leaves the subscribers of each of its topics, and its list of topics goes.
pub proof fn lemma_disconnect_keeps_agreement(
    subs: Map<Seq<u8>, Seq<u32>>,
    topics: Map<u32, Seq<Seq<u8>>>,
    id: u32,
)
    requires
        subscriptions_agree(subs, topics),
    ensures
        subscriptions_agree(remove_from_all(subs, list_at(topics, id), id), topics.remove(id)),
{
    let ts = list_at(topics, id);
    let s2 = remove_from_all(subs, ts, id);
    let p2 = topics.remove(id);
    assert forall|t: Seq<u8>, c: u32| #[trigger] list_at(s2, t).contains(c) <==> #[trigger] list_at(p2, c).contains(
        t,
    ) by {
        lemma_remove_from_all_contains(subs, ts, id, t, c);
        assert(list_at(subs, t).contains(c) <==> list_at(topics, c).contains(t));
        if c == id {
            assert(list_at(p2, c) =~= Seq::<Seq<u8>>::empty());
        } else {
            assert(list_at(p2, c) == list_at(topics, c));
        }
    }
}

/// Every message keeps the subscription tables in agreement: a client is
/// listed as a subscriber of a topic exactly when the topic is listed among
/// the client's topics, before and after.
pub proof fn lemma_message_keeps_agreement(
    o: BrokerState,
    n: BrokerState,
    from: u128,
    reliable: bool,
    m: BrokerMsg,
    input_is_join: bool,
    acts: Seq<Action>,
)
    requires
        subscriptions_agree(o.subs(), o.topics()),
        message_effect(o, n, from, reliable, m, input_is_join, acts),
    ensures
        subscriptions_agree(n.subs(), n.topics()),
{
    match m {
        BrokerMsg::Subscribe { client_id, topic } => {
            lemma_subscriptions_agree_kept(o.subs(), o.topics(), topic, client_id);
        },
        BrokerMsg::Unsubscribe { client_id, topic } => {
            lemma_subscriptions_agree_kept(o.subs(), o.topics(), topic, client_id);
        },
        BrokerMsg::CrossingAlert { client_id, neighbor_topic, .. } => {
            lemma_subscriptions_agree_kept(o.subs(), o.topics(), neighbor_topic, client_id);
        },
        BrokerMsg::CrossingExit { client_id, obsolete_auth_topic, .. } => {
            lemma_subscriptions_agree_kept(o.subs(), o.topics(), obsolete_auth_topic, client_id);
        },
        BrokerMsg::ClientInput { client_id, .. } => {
            if is_join(o, from, client_id, input_is_join) {
                let c = input_client(o, from, client_id);
                let spawn = topic_from_bytes(shard_name(o.default_shard_id));
                lemma_subscriptions_agree_kept(o.subs(), o.topics(), spawn, c);
                lemma_subscriptions_agree_kept(
                    add_to(o.subs(), spawn, c),
                    add_to(o.topics(), c, spawn),
                    chat_topic_bytes(),
                    c,
                );
            }
        },
        _ => {},
    }
}

/// An action that sends a position update.
pub open spec fn is_position_send(a: Action) -> bool {
    a matches Action::Send { msg: BrokerMsg::PositionUpdate { .. }, .. }
}

/// The last entry of `bs` for connection `to`, or -1.
pub open spec fn batch_index(bs: Seq<(u128, Seq<u8>)>, to: u128) -> int
    decreases bs.len(),
{
    if bs.len() == 0 {
        -1
    } else if bs.last().0 == to {
        bs.len() - 1
    } else {
        batch_index(bs.drop_last(), to)
    }
}

/// The position updates of `acts` gathered per connection, connections in
/// the order they first receive one, each with the bytes of its updates one
/// after the other.
pub open spec fn position_batches(acts: Seq<Action>) -> Seq<(u128, Seq<u8>)>
    decreases acts.len(),
{
    if acts.len() == 0 {
        Seq::empty()
    } else {
        let prev = position_batches(acts.drop_last());
        match acts.last() {
            Action::Send { to, msg: BrokerMsg::PositionUpdate { client_id, x, y }, .. } => {
                let bytes = encode_broker(BrokerMsg::PositionUpdate { client_id, x, y });
                let k = batch_index(prev, to);
                if k >= 0 {
                    prev.update(k, (to, prev[k].1 + bytes))
                } else {
                    prev.push((to, bytes))
                }
            },
            _ => prev,
        }
    }
}

proof fn lemma_batch_index_bounds(bs: Seq<(u128, Seq<u8>)>, to: u128)
    ensures
        -1 <= batch_index(bs, to) < bs.len(),
        batch_index(bs, to) >= 0 ==> bs[batch_index(bs, to)].0 == to,
    decreases bs.len(),
{
    if bs.len() > 0 && bs.last().0 != to {
        lemma_batch_index_bounds(bs.drop_last(), to);
    }
}

/// The last entry of `bs` for connection `to`, if any.
fn find_batch(bs: &Vec<(u128, Vec<u8>)>, to: u128) -> (k: Option<usize>)
    ensures
        match k {
            Some(i) => i as int == batch_index(bs@.map_values(|b: (u128, Vec<u8>)| (b.0, b.1@)), to),
            None => batch_index(bs@.map_values(|b: (u128, Vec<u8>)| (b.0, b.1@)), to) == -1,
        },
{
    let ghost v = bs@.map_values(|b: (u128, Vec<u8>)| (b.0, b.1@));
    let mut j: usize = bs.len();
    assert(v.take(j as int) =~= v);
    while j > 0
        invariant
            j <= bs@.len(),
            v == bs@.map_values(|b: (u128, Vec<u8>)| (b.0, b.1@)),
            batch_index(v, to) == batch_index(v.take(j as int), to),
        decreases j,
    {
        assert(v.take(j as int).drop_last() =~= v.take(j as int - 1));
        assert(v.take(j as int).last() == v[j as int - 1]);
        if bs[j - 1].0 == to {
            return Some(j - 1);
        }
        j = j - 1;
    }
    None
}

/// Sets aside the position updates among `actions`: they travel together,
/// batched per connection (see [`position_batches`]); the other actions keep
/// their order.
pub fn batch_position_updates(actions: Vec<BrokerAction>) -> (out: (Vec<BrokerAction>, Vec<(u128, Vec<u8>)>))
    ensures
        actions_view(out.0@) == actions_view(actions@).filter(|a: Action| !is_position_send(a)),
        out.1@.map_values(|b: (u128, Vec<u8>)| (b.0, b.1@)) == position_batches(actions_view(actions@)),
{
    let ghost av = actions_view(actions@);
    let mut others: Vec<BrokerAction> = Vec::new();
    let mut batches: Vec<(u128, Vec<u8>)> = Vec::new();
    let mut i: usize = 0;
    while i < actions.len()
        invariant
            i <= actions@.len(),
            av == actions_view(actions@),
            actions_view(others@) == av.take(i as int).filter(|a: Action| !is_position_send(a)),
            batches@.map_values(|b: (u128, Vec<u8>)| (b.0, b.1@)) == position_batches(av.take(i as int)),
        decreases actions@.len() - i,
    {
        proof {
            reveal_with_fuel(Seq::filter, 1);
            assert(av.take(i as int + 1).drop_last() =~= av.take(i as int));
            assert(av.take(i as int + 1).last() == actions@[i as int]@);
        }
        let ghost bv = batches@.map_values(|b: (u128, Vec<u8>)| (b.0, b.1@));
        let ghost ov = actions_view(others@);
        match &actions[i] {
            BrokerAction::Send { to, reliable, msg } => {
                match msg {
                    BrokerMessage::PositionUpdate { client_id, x, y } => {
                        let bytes = msg.to_bytes();
                        proof {
                            lemma_batch_index_bounds(bv, *to);
                        }
                        match find_batch(&batches, *to) {
                            Some(k) => {
                                let mut joined = copy_bytes(batches[k].1.as_slice());
                                let mut j: usize = 0;
                                let ghost start = joined@;
                                while j < bytes.len()
                                    invariant
                                        j <= bytes@.len(),
                                        joined@ == start + bytes@.take(j as int),
                                    decreases bytes@.len() - j,
                                {
                                    joined.push(bytes[j]);
                                    assert(start + bytes@.take(j as int + 1) =~= (start + bytes@.take(j as int)).push(
                                        bytes@[j as int],
                                    ));
                                    j = j + 1;
                                }
                                assert(bytes@.take(bytes@.len() as int) =~= bytes@);
                                let ghost jv = joined@;
                                batches.set(k, (*to, joined));
                                assert(batches@.map_values(|b: (u128, Vec<u8>)| (b.0, b.1@)) =~= bv.update(
                                    k as int,
                                    (*to, jv),
                                ));
                            },
                            None => {
                                let ghost bytes_v = bytes@;
                                batches.push((*to, bytes));
                                assert(batches@.map_values(|b: (u128, Vec<u8>)| (b.0, b.1@)) =~= bv.push(
                                    (*to, bytes_v),
                                ));
                            },
                        }
                        assert(actions_view(others@) =~= ov);
                    },
                    _ => {
                        others.push(BrokerAction::Send { to: *to, reliable: *reliable, msg: msg.duplicate() });
                        assert(actions_view(others@) =~= ov.push(actions@[i as int]@));
                    },
                }
            },
            BrokerAction::Welcome { to, reliable, player_id } => {
                others.push(BrokerAction::Welcome { to: *to, reliable: *reliable, player_id: *player_id });
                assert(actions_view(others@) =~= ov.push(actions@[i as int]@));
            },
            BrokerAction::ForwardDisconnect { to, client_id } => {
                others.push(BrokerAction::ForwardDisconnect { to: *to, client_id: *client_id });
                assert(actions_view(others@) =~= ov.push(actions@[i as int]@));
            },
        }
        i = i + 1;
    }
    assert(av.take(av.len() as int) =~= av);
    (others, batches)
}

} // verus!
