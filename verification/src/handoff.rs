//! The handoff of a player between the dedicated servers of two neighbouring
//! shards, as one of them sees it: what a message from the broker asks of this
//! server, and how the handoff state of a player moves on.
use vstd::prelude::*;
use crate::util::lemma_push_no_duplicates;
use crate::broker_protocol::{
    BrokerMessage, InterShardPayload, ShardPayload, parse_shard_payload, trim_trailing_zeros, utf8_lossy,
    utf8_lossy_chars,
};

verus! {

/// Whether two topics are the same.
pub fn topics_equal(a: &[u8; 32], b: &[u8; 32]) -> (eq: bool)
    ensures
        eq == (a@ == b@),
{
    let mut i: usize = 0;
    while i < 32
        invariant
            i <= 32,
            forall|j: int| 0 <= j < i ==> a@[j] == b@[j],
        decreases 32 - i,
    {
        if a[i] != b[i] {
            return false;
        }
        i = i + 1;
    }
    assert(a@ =~= b@);
    true
}

/// Who has authority over a player, as this server sees it.
#[derive(Debug, Clone)]
pub enum EntityState {
    /// This server simulates the player.
    Owned,
    /// This server simulates the player and mirrors it to the listed neighbours.
    PendingHandoff { neighbor_topics: Vec<[u8; 32]> },
    /// Another server simulates the player; this one shows a copy.
    Replica,
}

/// The value of an [`EntityState`], topics as byte sequences.
pub enum EntityStatus {
    Owned,
    Pending(Seq<Seq<u8>>),
    Replica,
}

impl View for EntityState {
    type V = EntityStatus;

    open spec fn view(&self) -> EntityStatus {
        match self {
            EntityState::Owned => EntityStatus::Owned,
            EntityState::PendingHandoff { neighbor_topics } => EntityStatus::Pending(
                neighbor_topics@.map_values(|t: [u8; 32]| t@),
            ),
            EntityState::Replica => EntityStatus::Replica,
        }
    }
}

/// The state after a crossing alert toward `neighbor`: an owned player
/// starts a handoff to it; a pending one adds it to its neighbours once; a
/// ghost stays a ghost.
pub open spec fn after_alert(s: EntityStatus, neighbor: Seq<u8>) -> EntityStatus {
    match s {
        EntityStatus::Owned => EntityStatus::Pending(seq![neighbor]),
        EntityStatus::Pending(ts) => if ts.contains(neighbor) {
            EntityStatus::Pending(ts)
        } else {
            EntityStatus::Pending(ts.push(neighbor))
        },
        EntityStatus::Replica => EntityStatus::Replica,
    }
}

/// The topics of `ts` other than `o`, in order.
pub open spec fn without_topic(ts: Seq<Seq<u8>>, o: Seq<u8>) -> Seq<Seq<u8>> {
    ts.filter(|t: Seq<u8>| t != o)
}

/// The state of the new authority after the player left the margin of
/// `obsolete`: a pending handoff forgets that neighbour, and becomes owned
/// when none is left; other states stay.
pub open spec fn after_exit(s: EntityStatus, obsolete: Seq<u8>) -> EntityStatus {
    match s {
        EntityStatus::Pending(ts) => {
            let rest = without_topic(ts, obsolete);
            if rest.len() == 0 {
                EntityStatus::Owned
            } else {
                EntityStatus::Pending(rest)
            }
        },
        _ => s,
    }
}

pub(crate) fn copy_topics(v: &Vec<[u8; 32]>) -> (out: Vec<[u8; 32]>)
    ensures
        out@ == v@,
{
    let mut out: Vec<[u8; 32]> = Vec::new();
    let mut i: usize = 0;
    while i < v.len()
        invariant
            i <= v@.len(),
            out@ == v@.take(i as int),
        decreases v@.len() - i,
    {
        out.push(v[i]);
        assert(v@.take(i as int + 1) =~= v@.take(i as int).push(v@[i as int]));
        i = i + 1;
    }
    assert(v@.take(v@.len() as int) =~= v@);
    out
}

impl EntityState {
    /// Whether another server simulates the player.
    pub fn is_ghost(&self) -> (b: bool)
        ensures
            b == (self@ is Replica),
    {
        match self {
            EntityState::Replica => true,
            _ => false,
        }
    }

    /// A crossing alert toward `neighbor_topic` reached this server, which
    /// has authority over the player.
    pub fn on_crossing_alert(&mut self, neighbor_topic: [u8; 32])
        ensures
            final(self)@ == after_alert(old(self)@, neighbor_topic@),
    {
        let next = match &*self {
            EntityState::Owned => {
                let mut v: Vec<[u8; 32]> = Vec::new();
                v.push(neighbor_topic);
                assert(v@.map_values(|t: [u8; 32]| t@) =~= seq![neighbor_topic@]);
                EntityState::PendingHandoff { neighbor_topics: v }
            },
            EntityState::PendingHandoff { neighbor_topics } => {
                let ghost ts = neighbor_topics@.map_values(|t: [u8; 32]| t@);
                let mut found = false;
                let mut i: usize = 0;
                while i < neighbor_topics.len()
                    invariant
                        i <= neighbor_topics@.len(),
                        ts == neighbor_topics@.map_values(|t: [u8; 32]| t@),
                        found <==> exists|j: int| 0 <= j < i && ts[j] == neighbor_topic@,
                    decreases neighbor_topics@.len() - i,
                {
                    assert(ts[i as int] == neighbor_topics@[i as int]@);
                    if topics_equal(&neighbor_topics[i], &neighbor_topic) {
                        found = true;
                    }
                    i = i + 1;
                }
                if found {
                    return;
                }
                assert(!ts.contains(neighbor_topic@));
                let mut v = copy_topics(neighbor_topics);
                v.push(neighbor_topic);
                assert(v@.map_values(|t: [u8; 32]| t@) =~= ts.push(neighbor_topic@));
                EntityState::PendingHandoff { neighbor_topics: v }
            },
            EntityState::Replica => {
                return;
            },
        };
        *self = next;
    }

    /// This server, the old authority, hands the player over: it keeps only a ghost.
    pub fn on_authority_switch(&mut self)
        ensures
            final(self)@ == EntityStatus::Replica,
    {
        *self = EntityState::Replica;
    }

    /// This server, the new authority, learns that the player left the margin of `obsolete_topic`.
    pub fn on_crossing_exit(&mut self, obsolete_topic: &[u8; 32])
        ensures
            final(self)@ == after_exit(old(self)@, obsolete_topic@),
    {
        let next = match &*self {
            EntityState::PendingHandoff { neighbor_topics } => {
                let ghost ts = neighbor_topics@.map_values(|t: [u8; 32]| t@);
                let mut rest: Vec<[u8; 32]> = Vec::new();
                let mut i: usize = 0;
                while i < neighbor_topics.len()
                    invariant
                        i <= neighbor_topics@.len(),
                        ts == neighbor_topics@.map_values(|t: [u8; 32]| t@),
                        rest@.map_values(|t: [u8; 32]| t@) == ts.take(i as int).filter(|t: Seq<u8>| t != obsolete_topic@),
                    decreases neighbor_topics@.len() - i,
                {
                    proof {
                        reveal_with_fuel(Seq::filter, 1);
                        assert(ts.take(i as int + 1).drop_last() =~= ts.take(i as int));
                        assert(ts.take(i as int + 1).last() == neighbor_topics@[i as int]@);
                    }
                    let ghost before = rest@;
                    if !topics_equal(&neighbor_topics[i], obsolete_topic) {
                        rest.push(neighbor_topics[i]);
                        assert(rest@.map_values(|t: [u8; 32]| t@) =~= before.map_values(|t: [u8; 32]| t@).push(
                            neighbor_topics@[i as int]@,
                        ));
                        assert(neighbor_topics@[i as int]@ != obsolete_topic@);
                        assert(ts.take(i as int + 1).filter(|t: Seq<u8>| t != obsolete_topic@) == ts.take(i as int).filter(|t: Seq<u8>| t != obsolete_topic@).push(
                            neighbor_topics@[i as int]@,
                        ));
                    } else {
                        assert(neighbor_topics@[i as int]@ == obsolete_topic@);
                        assert(ts.take(i as int + 1).filter(|t: Seq<u8>| t != obsolete_topic@) == ts.take(i as int).filter(|t: Seq<u8>| t != obsolete_topic@));
                    }
                    i = i + 1;
                }
                assert(ts.take(ts.len() as int) =~= ts);
                if rest.len() == 0 {
                    EntityState::Owned
                } else {
                    EntityState::PendingHandoff { neighbor_topics: rest }
                }
            },
            _ => {
                return;
            },
        };
        *self = next;
    }

    /// This server, the new authority, received the player from the server
    /// of `from_topic`: it mirrors the player back there until the player
    /// leaves that margin.
    pub fn on_handoff_complete(&mut self, from_topic: [u8; 32])
        ensures
            final(self)@ == EntityStatus::Pending(seq![from_topic@]),
    {
        let mut v: Vec<[u8; 32]> = Vec::new();
        v.push(from_topic);
        assert(v@.map_values(|t: [u8; 32]| t@) =~= seq![from_topic@]);
        *self = EntityState::PendingHandoff { neighbor_topics: v };
    }
}

/// A crossing alert for a neighbour, followed by the player leaving that
/// neighbour's margin, gives an owned player back its owned state; a repeated
/// alert changes nothing; a ghost ignores alerts.
pub proof fn lemma_alert_then_exit(s: EntityStatus, n: Seq<u8>)
    ensures
        s is Owned ==> after_exit(after_alert(s, n), n) == EntityStatus::Owned,
        after_alert(after_alert(s, n), n) == after_alert(s, n),
        s is Replica ==> after_alert(s, n) == s,
{
    if s is Owned {
        reveal_with_fuel(Seq::filter, 2);
        assert(seq![n].drop_last() =~= Seq::<Seq<u8>>::empty());
        assert(seq![n].filter(|t: Seq<u8>| t != n) =~= Seq::<Seq<u8>>::empty());
    }
    if let EntityStatus::Pending(ts) = s {
        if !ts.contains(n) {
            assert(ts.push(n)[ts.len() as int] == n);
        }
    }
}

/// What a message from the broker asks of the server of a shard.
#[derive(Debug)]
pub enum ShardReaction {
    /// Nothing: the message is not for this server.
    Ignore,
    /// A client's input, to decode and apply.
    Input { client_id: u32, input: [u8; 16] },
    /// The player approaches `neighbor_topic`: start or extend its handoff,
    /// and send the neighbour what it needs to show a ghost.
    BeginHandoff { client_id: u32, neighbor_topic: [u8; 32] },
    /// Authority moves to `new_auth_topic`: keep a ghost, tell the new authority.
    BecomeReplica { client_id: u32, new_auth_topic: [u8; 32] },
    /// This server no longer serves the player at all.
    DropPlayer { client_id: u32 },
    /// The player left the margin of `obsolete_topic`; this server is its authority.
    NeighborExited { client_id: u32, obsolete_topic: [u8; 32] },
    /// A payload sent by the server of `from_topic`.
    InterShard { from_topic: [u8; 32], payload: InterShardPayload },
}

/// Reads what `msg` asks of the server whose topic is `my_topic`: a client
/// input; a crossing alert naming this server as authority; an authority
/// switch away from this server; a crossing exit that makes this server
/// obsolete, or else names it as the new authority; an inter-shard message
/// to this server whose payload reads; nothing otherwise.
pub fn shard_reaction(my_topic: &[u8; 32], msg: &BrokerMessage) -> (r: ShardReaction)
    ensures
        match *msg {
            BrokerMessage::ClientInput { client_id, input } => r matches ShardReaction::Input {
                client_id: c,
                input: i,
            } && c == client_id && i == input,
            BrokerMessage::CrossingAlert { client_id, dest_authority_topic, neighbor_topic } =>
                if dest_authority_topic@ == my_topic@ {
                r matches ShardReaction::BeginHandoff { client_id: c, neighbor_topic: n } && c == client_id
                    && n == neighbor_topic
            } else {
                r is Ignore
            },
            BrokerMessage::AuthoritySwitch { client_id, old_auth_topic, new_auth_topic } =>
                if old_auth_topic@ == my_topic@ {
                r matches ShardReaction::BecomeReplica { client_id: c, new_auth_topic: n } && c == client_id
                    && n == new_auth_topic
            } else {
                r is Ignore
            },
            BrokerMessage::CrossingExit { client_id, obsolete_auth_topic, new_auth_topic } =>
                if obsolete_auth_topic@ == my_topic@ {
                r matches ShardReaction::DropPlayer { client_id: c } && c == client_id
            } else if new_auth_topic@ == my_topic@ {
                r matches ShardReaction::NeighborExited { client_id: c, obsolete_topic: o } && c
                    == client_id && o == obsolete_auth_topic
            } else {
                r is Ignore
            },
            BrokerMessage::InterShardMessage { topic_dest, topic_from, payload } =>
                if topic_dest@ == my_topic@ && parse_shard_payload(payload@) is Some {
                r matches ShardReaction::InterShard { from_topic: f, payload: p } && f == topic_from
                    && Some(p@) == parse_shard_payload(payload@)
            } else {
                r is Ignore
            },
            _ => r is Ignore,
        },
{
    match msg {
        BrokerMessage::ClientInput { client_id, input } => ShardReaction::Input {
            client_id: *client_id,
            input: *input,
        },
        BrokerMessage::CrossingAlert { client_id, dest_authority_topic, neighbor_topic } => {
            if topics_equal(dest_authority_topic, my_topic) {
                ShardReaction::BeginHandoff { client_id: *client_id, neighbor_topic: *neighbor_topic }
            } else {
                ShardReaction::Ignore
            }
        },
        BrokerMessage::AuthoritySwitch { client_id, old_auth_topic, new_auth_topic } => {
            if topics_equal(old_auth_topic, my_topic) {
                ShardReaction::BecomeReplica { client_id: *client_id, new_auth_topic: *new_auth_topic }
            } else {
                ShardReaction::Ignore
            }
        },
        BrokerMessage::CrossingExit { client_id, obsolete_auth_topic, new_auth_topic } => {
            if topics_equal(obsolete_auth_topic, my_topic) {
                ShardReaction::DropPlayer { client_id: *client_id }
            } else if topics_equal(new_auth_topic, my_topic) {
                ShardReaction::NeighborExited { client_id: *client_id, obsolete_topic: *obsolete_auth_topic }
            } else {
                ShardReaction::Ignore
            }
        },
        BrokerMessage::InterShardMessage { topic_dest, topic_from, payload } => {
            if topics_equal(topic_dest, my_topic) {
                match InterShardPayload::from_bytes(payload.as_slice()) {
                    Some(p) => ShardReaction::InterShard { from_topic: *topic_from, payload: p },
                    None => ShardReaction::Ignore,
                }
            } else {
                ShardReaction::Ignore
            }
        },
        _ => ShardReaction::Ignore,
    }
}

/// A name stored in a zero-padded buffer: the buffer without its trailing
/// zero bytes, decoded as UTF-8 with replacement characters.
pub fn clean_username(buf: &[u8]) -> (name: String)
    ensures
        name@ == utf8_lossy_chars(trim_trailing_zeros(buf@)),
{
    let mut len: usize = buf.len();
    assert(buf@.take(len as int) =~= buf@);
    while len > 0 && buf[len - 1] == 0
        invariant
            len <= buf@.len(),
            trim_trailing_zeros(buf@) == trim_trailing_zeros(buf@.take(len as int)),
        decreases len,
    {
        assert(buf@.take(len as int).drop_last() =~= buf@.take(len as int - 1));
        len = len - 1;
    }
    assert(trim_trailing_zeros(buf@.take(len as int)) == buf@.take(len as int));
    let name = vstd::slice::slice_subrange(buf, 0, len);
    assert(name@ =~= buf@.take(len as int));
    utf8_lossy(name)
}

/// The first 64 bytes of a name, then zeros: how a name travels in a handoff request.
pub fn name_state_buffer(name: &[u8]) -> (buf: [u8; 64])
    ensures
        forall|i: int| 0 <= i < 64 ==> buf@[i] == if i < name@.len() { name@[i] } else { 0u8 },
{
    let mut buf = [0u8; 64];
    let len = if name.len() < 64 { name.len() } else { 64 };
    let mut i: usize = 0;
    while i < len
        invariant
            len <= 64,
            len <= name@.len(),
            len == 64 || len == name@.len(),
            i <= len,
            forall|j: int| 0 <= j < i ==> buf@[j] == name@[j],
            forall|j: int| i <= j < 64 ==> buf@[j] == 0u8,
        decreases len - i,
    {
        buf[i] = name[i];
        i = i + 1;
    }
    buf
}

/// A topic left after taking `o` out was there before.
pub proof fn lemma_without_topic_within(ts: Seq<Seq<u8>>, o: Seq<u8>, x: Seq<u8>)
    requires
        without_topic(ts, o).contains(x),
    ensures
        ts.contains(x),
    decreases ts.len(),
{
    reveal_with_fuel(Seq::filter, 1);
    if ts.len() > 0 {
        let p = ts.drop_last();
        let w = without_topic(p, o);
        if w.contains(x) {
            lemma_without_topic_within(p, o, x);
            let j = choose|j: int| 0 <= j < p.len() && p[j] == x;
            assert(ts[j] == x);
        } else {
            assert(ts[ts.len() - 1] == x);
        }
    }
}

proof fn lemma_without_topic_no_duplicates(ts: Seq<Seq<u8>>, o: Seq<u8>)
    requires
        ts.no_duplicates(),
    ensures
        without_topic(ts, o).no_duplicates(),
    decreases ts.len(),
{
    reveal_with_fuel(Seq::filter, 1);
    if ts.len() > 0 {
        let p = ts.drop_last();
        assert forall|i: int, j: int| 0 <= i < p.len() && 0 <= j < p.len() && i != j implies p[i] != p[j] by {
            assert(p[i] == ts[i] && p[j] == ts[j]);
        }
        lemma_without_topic_no_duplicates(p, o);
        let w = without_topic(p, o);
        if ts.last() != o {
            if w.contains(ts.last()) {
                lemma_without_topic_within(p, o, ts.last());
                let j = choose|j: int| 0 <= j < p.len() && p[j] == ts.last();
                assert(ts[j] == ts[ts.len() - 1]);
            }
            lemma_push_no_duplicates(w, ts.last());
        }
    }
}

/// A pending handoff names at least one neighbour, and none twice.
pub open spec fn pending_ok(s: EntityStatus) -> bool {
    match s {
        EntityStatus::Pending(ts) => ts.len() > 0 && ts.no_duplicates(),
        _ => true,
    }
}

/// Every transition keeps a pending handoff naming at least one neighbour and
/// none twice: a crossing alert, a crossing exit at the new authority, an
/// authority switch (to a replica) and a completed handoff (one neighbour).
pub proof fn lemma_transitions_keep_pending_ok(s: EntityStatus, n: Seq<u8>)
    requires
        pending_ok(s),
    ensures
        pending_ok(after_alert(s, n)),
        pending_ok(after_exit(s, n)),
        pending_ok(EntityStatus::Replica),
        pending_ok(EntityStatus::Pending(seq![n])),
{
    assert(seq![n].no_duplicates());
    if let EntityStatus::Pending(ts) = s {
        if !ts.contains(n) {
            lemma_push_no_duplicates(ts, n);
        }
        lemma_without_topic_no_duplicates(ts, n);
    }
}

} // verus!
