//! The players a game server knows: its own, and the replicas of players
//! simulated next door, with what a handoff between servers does to them.
//! Positions, velocities and scores are kept as the bit patterns of their
//! `f32` values; the arithmetic on them belongs to the game loop.
use vstd::prelude::*;
use std::collections::HashMap;
use crate::broker_protocol::{
    BrokerMessage, BrokerMsg, InterShardPayload, ShardPayload, encode_shard_payload, trim_trailing_zeros,
    utf8_lossy_chars, parse_shard_payload, lemma_shard_payload_decode_encode,
};
use crate::handoff::{
    EntityState, EntityStatus, after_alert, after_exit, clean_username, copy_topics, name_state_buffer,
    pending_ok, lemma_transitions_keep_pending_ok, lemma_without_topic_within, ShardReaction, without_topic,
};

verus! {

/// The bit pattern of the `f32` value 32.0, the spawn abscissa.
pub const SPAWN_X_BITS: u32 = 0x4200_0000;
/// The bit pattern of the `f32` value 40.0, the spawn ordinate.
pub const SPAWN_Y_BITS: u32 = 0x4220_0000;

/// A player as a game server holds it.
pub struct PlayerRecord {
    pub username: String,
    pub pos_x: u32,
    pub pos_y: u32,
    pub vel_x: u32,
    pub vel_y: u32,
    pub score: u32,
    pub state: EntityState,
}

/// The value of a [`PlayerRecord`].
pub struct PlayerEntry {
    pub username: Seq<char>,
    pub pos_x: u32,
    pub pos_y: u32,
    pub vel_x: u32,
    pub vel_y: u32,
    pub score: u32,
    pub state: EntityStatus,
}

impl View for PlayerRecord {
    type V = PlayerEntry;

    open spec fn view(&self) -> PlayerEntry {
        PlayerEntry {
            username: self.username@,
            pos_x: self.pos_x,
            pos_y: self.pos_y,
            vel_x: self.vel_x,
            vel_y: self.vel_y,
            score: self.score,
            state: self.state@,
        }
    }
}

impl EntityState {
    /// A copy of the state.
    pub fn duplicate(&self) -> (s: EntityState)
        ensures
            s@ == self@,
    {
        match self {
            EntityState::Owned => EntityState::Owned,
            EntityState::PendingHandoff { neighbor_topics } => EntityState::PendingHandoff {
                neighbor_topics: copy_topics(neighbor_topics),
            },
            EntityState::Replica => EntityState::Replica,
        }
    }
}

impl PlayerRecord {
    /// A copy of the record.
    pub fn duplicate(&self) -> (r: PlayerRecord)
        ensures
            r@ == self@,
    {
        PlayerRecord {
            username: self.username.clone(),
            pos_x: self.pos_x,
            pos_y: self.pos_y,
            vel_x: self.vel_x,
            vel_y: self.vel_y,
            score: self.score,
            state: self.state.duplicate(),
        }
    }
}

/// Every pending handoff among `m` names a neighbour, and none twice.
pub open spec fn entries_pending_ok(m: Map<u32, PlayerEntry>) -> bool {
    forall|id: u32| #[trigger] m.contains_key(id) ==> pending_ok(m[id].state)
}

proof fn lemma_insert_pending_ok(m: Map<u32, PlayerEntry>, id: u32, e: PlayerEntry)
    requires
        entries_pending_ok(m),
        pending_ok(e.state),
    ensures
        entries_pending_ok(m.insert(id, e)),
{
}

/// The name of a player as the 64 bytes of a handoff request: its UTF-8
/// bytes, cut or padded with zeros.
pub open spec fn name_state(username: Seq<char>) -> Seq<u8> {
    Seq::new(
        64,
        |i: int|
            if i < vstd::utf8::encode_utf8(username).len() {
                vstd::utf8::encode_utf8(username)[i]
            } else {
                0u8
            },
    )
}

/// The players after a payload from the server of `from` (see
/// [`ShardRegistry::apply_inter_shard`]).
pub open spec fn inter_shard_entries(m: Map<u32, PlayerEntry>, from: Seq<u8>, p: ShardPayload) -> Map<
    u32,
    PlayerEntry,
> {
    match p {
        ShardPayload::HandoffRequest { entity_id, pos_x, pos_y, vel_x, vel_y, state } => m.insert(
            entity_id,
            PlayerEntry {
                username: utf8_lossy_chars(trim_trailing_zeros(state)),
                pos_x,
                pos_y,
                vel_x,
                vel_y,
                score: 0,
                state: EntityStatus::Replica,
            },
        ),
        ShardPayload::GhostUpdate { entity_id, pos_x, pos_y, vel_x, vel_y } => match m.get(entity_id) {
            Some(e) => if e.state is Replica {
                m.insert(entity_id, PlayerEntry { pos_x, pos_y, vel_x, vel_y, ..e })
            } else {
                m
            },
            None => m,
        },
        ShardPayload::HandoffComplete { entity_id } => match m.get(entity_id) {
            Some(e) => m.insert(entity_id, PlayerEntry { state: EntityStatus::Pending(seq![from]), ..e }),
            None => m,
        },
        ShardPayload::FoodTakeoverRequest { .. } => m,
    }
}

/// The players after a reaction other than a client input, which this
/// registry does not decode.
pub open spec fn reaction_entries(m: Map<u32, PlayerEntry>, r: ShardReaction) -> Map<u32, PlayerEntry> {
    match r {
        ShardReaction::BeginHandoff { client_id, neighbor_topic } => match m.get(client_id) {
            Some(e) => m.insert(client_id, PlayerEntry { state: after_alert(e.state, neighbor_topic@), ..e }),
            None => m,
        },
        ShardReaction::BecomeReplica { client_id, .. } => match m.get(client_id) {
            Some(e) => m.insert(client_id, PlayerEntry { state: EntityStatus::Replica, ..e }),
            None => m,
        },
        ShardReaction::DropPlayer { client_id } => m.remove(client_id),
        ShardReaction::NeighborExited { client_id, obsolete_topic } => match m.get(client_id) {
            Some(e) => m.insert(client_id, PlayerEntry { state: after_exit(e.state, obsolete_topic@), ..e }),
            None => m,
        },
        ShardReaction::InterShard { from_topic, payload } => inter_shard_entries(m, from_topic@, payload@),
        _ => m,
    }
}

/// What the server of `my_topic` sends back after a reaction: to a
/// neighbour that a player approaches, the request to show a replica; to
/// the new authority of a player, the news that the handoff is complete;
/// nothing else, and nothing for an unknown player.
pub open spec fn reaction_replies(m: Map<u32, PlayerEntry>, my_topic: Seq<u8>, r: ShardReaction) -> Seq<BrokerMsg> {
    match r {
        ShardReaction::BeginHandoff { client_id, neighbor_topic } => match m.get(client_id) {
            Some(e) => seq![
                BrokerMsg::InterShardMessage {
                    topic_dest: neighbor_topic@,
                    topic_from: my_topic,
                    payload: encode_shard_payload(
                        ShardPayload::HandoffRequest {
                            entity_id: client_id,
                            pos_x: e.pos_x,
                            pos_y: e.pos_y,
                            vel_x: e.vel_x,
                            vel_y: e.vel_y,
                            state: name_state(e.username),
                        },
                    ),
                },
            ],
            None => Seq::empty(),
        },
        ShardReaction::BecomeReplica { client_id, new_auth_topic } => match m.get(client_id) {
            Some(e) => seq![
                BrokerMsg::InterShardMessage {
                    topic_dest: new_auth_topic@,
                    topic_from: my_topic,
                    payload: encode_shard_payload(ShardPayload::HandoffComplete { entity_id: client_id }),
                },
            ],
            None => Seq::empty(),
        },
        _ => Seq::empty(),
    }
}

/// `after` holds the same players as `before`, each unchanged but for the
/// state of player `c`, which is present.
pub open spec fn only_state_changed(before: Map<u32, PlayerEntry>, after: Map<u32, PlayerEntry>, c: u32) -> bool {
    &&& before.contains_key(c)
    &&& after.dom() == before.dom()
    &&& forall|k: u32| #[trigger] before.contains_key(k) && k != c ==> after[k] == before[k]
    &&& after[c].username == before[c].username
    &&& after[c].pos_x == before[c].pos_x
    &&& after[c].pos_y == before[c].pos_y
    &&& after[c].vel_x == before[c].vel_x
    &&& after[c].vel_y == before[c].vel_y
    &&& after[c].score == before[c].score
}

/// What a reaction does to the registry, told by the topics a pending
/// handoff names: approaching a neighbour adds it to the handoff (an owned
/// player starts one with that neighbour alone, a replica stays a replica);
/// losing authority makes a replica; leaving the margin of a neighbour takes
/// it out of the handoff, which ends (the player owned) when no other
/// neighbour is left; dropping a player forgets it; a completed handoff makes
/// the player owned here with the sender as its only neighbour. Nothing
/// happens to a player the registry does not hold, nor on a client input or
/// a message for another server.
pub open spec fn reaction_promises(before: Map<u32, PlayerEntry>, after: Map<u32, PlayerEntry>, r: ShardReaction) -> bool {
    match r {
        ShardReaction::BeginHandoff { client_id: c, neighbor_topic: nb } => if before.contains_key(c) {
            &&& only_state_changed(before, after, c)
            &&& match before[c].state {
                EntityStatus::Owned => after[c].state == EntityStatus::Pending(seq![nb@]),
                EntityStatus::Pending(ts) => after[c].state matches EntityStatus::Pending(us) && forall|x: Seq<u8>|
                    #[trigger] us.contains(x) <==> (ts.contains(x) || x == nb@),
                EntityStatus::Replica => after[c].state == EntityStatus::Replica,
            }
        } else {
            after == before
        },
        ShardReaction::BecomeReplica { client_id: c, .. } => if before.contains_key(c) {
            only_state_changed(before, after, c) && after[c].state == EntityStatus::Replica
        } else {
            after == before
        },
        ShardReaction::NeighborExited { client_id: c, obsolete_topic: t } => if before.contains_key(c) {
            &&& only_state_changed(before, after, c)
            &&& match before[c].state {
                EntityStatus::Pending(ts) => if exists|x: Seq<u8>| #[trigger] ts.contains(x) && x != t@ {
                    after[c].state matches EntityStatus::Pending(us) && forall|x: Seq<u8>|
                        #[trigger] us.contains(x) <==> (ts.contains(x) && x != t@)
                } else {
                    after[c].state == EntityStatus::Owned
                },
                EntityStatus::Owned => after[c].state == EntityStatus::Owned,
                EntityStatus::Replica => after[c].state == EntityStatus::Replica,
            }
        } else {
            after == before
        },
        ShardReaction::DropPlayer { client_id: c } => !after.contains_key(c) && forall|k: u32|
            #[trigger] after.contains_key(k) <==> (before.contains_key(k) && k != c) && (after.contains_key(k)
                ==> after[k] == before[k]),
        ShardReaction::InterShard { from_topic, payload } => match payload@ {
            ShardPayload::HandoffComplete { entity_id: c } => if before.contains_key(c) {
                only_state_changed(before, after, c) && after[c].state == EntityStatus::Pending(seq![from_topic@])
            } else {
                after == before
            },
            ShardPayload::FoodTakeoverRequest { .. } => after == before,
            _ => true,
        },
        _ => after == before,
    }
}

proof fn lemma_without_topic_members(ts: Seq<Seq<u8>>, o: Seq<u8>)
    ensures
        forall|x: Seq<u8>| #[trigger] without_topic(ts, o).contains(x) <==> (ts.contains(x) && x != o),
        without_topic(ts, o).len() == 0 <==> !(exists|x: Seq<u8>| #[trigger] ts.contains(x) && x != o),
{
    broadcast use vstd::seq_lib::group_filter_ensures;

    let w = without_topic(ts, o);
    assert forall|x: Seq<u8>| #[trigger] w.contains(x) <==> (ts.contains(x) && x != o) by {
        if w.contains(x) {
            let i = choose|i: int| 0 <= i < w.len() && w[i] == x;
            assert(w[i] != o);
            lemma_without_topic_within(ts, o, x);
        }
        if ts.contains(x) && x != o {
            let i = choose|i: int| 0 <= i < ts.len() && ts[i] == x;
            assert(ts[i] != o);
        }
    }
    if w.len() > 0 {
        assert(w.contains(w[0]));
        assert(ts.contains(w[0]) && w[0] != o);
    }
    if exists|x: Seq<u8>| #[trigger] ts.contains(x) && x != o {
        let x = choose|x: Seq<u8>| #[trigger] ts.contains(x) && x != o;
        assert(w.contains(x));
    }
}

/// Every reaction keeps its promises (see [`reaction_promises`]): the
/// registry after a reaction is the one those promises describe.
pub proof fn lemma_reaction_promises(m: Map<u32, PlayerEntry>, r: ShardReaction)
    ensures
        reaction_promises(m, reaction_entries(m, r), r),
{
    let after = reaction_entries(m, r);
    match r {
        ShardReaction::BeginHandoff { client_id: c, neighbor_topic: nb } => {
            if m.contains_key(c) {
                assert(after.dom() =~= m.dom());
                if let EntityStatus::Pending(ts) = m[c].state {
                    if let EntityStatus::Pending(us) = after[c].state {
                        assert forall|x: Seq<u8>| #[trigger] us.contains(x) <==> (ts.contains(x) || x == nb@) by {
                            if !ts.contains(nb@) {
                                assert(us == ts.push(nb@));
                                if us.contains(x) {
                                    let i = choose|i: int| 0 <= i < us.len() && us[i] == x;
                                    if i < ts.len() {
                                        assert(ts[i] == x);
                                    }
                                }
                                if ts.contains(x) {
                                    let i = choose|i: int| 0 <= i < ts.len() && ts[i] == x;
                                    assert(us[i] == x);
                                }
                                if x == nb@ {
                                    assert(us[ts.len() as int] == x);
                                }
                            }
                        }
                    }
                }
            } else {
                assert(after =~= m);
            }
        },
        ShardReaction::NeighborExited { client_id: c, obsolete_topic: t } => {
            if m.contains_key(c) {
                assert(after.dom() =~= m.dom());
                if let EntityStatus::Pending(ts) = m[c].state {
                    lemma_without_topic_members(ts, t@);
                }
            } else {
                assert(after =~= m);
            }
        },
        ShardReaction::BecomeReplica { client_id: c, .. } => {
            if !m.contains_key(c) {
                assert(after =~= m);
            } else {
                assert(after.dom() =~= m.dom());
            }
        },
        ShardReaction::InterShard { from_topic, payload } => {
            if let ShardPayload::HandoffComplete { entity_id: c } = payload@ {
                if !m.contains_key(c) {
                    assert(after =~= m);
                } else {
                    assert(after.dom() =~= m.dom());
                }
            }
        },
        _ => {},
    }
}

/// Where the replies to a reaction go and what they say, read back from
/// their bytes: approaching a neighbour sends that neighbour, from
/// `my_topic`, the request to show a replica of the player with its position,
/// velocity and name; losing authority sends the new authority, from
/// `my_topic`, the news that the handoff of the player is complete. Nothing
/// else is sent, and nothing for a player the registry does not hold.
pub open spec fn replies_promised(
    m: Map<u32, PlayerEntry>,
    my_topic: Seq<u8>,
    r: ShardReaction,
    replies: Seq<BrokerMsg>,
) -> bool {
    match r {
        ShardReaction::BeginHandoff { client_id: c, neighbor_topic: nb } => if m.contains_key(c) {
            &&& replies.len() == 1
            &&& replies[0] matches BrokerMsg::InterShardMessage { topic_dest, topic_from, payload }
            &&& topic_dest == nb@
            &&& topic_from == my_topic
            &&& parse_shard_payload(payload) matches Some(ShardPayload::HandoffRequest { entity_id, pos_x, pos_y, vel_x, vel_y, state })
            &&& entity_id == c
            &&& pos_x == m[c].pos_x && pos_y == m[c].pos_y && vel_x == m[c].vel_x && vel_y == m[c].vel_y
            &&& state.len() == 64
            &&& forall|i: int|
                0 <= i < 64 ==> #[trigger] state[i] == if i < vstd::utf8::encode_utf8(m[c].username).len() {
                    vstd::utf8::encode_utf8(m[c].username)[i]
                } else {
                    0u8
                }
        } else {
            replies.len() == 0
        },
        ShardReaction::BecomeReplica { client_id: c, new_auth_topic: na } => if m.contains_key(c) {
            &&& replies.len() == 1
            &&& replies[0] matches BrokerMsg::InterShardMessage { topic_dest, topic_from, payload }
            &&& topic_dest == na@
            &&& topic_from == my_topic
            &&& parse_shard_payload(payload) == Some(ShardPayload::HandoffComplete { entity_id: c })
        } else {
            replies.len() == 0
        },
        _ => replies.len() == 0,
    }
}

/// The replies of every reaction keep their promises (see [`replies_promised`]).
pub proof fn lemma_replies_promised(m: Map<u32, PlayerEntry>, my_topic: Seq<u8>, r: ShardReaction)
    ensures
        replies_promised(m, my_topic, r, reaction_replies(m, my_topic, r)),
{
    match r {
        ShardReaction::BeginHandoff { client_id: c, neighbor_topic: nb } => {
            if m.contains_key(c) {
                let e = m[c];
                lemma_shard_payload_decode_encode(
                    ShardPayload::HandoffRequest {
                        entity_id: c,
                        pos_x: e.pos_x,
                        pos_y: e.pos_y,
                        vel_x: e.vel_x,
                        vel_y: e.vel_y,
                        state: name_state(e.username),
                    },
                );
            }
        },
        ShardReaction::BecomeReplica { client_id: c, .. } => {
            lemma_shard_payload_decode_encode(ShardPayload::HandoffComplete { entity_id: c });
        },
        _ => {},
    }
}

/// The players of one game server, by client identifier.
pub struct ShardRegistry {
    pub players: HashMap<u32, PlayerRecord>,
}

impl ShardRegistry {
    /// The players, as values.
    pub open spec fn entries(self) -> Map<u32, PlayerEntry> {
        self.players@.map_values(|r: PlayerRecord| r@)
    }

    /// Every pending handoff of the registry names a neighbour, and none twice.
    pub open spec fn pending_lists_ok(self) -> bool {
        entries_pending_ok(self.entries())
    }

    /// No player.
    pub fn new() -> (r: Self)
        ensures
            r.entries() == Map::<u32, PlayerEntry>::empty(),
            r.pending_lists_ok(),
    {
        let r = ShardRegistry { players: HashMap::new() };
        assert(r.entries() =~= Map::<u32, PlayerEntry>::empty());
        r
    }

    fn put(&mut self, id: u32, rec: PlayerRecord)
        ensures
            final(self).entries() == old(self).entries().insert(id, rec@),
    {
        broadcast use vstd::std_specs::hash::group_hash_axioms;
        let ghost v = rec@;
        self.players.insert(id, rec);
        assert(self.entries() =~= old(self).entries().insert(id, v));
    }

    fn record(&self, id: u32) -> (r: Option<PlayerRecord>)
        ensures
            match r {
                Some(rec) => self.entries().contains_key(id) && rec@ == self.entries()[id],
                None => !self.entries().contains_key(id),
            },
    {
        broadcast use vstd::std_specs::hash::group_hash_axioms;
        match self.players.get(&id) {
            Some(rec) => Some(rec.duplicate()),
            None => None,
        }
    }

    /// A client joined under the name held in `username`: it is placed at the
    /// spawn point, still, with no score, and this server owns it.
    pub fn join(&mut self, client_id: u32, username: &[u8; 12])
        ensures
            final(self).entries() == old(self).entries().insert(
                client_id,
                PlayerEntry {
                    username: utf8_lossy_chars(trim_trailing_zeros(username@)),
                    pos_x: SPAWN_X_BITS,
                    pos_y: SPAWN_Y_BITS,
                    vel_x: 0,
                    vel_y: 0,
                    score: 0,
                    state: EntityStatus::Owned,
                },
            ),
            old(self).pending_lists_ok() ==> final(self).pending_lists_ok(),
    {
        let rec = PlayerRecord {
            username: clean_username(username.as_slice()),
            pos_x: SPAWN_X_BITS,
            pos_y: SPAWN_Y_BITS,
            vel_x: 0,
            vel_y: 0,
            score: 0,
            state: EntityState::Owned,
        };
        self.put(client_id, rec);
        proof {
            if old(self).pending_lists_ok() {
                lemma_insert_pending_ok(old(self).entries(), client_id, self.entries()[client_id]);
            }
        }
    }

    /// The client left, or this server no longer serves it.
    pub fn drop_player(&mut self, client_id: u32)
        ensures
            final(self).entries() == old(self).entries().remove(client_id),
            old(self).pending_lists_ok() ==> final(self).pending_lists_ok(),
    {
        broadcast use vstd::std_specs::hash::group_hash_axioms;
        self.players.remove(&client_id);
        assert(self.entries() =~= old(self).entries().remove(client_id));
    }

    /// The player approaches `neighbor_topic`: its handoff starts or widens,
    /// and the neighbour must be sent the request to show a replica, with
    /// the player's name, position, velocity and score. Nothing happens to an
    /// unknown player.
    pub fn begin_handoff(&mut self, client_id: u32, neighbor_topic: [u8; 32]) -> (r: Option<InterShardPayload>)
        ensures
            match old(self).entries().get(client_id) {
                Some(e) => {
                    &&& final(self).entries() == old(self).entries().insert(
                        client_id,
                        PlayerEntry { state: after_alert(e.state, neighbor_topic@), ..e },
                    )
                    &&& r matches Some(p) && p@ == (ShardPayload::HandoffRequest {
                        entity_id: client_id,
                        pos_x: e.pos_x,
                        pos_y: e.pos_y,
                        vel_x: e.vel_x,
                        vel_y: e.vel_y,
                        state: Seq::new(
                            64,
                            |i: int|
                                if i < vstd::utf8::encode_utf8(e.username).len() {
                                    vstd::utf8::encode_utf8(e.username)[i]
                                } else {
                                    0u8
                                },
                        ),
                    })
                },
                None => final(self).entries() == old(self).entries() && r is None,
            },
            old(self).pending_lists_ok() ==> final(self).pending_lists_ok(),
    {
        match self.record(client_id) {
            Some(mut rec) => {
                rec.state.on_crossing_alert(neighbor_topic);
                let buf = name_state_buffer(rec.username.as_str().as_bytes());
                let req = InterShardPayload::HandoffRequest {
                    entity_id: client_id,
                    pos_x: rec.pos_x,
                    pos_y: rec.pos_y,
                    vel_x: rec.vel_x,
                    vel_y: rec.vel_y,
                    state: buf,
                };
                let ghost e = old(self).entries()[client_id];
                assert(buf@ =~= Seq::new(
                    64,
                    |i: int|
                        if i < vstd::utf8::encode_utf8(e.username).len() {
                            vstd::utf8::encode_utf8(e.username)[i]
                        } else {
                            0u8
                        },
                ));
                self.put(client_id, rec);
                proof {
                    if old(self).pending_lists_ok() {
                        lemma_transitions_keep_pending_ok(e.state, neighbor_topic@);
                        lemma_insert_pending_ok(old(self).entries(), client_id, self.entries()[client_id]);
                    }
                }
                Some(req)
            },
            None => None,
        }
    }

    /// Authority over the player moves to `new_auth_topic`: this server keeps
    /// a replica, and the new authority must be told the handoff is complete.
    pub fn become_replica(&mut self, client_id: u32) -> (r: Option<InterShardPayload>)
        ensures
            match old(self).entries().get(client_id) {
                Some(e) => {
                    &&& final(self).entries() == old(self).entries().insert(
                        client_id,
                        PlayerEntry { state: EntityStatus::Replica, ..e },
                    )
                    &&& r matches Some(p) && p@ == (ShardPayload::HandoffComplete { entity_id: client_id })
                },
                None => final(self).entries() == old(self).entries() && r is None,
            },
            old(self).pending_lists_ok() ==> final(self).pending_lists_ok(),
    {
        match self.record(client_id) {
            Some(mut rec) => {
                rec.state.on_authority_switch();
                self.put(client_id, rec);
                proof {
                    if old(self).pending_lists_ok() {
                        lemma_insert_pending_ok(old(self).entries(), client_id, self.entries()[client_id]);
                    }
                }
                Some(InterShardPayload::HandoffComplete { entity_id: client_id })
            },
            None => None,
        }
    }

    /// The player, owned here, left the margin of `obsolete_topic`.
    pub fn neighbor_exited(&mut self, client_id: u32, obsolete_topic: &[u8; 32])
        ensures
            match old(self).entries().get(client_id) {
                Some(e) => final(self).entries() == old(self).entries().insert(
                    client_id,
                    PlayerEntry { state: after_exit(e.state, obsolete_topic@), ..e },
                ),
                None => final(self).entries() == old(self).entries(),
            },
            old(self).pending_lists_ok() ==> final(self).pending_lists_ok(),
    {
        match self.record(client_id) {
            Some(mut rec) => {
                let ghost e = old(self).entries()[client_id];
                rec.state.on_crossing_exit(obsolete_topic);
                self.put(client_id, rec);
                proof {
                    if old(self).pending_lists_ok() {
                        lemma_transitions_keep_pending_ok(e.state, obsolete_topic@);
                        lemma_insert_pending_ok(old(self).entries(), client_id, self.entries()[client_id]);
                    }
                }
            },
            None => {},
        }
    }

    /// A payload from the server of `from_topic`: a handoff request makes a
    /// replica of the player (score zero: the request carries none); a
    /// replica update moves a replica; a completed handoff gives this server
    /// authority, mirroring the player back to `from_topic`. A request for
    /// food concerns no player and leaves the registry as it is.
    pub fn apply_inter_shard(&mut self, from_topic: [u8; 32], payload: InterShardPayload)
        ensures
            match payload@ {
                ShardPayload::HandoffRequest { entity_id, pos_x, pos_y, vel_x, vel_y, state } =>
                    final(self).entries() == old(self).entries().insert(
                    entity_id,
                    PlayerEntry {
                        username: utf8_lossy_chars(trim_trailing_zeros(state)),
                        pos_x,
                        pos_y,
                        vel_x,
                        vel_y,
                        score: 0,
                        state: EntityStatus::Replica,
                    },
                ),
                ShardPayload::GhostUpdate { entity_id, pos_x, pos_y, vel_x, vel_y } => match old(
                    self,
                ).entries().get(entity_id) {
                    Some(e) => if e.state is Replica {
                        final(self).entries() == old(self).entries().insert(
                            entity_id,
                            PlayerEntry { pos_x, pos_y, vel_x, vel_y, ..e },
                        )
                    } else {
                        final(self).entries() == old(self).entries()
                    },
                    None => final(self).entries() == old(self).entries(),
                },
                ShardPayload::HandoffComplete { entity_id } => match old(self).entries().get(entity_id) {
                    Some(e) => final(self).entries() == old(self).entries().insert(
                        entity_id,
                        PlayerEntry { state: EntityStatus::Pending(seq![from_topic@]), ..e },
                    ),
                    None => final(self).entries() == old(self).entries(),
                },
                ShardPayload::FoodTakeoverRequest { .. } => final(self).entries() == old(self).entries(),
            },
            old(self).pending_lists_ok() ==> final(self).pending_lists_ok(),
    {
        match payload {
            InterShardPayload::HandoffRequest { entity_id, pos_x, pos_y, vel_x, vel_y, state } => {
                let rec = PlayerRecord {
                    username: clean_username(state.as_slice()),
                    pos_x,
                    pos_y,
                    vel_x,
                    vel_y,
                    score: 0,
                    state: EntityState::Replica,
                };
                self.put(entity_id, rec);
                proof {
                    if old(self).pending_lists_ok() {
                        lemma_insert_pending_ok(old(self).entries(), entity_id, self.entries()[entity_id]);
                    }
                }
            },
            InterShardPayload::GhostUpdate { entity_id, pos_x, pos_y, vel_x, vel_y } => {
                match self.record(entity_id) {
                    Some(mut rec) => {
                        if rec.state.is_ghost() {
                            rec.pos_x = pos_x;
                            rec.pos_y = pos_y;
                            rec.vel_x = vel_x;
                            rec.vel_y = vel_y;
                            self.put(entity_id, rec);
                            proof {
                                if old(self).pending_lists_ok() {
                                    lemma_insert_pending_ok(old(self).entries(), entity_id, self.entries()[entity_id]);
                                }
                            }
                        }
                    },
                    None => {},
                }
            },
            InterShardPayload::HandoffComplete { entity_id } => {
                match self.record(entity_id) {
                    Some(mut rec) => {
                        rec.state.on_handoff_complete(from_topic);
                        self.put(entity_id, rec);
                        proof {
                            if old(self).pending_lists_ok() {
                                lemma_transitions_keep_pending_ok(EntityStatus::Owned, from_topic@);
                                lemma_insert_pending_ok(old(self).entries(), entity_id, self.entries()[entity_id]);
                            }
                        }
                    },
                    None => {},
                }
            },
            InterShardPayload::FoodTakeoverRequest { .. } => {},
        }
    }

    /// Applies a reaction of the server of `my_topic` to a broker message
    /// and returns the messages to send back (see [`reaction_entries`] and
    /// [`reaction_replies`]). A client input is left to the caller, which
    /// decodes it: the registry and the replies stay as they are. Whatever
    /// the message, pending handoffs keep naming a neighbour, none twice.
    pub fn apply_reaction(&mut self, my_topic: [u8; 32], reaction: ShardReaction) -> (out: Vec<BrokerMessage>)
        ensures
            final(self).entries() == reaction_entries(old(self).entries(), reaction),
            out@.map_values(|m: BrokerMessage| m@) == reaction_replies(old(self).entries(), my_topic@, reaction),
            old(self).pending_lists_ok() ==> final(self).pending_lists_ok(),
            reaction_promises(old(self).entries(), final(self).entries(), reaction),
            replies_promised(old(self).entries(), my_topic@, reaction, out@.map_values(|m: BrokerMessage| m@)),
    {
        proof {
            lemma_reaction_promises(self.entries(), reaction);
            lemma_replies_promised(self.entries(), my_topic@, reaction);
        }
        let ghost m = self.entries();
        let ghost r = reaction;
        let mut out: Vec<BrokerMessage> = Vec::new();
        match reaction {
            ShardReaction::BeginHandoff { client_id, neighbor_topic } => {
                if let Some(req) = self.begin_handoff(client_id, neighbor_topic) {
                    out.push(
                        BrokerMessage::InterShardMessage {
                            topic_dest: neighbor_topic,
                            topic_from: my_topic,
                            payload: req.to_bytes(),
                        },
                    );
                }
            },
            ShardReaction::BecomeReplica { client_id, new_auth_topic } => {
                if let Some(comp) = self.become_replica(client_id) {
                    out.push(
                        BrokerMessage::InterShardMessage {
                            topic_dest: new_auth_topic,
                            topic_from: my_topic,
                            payload: comp.to_bytes(),
                        },
                    );
                }
            },
            ShardReaction::DropPlayer { client_id } => self.drop_player(client_id),
            ShardReaction::NeighborExited { client_id, obsolete_topic } => {
                self.neighbor_exited(client_id, &obsolete_topic)
            },
            ShardReaction::InterShard { from_topic, payload } => {
                let ghost p = payload@;
                self.apply_inter_shard(from_topic, payload);
                assert(self.entries() == inter_shard_entries(m, from_topic@, p));
            },
            ShardReaction::Ignore => {},
            ShardReaction::Input { .. } => {},
        }
        proof {
            assert(out@.map_values(|m: BrokerMessage| m@) =~= reaction_replies(m, my_topic@, r));
        }
        out
    }
}

} // verus!
