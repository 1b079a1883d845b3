//! Decisions of the spatial server: where each player belongs, when a player
//! approaches or crosses a border between shards, and what must then be told
//! to the broker and to the orchestrator. The network itself is driven
//! elsewhere; every decision here returns the messages to send.
use vstd::prelude::*;
use std::collections::HashMap;
use crate::broker_protocol::{BrokerMessage, topic_from_bytes, topic_from_slice};
use crate::geometry::{Rect, Vec2, rect_contains};
use crate::orchestrator_protocol::OrchestratorMessage;
use crate::quadtree::{
    InsertResult, QuadTree, ShardStatus, SplitData, insert_outcome, lemma_commit_result_pairs,
    lemma_own_shard_is_near, search_square,
};
use crate::util::{added_ids, contains_id, copy_ids, get_added_ids, get_removed_ids, same_ids};

verus! {

/// Lower bound of both map coordinates, in world units.
pub const MAP_BOUND_MIN: i32 = -2000;
/// Upper bound of both map coordinates, in world units.
pub const MAP_BOUND_MAX: i32 = 2000;
/// Side of the square map, in world units.
pub const MAP_SIZE: i32 = 4000;
/// Where players appear when they join.
pub const SPAWN_X: i32 = 32;
/// Where players appear when they join.
pub const SPAWN_Y: i32 = 40;
/// Distance from a player within which a neighbouring shard counts as near.
pub const MARGIN: i32 = 200;

/// Something the spatial server must tell the broker or the orchestrator.
#[derive(Debug, Clone, Copy)]
pub enum SpatialAction {
    /// Subscribe the client to the shard's topic.
    Subscribe { client_id: u32, shard_id: u32 },
    /// Unsubscribe the client from the shard's topic.
    Unsubscribe { client_id: u32, shard_id: u32 },
    /// The client approaches `neighbor_shard_id` while owned by `owner_shard_id`.
    CrossingAlert { client_id: u32, owner_shard_id: u32, neighbor_shard_id: u32 },
    /// Authority over the client moves from `owner_shard_id` to `neighbor_shard_id`.
    SwitchAuthority { client_id: u32, owner_shard_id: u32, neighbor_shard_id: u32 },
    /// The client left the margin of `old_shard_id` and now belongs to `owner_shard_id`.
    CrossingExit { client_id: u32, old_shard_id: u32, owner_shard_id: u32 },
    /// Ask the orchestrator to start servers for the new shards of a split.
    RequestSplit { split: SplitData },
    /// The shard holding the spawn point changed.
    NewSpawnShard { new_shard_id: u32 },
}

/// The decimal digits of `n`, as ASCII bytes.
pub open spec fn decimal_digits(n: nat) -> Seq<u8>
    decreases n,
{
    if n < 10 {
        seq![(48 + n) as u8]
    } else {
        decimal_digits(n / 10).push((48 + n % 10) as u8)
    }
}

/// The bytes of the name "shard:<id>".
pub open spec fn shard_name(id: u32) -> Seq<u8> {
    seq![115u8, 104u8, 97u8, 114u8, 100u8, 58u8] + decimal_digits(id as nat)
}

pub(crate) fn decimal(n: u32) -> (v: Vec<u8>)
    ensures
        v@ == decimal_digits(n as nat),
    decreases n,
{
    if n < 10 {
        let mut v: Vec<u8> = Vec::new();
        v.push((48 + n) as u8);
        v
    } else {
        let mut v = decimal(n / 10);
        v.push((48 + n % 10) as u8);
        v
    }
}

/// The topic of a shard: the name "shard:<id>" padded to 32 bytes.
pub fn shard_topic(shard_id: u32) -> (topic: [u8; 32])
    ensures
        topic@ == topic_from_bytes(shard_name(shard_id)),
{
    let mut name: Vec<u8> = Vec::new();
    name.push(115u8);
    name.push(104u8);
    name.push(97u8);
    name.push(114u8);
    name.push(100u8);
    name.push(58u8);
    let digits = decimal(shard_id);
    let mut i: usize = 0;
    while i < digits.len()
        invariant
            i <= digits@.len(),
            name@ == seq![115u8, 104u8, 97u8, 114u8, 100u8, 58u8] + digits@.take(i as int),
        decreases digits@.len() - i,
    {
        name.push(digits[i]);
        assert(digits@.take(i as int + 1) =~= digits@.take(i as int).push(digits@[i as int]));
        i = i + 1;
    }
    assert(digits@.take(digits@.len() as int) =~= digits@);
    topic_from_slice(name.as_slice())
}

impl SpatialAction {
    /// The broker message that carries the action, or `None` for the actions
    /// addressed to the orchestrator or that the broker protocol has no message for.
    pub fn to_broker_message(&self) -> (m: Option<BrokerMessage>)
        ensures
            match *self {
                SpatialAction::Subscribe { client_id, shard_id } => m matches Some(
                    BrokerMessage::Subscribe { client_id: c, topic },
                ) && c == client_id && topic@ == topic_from_bytes(shard_name(shard_id)),
                SpatialAction::Unsubscribe { client_id, shard_id } => m matches Some(
                    BrokerMessage::Unsubscribe { client_id: c, topic },
                ) && c == client_id && topic@ == topic_from_bytes(shard_name(shard_id)),
                SpatialAction::CrossingAlert { client_id, owner_shard_id, neighbor_shard_id } =>
                    m matches Some(
                    BrokerMessage::CrossingAlert { client_id: c, dest_authority_topic, neighbor_topic },
                ) && c == client_id && dest_authority_topic@ == topic_from_bytes(
                    shard_name(owner_shard_id),
                ) && neighbor_topic@ == topic_from_bytes(shard_name(neighbor_shard_id)),
                SpatialAction::SwitchAuthority { client_id, owner_shard_id, neighbor_shard_id } =>
                    m matches Some(
                    BrokerMessage::AuthoritySwitch { client_id: c, old_auth_topic, new_auth_topic },
                ) && c == client_id && old_auth_topic@ == topic_from_bytes(
                    shard_name(owner_shard_id),
                ) && new_auth_topic@ == topic_from_bytes(shard_name(neighbor_shard_id)),
                SpatialAction::CrossingExit { client_id, old_shard_id, owner_shard_id } =>
                    m matches Some(
                    BrokerMessage::CrossingExit { client_id: c, obsolete_auth_topic, new_auth_topic },
                ) && c == client_id && obsolete_auth_topic@ == topic_from_bytes(
                    shard_name(old_shard_id),
                ) && new_auth_topic@ == topic_from_bytes(shard_name(owner_shard_id)),
                SpatialAction::RequestSplit { .. } => m is None,
                SpatialAction::NewSpawnShard { .. } => m is None,
            },
    {
        match *self {
            SpatialAction::Subscribe { client_id, shard_id } => Some(
                BrokerMessage::Subscribe { client_id, topic: shard_topic(shard_id) },
            ),
            SpatialAction::Unsubscribe { client_id, shard_id } => Some(
                BrokerMessage::Unsubscribe { client_id, topic: shard_topic(shard_id) },
            ),
            SpatialAction::CrossingAlert { client_id, owner_shard_id, neighbor_shard_id } => Some(
                BrokerMessage::CrossingAlert {
                    client_id,
                    dest_authority_topic: shard_topic(owner_shard_id),
                    neighbor_topic: shard_topic(neighbor_shard_id),
                },
            ),
            SpatialAction::SwitchAuthority { client_id, owner_shard_id, neighbor_shard_id } => Some(
                BrokerMessage::AuthoritySwitch {
                    client_id,
                    old_auth_topic: shard_topic(owner_shard_id),
                    new_auth_topic: shard_topic(neighbor_shard_id),
                },
            ),
            SpatialAction::CrossingExit { client_id, old_shard_id, owner_shard_id } => Some(
                BrokerMessage::CrossingExit {
                    client_id,
                    obsolete_auth_topic: shard_topic(old_shard_id),
                    new_auth_topic: shard_topic(owner_shard_id),
                },
            ),
            SpatialAction::RequestSplit { .. } => None,
            SpatialAction::NewSpawnShard { .. } => None,
        }
    }

    /// The orchestrator message that carries the action: only a split request has one.
    pub fn to_orchestrator_message(&self) -> (m: Option<OrchestratorMessage>)
        ensures
            match *self {
                SpatialAction::RequestSplit { split } => m == Some(
                    OrchestratorMessage::RequestSplit { shard_id: split.parent_shard_id },
                ),
                _ => m is None,
            },
    {
        match *self {
            SpatialAction::RequestSplit { split } => Some(
                OrchestratorMessage::RequestSplit { shard_id: split.parent_shard_id },
            ),
            _ => None,
        }
    }
}

/// The stage of the three-step handoff a player goes through when a split
/// moves it to another shard.
#[derive(Debug, Clone, Copy, PartialEq, Eq, Structural)]
pub enum PlayerSplitState {
    EmitCrossingAlert,
    EmitSwitchAuthority,
    EmitCrossingExit,
}

/// A player being handed from `parent_shard_id` to `neighbor_shard_id`.
#[derive(Debug, Clone, Copy, PartialEq, Eq, Structural)]
pub struct PlayerState {
    pub client_id: u32,
    pub parent_shard_id: u32,
    pub neighbor_shard_id: u32,
    pub split_state: PlayerSplitState,
}

/// The state of the spatial server.
pub struct SpatialService {
    pub quad_tree: QuadTree,
    /// The shard that serves each client.
    pub client_shards: HashMap<u32, u32>,
    /// The shards each client was last seen near.
    pub client_crossing_state: HashMap<u32, Vec<u32>>,
    pub player_states: Vec<PlayerState>,
    pub spawn_shard_id: u32,
    pub spawn_point: Vec2,
}

/// The shards recorded near `client`, none when nothing is recorded.
pub open spec fn nearby_of(m: Map<u32, Seq<u32>>, client: u32) -> Seq<u32> {
    if m.contains_key(client) {
        m[client]
    } else {
        Seq::empty()
    }
}

/// A sequence in strictly increasing order.
pub open spec fn strictly_increasing(s: Seq<u32>) -> bool {
    forall|i: int, j: int| 0 <= i < j < s.len() ==> s[i] < s[j]
}

/// What a change of serving shard from `old_net` to `net` emits: nothing when
/// it is unchanged; a subscription for a new client; an authority switch when
/// the client was already near `net`; otherwise the whole alert, switch and
/// exit sequence.
pub open spec fn handoff_actions(client_id: u32, old_net: Option<u32>, nearby: Seq<u32>, net: u32) -> Seq<SpatialAction> {
    if old_net == Some(net) {
        Seq::empty()
    } else {
        match old_net {
            Some(old) => if nearby.contains(net) {
                seq![SpatialAction::SwitchAuthority { client_id, owner_shard_id: old, neighbor_shard_id: net }]
            } else {
                seq![
                    SpatialAction::CrossingAlert { client_id, owner_shard_id: old, neighbor_shard_id: net },
                    SpatialAction::SwitchAuthority { client_id, owner_shard_id: old, neighbor_shard_id: net },
                    SpatialAction::CrossingExit { client_id, old_shard_id: old, owner_shard_id: net },
                ]
            },
            None => seq![SpatialAction::Subscribe { client_id, shard_id: net }],
        }
    }
}

/// The spawn shard after an insertion: after a split, the shard now holding
/// the spawn point, when there is one.
pub open spec fn spawn_after(trigger: Option<SplitData>, spawn_shard: u32, lookup: Option<u32>) -> u32 {
    if trigger is Some && lookup is Some {
        lookup->0
    } else {
        spawn_shard
    }
}

/// What a split emits: the request to the orchestrator, then the new spawn
/// shard when it changed.
pub open spec fn split_actions(trigger: Option<SplitData>, spawn_shard: u32, lookup: Option<u32>) -> Seq<SpatialAction> {
    match trigger {
        Some(split) => seq![SpatialAction::RequestSplit { split }] + match lookup {
            Some(s) => if s != spawn_shard {
                seq![SpatialAction::NewSpawnShard { new_shard_id: s }]
            } else {
                Seq::empty()
            },
            None => Seq::empty(),
        },
        None => Seq::empty(),
    }
}

/// What a change of the shards near a client emits: an alert for each shard
/// that became near, then an exit for each shard that no longer is.
pub open spec fn border_actions(client_id: u32, net: u32, before: Seq<u32>, near: Seq<u32>) -> Seq<SpatialAction> {
    if near == before {
        Seq::empty()
    } else {
        added_ids(before, near).map_values(
            |n: u32| SpatialAction::CrossingAlert { client_id, owner_shard_id: net, neighbor_shard_id: n },
        ) + added_ids(near, before).map_values(
            |n: u32| SpatialAction::CrossingExit { client_id, old_shard_id: n, owner_shard_id: net },
        )
    }
}

/// `b` is `a` without one player with identifier `client_id` (when it had one).
pub open spec fn removed_player(a: QuadTree, b: QuadTree, client_id: u32) -> bool {
    &&& b.wf()
    &&& b.same_shape(a)
    &&& b.bounds == a.bounds
    &&& b.next_shard_id == a.next_shard_id
    &&& a.has_player(client_id) ==> exists|p: Vec2|
        a.players_ms().count((client_id, p)) > 0 && #[trigger] b.players_ms() == a.players_ms().remove((client_id, p))
    &&& !a.has_player(client_id) ==> b.players_ms() == a.players_ms()
}

/// The handoff of each `(client, new shard)` of `ups` away from `parent`:
/// alert, switch and exit, client after client.
pub open spec fn migration_actions(parent: u32, ups: Seq<(u32, u32)>) -> Seq<SpatialAction>
    decreases ups.len(),
{
    if ups.len() == 0 {
        Seq::empty()
    } else {
        let (c, n) = ups.last();
        migration_actions(parent, ups.drop_last()) + seq![
            SpatialAction::CrossingAlert { client_id: c, owner_shard_id: parent, neighbor_shard_id: n },
            SpatialAction::SwitchAuthority { client_id: c, owner_shard_id: parent, neighbor_shard_id: n },
            SpatialAction::CrossingExit { client_id: c, old_shard_id: parent, owner_shard_id: n },
        ]
    }
}

/// `m` with each client of `ups` served by its new shard, later entries last.
pub open spec fn assign_shards(m: Map<u32, u32>, ups: Seq<(u32, u32)>) -> Map<u32, u32>
    decreases ups.len(),
{
    if ups.len() == 0 {
        m
    } else {
        assign_shards(m, ups.drop_last()).insert(ups.last().0, ups.last().1)
    }
}

/// `m` with each client of `ups` near its new shard only.
pub open spec fn assign_nearby(m: Map<u32, Seq<u32>>, ups: Seq<(u32, u32)>) -> Map<u32, Seq<u32>>
    decreases ups.len(),
{
    if ups.len() == 0 {
        m
    } else {
        assign_nearby(m, ups.drop_last()).insert(ups.last().0, seq![ups.last().1])
    }
}

/// What a handoff stage emits.
pub open spec fn stage_action(p: PlayerState) -> SpatialAction {
    match p.split_state {
        PlayerSplitState::EmitCrossingAlert => SpatialAction::CrossingAlert {
            client_id: p.client_id,
            owner_shard_id: p.parent_shard_id,
            neighbor_shard_id: p.neighbor_shard_id,
        },
        PlayerSplitState::EmitSwitchAuthority => SpatialAction::SwitchAuthority {
            client_id: p.client_id,
            owner_shard_id: p.parent_shard_id,
            neighbor_shard_id: p.neighbor_shard_id,
        },
        PlayerSplitState::EmitCrossingExit => SpatialAction::CrossingExit {
            client_id: p.client_id,
            old_shard_id: p.parent_shard_id,
            owner_shard_id: p.neighbor_shard_id,
        },
    }
}

/// A handoff that has a stage left after the current one.
pub open spec fn has_next_stage(p: PlayerState) -> bool {
    p.split_state != PlayerSplitState::EmitCrossingExit
}

/// The handoff moved on to its next stage.
pub open spec fn advanced(p: PlayerState) -> PlayerState {
    PlayerState {
        split_state: match p.split_state {
            PlayerSplitState::EmitCrossingAlert => PlayerSplitState::EmitSwitchAuthority,
            _ => PlayerSplitState::EmitCrossingExit,
        },
        ..p
    }
}

impl SpatialService {
    /// The state invariant: a well-formed tree far enough from the ends of
    /// the coordinate range for the margin search.
    pub open spec fn wf(self) -> bool {
        &&& self.quad_tree.wf()
        &&& self.quad_tree.bounds.x >= i32::MIN + MARGIN
        &&& self.quad_tree.bounds.y >= i32::MIN + MARGIN
    }

    /// The near shards of each client, as sequences.
    pub open spec fn crossing_view(self) -> Map<u32, Seq<u32>> {
        self.client_crossing_state@.map_values(|v: Vec<u32>| v@)
    }
}

/// The effect of a position update, given the tree after the player's
/// removal (`mid`), the insertion result `r` and the sorted near shards `near`.
pub open spec fn position_update_with(
    old_s: SpatialService,
    new_s: SpatialService,
    client_id: u32,
    pos: Vec2,
    actions: Seq<SpatialAction>,
    mid: QuadTree,
    r: InsertResult,
    near: Seq<u32>,
) -> bool {
    &&& removed_player(old_s.quad_tree, mid, client_id)
    &&& new_s.spawn_point == old_s.spawn_point
    &&& new_s.player_states@ == old_s.player_states@
    &&& if !rect_contains(old_s.quad_tree.bounds, pos) {
        &&& new_s.quad_tree == mid
        &&& actions == Seq::<SpatialAction>::empty()
        &&& new_s.client_shards@ == old_s.client_shards@
        &&& new_s.crossing_view() == old_s.crossing_view()
        &&& new_s.spawn_shard_id == old_s.spawn_shard_id
    } else {
        let old_net = old_s.client_shards@.get(client_id);
        let net = r.network_shard_id;
        let cross1 = if old_net is None {
            old_s.crossing_view().insert(client_id, seq![net])
        } else {
            old_s.crossing_view()
        };
        let nearby1 = nearby_of(cross1, client_id);
        let lookup = new_s.quad_tree.shard_at(old_s.spawn_point);
        &&& insert_outcome(
            mid,
            new_s.quad_tree,
            client_id,
            pos,
            mid.next_shard_id,
            new_s.quad_tree.next_shard_id,
            r,
        )
        &&& strictly_increasing(near)
        &&& forall|id: u32|
            near.contains(id) <==> new_s.quad_tree.shards_meeting(search_square(pos, MARGIN)).contains(id)
        &&& actions == handoff_actions(client_id, old_net, nearby_of(old_s.crossing_view(), client_id), net)
            + split_actions(r.trigger_orchestrator, old_s.spawn_shard_id, lookup) + border_actions(
            client_id,
            net,
            nearby1,
            near,
        )
        &&& new_s.client_shards@ == if old_net == Some(net) {
            old_s.client_shards@
        } else {
            old_s.client_shards@.insert(client_id, net)
        }
        &&& new_s.crossing_view() == if near == nearby1 {
            cross1
        } else {
            cross1.insert(client_id, near)
        }
        &&& new_s.spawn_shard_id == spawn_after(r.trigger_orchestrator, old_s.spawn_shard_id, lookup)
    }
}

/// A position update inside the map leaves the client served by the shard
/// that served the leaf of its position when it was placed there, and near
/// exactly the shards whose regions meet the square of half-side `MARGIN`
/// around it, in increasing order, its own shard among them.
pub proof fn lemma_position_update_serving(
    old_s: SpatialService,
    new_s: SpatialService,
    client_id: u32,
    pos: Vec2,
    actions: Seq<SpatialAction>,
    mid: QuadTree,
    r: InsertResult,
    near: Seq<u32>,
)
    requires
        new_s.wf(),
        position_update_with(old_s, new_s, client_id, pos, actions, mid, r, near),
        rect_contains(old_s.quad_tree.bounds, pos),
    ensures
        new_s.client_shards@.get(client_id) == Some(mid.leaf_at(pos).network_shard()),
        new_s.crossing_view().contains_key(client_id),
        new_s.crossing_view()[client_id] == near,
        strictly_increasing(near),
        forall|id: u32|
            near.contains(id) <==> new_s.quad_tree.shards_meeting(search_square(pos, MARGIN)).contains(id),
        new_s.quad_tree.shard_at(pos) matches Some(own) && near.contains(own),
{
    let t = new_s.quad_tree;
    assert(rect_contains(t.bounds, pos));
    lemma_own_shard_is_near(t, pos, MARGIN);
    let own = t.shard_at(pos)->0;
    assert(near.contains(own));
    assert(near.len() > 0);
    let old_net = old_s.client_shards@.get(client_id);
    let cross1 = if old_net is None {
        old_s.crossing_view().insert(client_id, seq![r.network_shard_id])
    } else {
        old_s.crossing_view()
    };
    let nearby1 = nearby_of(cross1, client_id);
    if near == nearby1 {
        assert(cross1.contains_key(client_id));
    }
}

/// What a split and a change of near shards emit holds no authority switch,
/// and every alert or exit in it is owned by `net`.
proof fn lemma_split_border_events(
    trigger: Option<SplitData>,
    spawn_shard: u32,
    lookup: Option<u32>,
    client_id: u32,
    net: u32,
    before: Seq<u32>,
    near: Seq<u32>,
)
    ensures
        forall|i: int|
            0 <= i < (split_actions(trigger, spawn_shard, lookup) + border_actions(client_id, net, before, near)).len()
                ==> match #[trigger] (split_actions(trigger, spawn_shard, lookup) + border_actions(
                client_id,
                net,
                before,
                near,
            ))[i] {
                SpatialAction::SwitchAuthority { .. } => false,
                SpatialAction::CrossingAlert { client_id: c, owner_shard_id: o, .. } => c == client_id && o == net,
                SpatialAction::CrossingExit { client_id: c, owner_shard_id: o, .. } => c == client_id && o == net,
                SpatialAction::Subscribe { .. } => false,
                SpatialAction::Unsubscribe { .. } => false,
                _ => true,
            },
{
    let sa = split_actions(trigger, spawn_shard, lookup);
    let ba = border_actions(client_id, net, before, near);
    assert forall|i: int| 0 <= i < (sa + ba).len() implies match #[trigger] (sa + ba)[i] {
        SpatialAction::SwitchAuthority { .. } => false,
        SpatialAction::CrossingAlert { client_id: c, owner_shard_id: o, .. } => c == client_id && o == net,
        SpatialAction::CrossingExit { client_id: c, owner_shard_id: o, .. } => c == client_id && o == net,
        SpatialAction::Subscribe { .. } => false,
        SpatialAction::Unsubscribe { .. } => false,
        _ => true,
    } by {
        if i < sa.len() {
            assert((sa + ba)[i] == sa[i]);
        } else {
            let j = i - sa.len();
            assert((sa + ba)[i] == ba[j]);
            if near != before {
                let al = added_ids(before, near).map_values(
                    |n: u32| SpatialAction::CrossingAlert { client_id, owner_shard_id: net, neighbor_shard_id: n },
                );
                let ex = added_ids(near, before).map_values(
                    |n: u32| SpatialAction::CrossingExit { client_id, old_shard_id: n, owner_shard_id: net },
                );
                assert(ba == al + ex);
                if j < al.len() {
                    assert(ba[j] == al[j]);
                } else {
                    assert(ba[j] == ex[j - al.len()]);
                }
            }
        }
    }
}

/// How the actions of a position update inside the map begin, for the
/// client's serving shard `o` before and `n` after: a new client is first
/// subscribed to `n`; a client whose shard changed to a shard it was already
/// near is first switched from `o` to `n`; one whose shard changed to a shard
/// it was not near is first alerted of `n` while owned by `o`, then switched
/// from `o` to `n`, then leaves `o` for `n`.
pub open spec fn handoff_prefix(
    old_s: SpatialService,
    new_s: SpatialService,
    client_id: u32,
    actions: Seq<SpatialAction>,
) -> bool {
    new_s.client_shards@.get(client_id) matches Some(n) && match old_s.client_shards@.get(client_id) {
        None => actions.len() >= 1 && actions[0] == SpatialAction::Subscribe { client_id, shard_id: n },
        Some(o) => o != n ==> if old_s.crossing_view().contains_key(client_id) && old_s.crossing_view()[client_id].contains(n) {
            actions.len() >= 1 && actions[0] == SpatialAction::SwitchAuthority {
                client_id,
                owner_shard_id: o,
                neighbor_shard_id: n,
            }
        } else {
            &&& actions.len() >= 3
            &&& actions[0] == SpatialAction::CrossingAlert { client_id, owner_shard_id: o, neighbor_shard_id: n }
            &&& actions[1] == SpatialAction::SwitchAuthority { client_id, owner_shard_id: o, neighbor_shard_id: n }
            &&& actions[2] == SpatialAction::CrossingExit { client_id, old_shard_id: o, owner_shard_id: n }
        },
    }
}

/// The direction of a handoff on a position update: every authority switch
/// emitted names the client, as owner the shard that served it before the
/// update and as neighbour the different shard that serves it after; when
/// the serving shard changes, such a switch is emitted; every exit names the
/// shard that serves the client after the update as its owner; every alert
/// is either that of the switch (owner before, neighbour after) or owned by
/// the shard that serves the client after.
pub proof fn lemma_position_update_handoff_direction(
    old_s: SpatialService,
    new_s: SpatialService,
    client_id: u32,
    pos: Vec2,
    actions: Seq<SpatialAction>,
    mid: QuadTree,
    r: InsertResult,
    near: Seq<u32>,
)
    requires
        position_update_with(old_s, new_s, client_id, pos, actions, mid, r, near),
    ensures
        forall|i: int|
            0 <= i < actions.len() ==> match #[trigger] actions[i] {
                SpatialAction::SwitchAuthority { client_id: c, owner_shard_id: o, neighbor_shard_id: n } => {
                    &&& c == client_id
                    &&& old_s.client_shards@.get(client_id) == Some(o)
                    &&& new_s.client_shards@.get(client_id) == Some(n)
                    &&& o != n
                },
                SpatialAction::CrossingExit { client_id: c, owner_shard_id: o, .. } => c == client_id
                    && new_s.client_shards@.get(client_id) == Some(o),
                SpatialAction::CrossingAlert { client_id: c, owner_shard_id: o, neighbor_shard_id: n } => c
                    == client_id && (new_s.client_shards@.get(client_id) == Some(o) || (old_s.client_shards@.get(
                    client_id,
                ) == Some(o) && new_s.client_shards@.get(client_id) == Some(n) && o != n)),
                _ => true,
            },
        old_s.client_shards@.get(client_id) matches Some(o) ==> (new_s.client_shards@.get(client_id) matches Some(
            n,
        ) ==> (o != n ==> actions.contains(
            SpatialAction::SwitchAuthority { client_id, owner_shard_id: o, neighbor_shard_id: n },
        ))),
        rect_contains(old_s.quad_tree.bounds, pos) ==> handoff_prefix(old_s, new_s, client_id, actions),
{
    if rect_contains(old_s.quad_tree.bounds, pos) {
        let old_net = old_s.client_shards@.get(client_id);
        let net = r.network_shard_id;
        let cross1 = if old_net is None {
            old_s.crossing_view().insert(client_id, seq![net])
        } else {
            old_s.crossing_view()
        };
        let nearby1 = nearby_of(cross1, client_id);
        let lookup = new_s.quad_tree.shard_at(old_s.spawn_point);
        let ha = handoff_actions(client_id, old_net, nearby_of(old_s.crossing_view(), client_id), net);
        let rest = split_actions(r.trigger_orchestrator, old_s.spawn_shard_id, lookup) + border_actions(
            client_id,
            net,
            nearby1,
            near,
        );
        lemma_split_border_events(r.trigger_orchestrator, old_s.spawn_shard_id, lookup, client_id, net, nearby1, near);
        assert(actions =~= ha + rest);
        assert(new_s.client_shards@.get(client_id) == Some(net));
        assert forall|i: int| 0 <= i < actions.len() implies match #[trigger] actions[i] {
            SpatialAction::SwitchAuthority { client_id: c, owner_shard_id: o, neighbor_shard_id: n } => {
                &&& c == client_id
                &&& old_s.client_shards@.get(client_id) == Some(o)
                &&& new_s.client_shards@.get(client_id) == Some(n)
                &&& o != n
            },
            SpatialAction::CrossingExit { client_id: c, owner_shard_id: o, .. } => c == client_id
                && new_s.client_shards@.get(client_id) == Some(o),
            SpatialAction::CrossingAlert { client_id: c, owner_shard_id: o, neighbor_shard_id: n } => c == client_id
                && (new_s.client_shards@.get(client_id) == Some(o) || (old_s.client_shards@.get(client_id) == Some(o)
                && new_s.client_shards@.get(client_id) == Some(n) && o != n)),
            _ => true,
        } by {
            if i < ha.len() {
                assert(actions[i] == ha[i]);
            } else {
                assert(actions[i] == rest[i - ha.len()]);
            }
        }
        assert(actions.take(ha.len() as int) =~= ha);
        if let Some(o) = old_net {
            if o != net {
                let sw = SpatialAction::SwitchAuthority { client_id, owner_shard_id: o, neighbor_shard_id: net };
                if nearby_of(old_s.crossing_view(), client_id).contains(net) {
                    assert(actions[0] == sw);
                } else {
                    assert(actions[1] == sw);
                }
            }
        }
    }
}

/// The events of a hand-over from `f` to `target`: every alert, switch and
/// exit moves one of the clients of `ups` from `f` to `target` (never the
/// other way), each such client ends served by `target`, and each client of
/// `ups` gets its exit from `f` to `target`.
pub proof fn lemma_migration_direction(f: u32, target: u32, ups: Seq<(u32, u32)>, m: Map<u32, u32>)
    requires
        forall|k: int| 0 <= k < ups.len() ==> (#[trigger] ups[k]).1 == target,
    ensures
        forall|i: int|
            0 <= i < migration_actions(f, ups).len() ==> match #[trigger] migration_actions(f, ups)[i] {
                SpatialAction::CrossingAlert { client_id: c, owner_shard_id: o, neighbor_shard_id: n } => o == f && n
                    == target && assign_shards(m, ups).get(c) == Some(target),
                SpatialAction::SwitchAuthority { client_id: c, owner_shard_id: o, neighbor_shard_id: n } => o == f
                    && n == target && assign_shards(m, ups).get(c) == Some(target),
                SpatialAction::CrossingExit { client_id: c, old_shard_id: o, owner_shard_id: n } => o == f && n
                    == target && assign_shards(m, ups).get(c) == Some(target),
                _ => false,
            },
        forall|k: int|
            0 <= k < ups.len() ==> migration_actions(f, ups).contains(
                SpatialAction::CrossingExit { client_id: (#[trigger] ups[k]).0, old_shard_id: f, owner_shard_id: target },
            ),
    decreases ups.len(),
{
    if ups.len() > 0 {
        let p = ups.drop_last();
        assert forall|k: int| 0 <= k < p.len() implies (#[trigger] p[k]).1 == target by {
            assert(p[k] == ups[k]);
        }
        lemma_migration_direction(f, target, p, m);
        let prev = migration_actions(f, p);
        let (c, n) = ups.last();
        let tail = seq![
            SpatialAction::CrossingAlert { client_id: c, owner_shard_id: f, neighbor_shard_id: n },
            SpatialAction::SwitchAuthority { client_id: c, owner_shard_id: f, neighbor_shard_id: n },
            SpatialAction::CrossingExit { client_id: c, old_shard_id: f, owner_shard_id: n },
        ];
        let all = migration_actions(f, ups);
        assert(all == prev + tail);
        assert(n == target) by {
            assert(ups[ups.len() - 1].1 == target);
        }
        assert forall|i: int| 0 <= i < all.len() implies match #[trigger] all[i] {
            SpatialAction::CrossingAlert { client_id: c, owner_shard_id: o, neighbor_shard_id: n } => o == f && n
                == target && assign_shards(m, ups).get(c) == Some(target),
            SpatialAction::SwitchAuthority { client_id: c, owner_shard_id: o, neighbor_shard_id: n } => o == f && n
                == target && assign_shards(m, ups).get(c) == Some(target),
            SpatialAction::CrossingExit { client_id: c, old_shard_id: o, owner_shard_id: n } => o == f && n == target
                && assign_shards(m, ups).get(c) == Some(target),
            _ => false,
        } by {
            if i < prev.len() {
                assert(all[i] == prev[i]);
            } else {
                assert(all[i] == tail[i - prev.len()]);
            }
        }
        assert forall|k: int| 0 <= k < ups.len() implies all.contains(
            SpatialAction::CrossingExit { client_id: (#[trigger] ups[k]).0, old_shard_id: f, owner_shard_id: target },
        ) by {
            if k < p.len() {
                assert(ups[k] == p[k]);
                let e = SpatialAction::CrossingExit { client_id: p[k].0, old_shard_id: f, owner_shard_id: target };
                let j = choose|j: int| 0 <= j < prev.len() && prev[j] == e;
                assert(all[j] == e);
            } else {
                assert(all[prev.len() as int + 2] == tail[2]);
            }
        }
    }
}

impl SpatialService {
    /// A service over the whole map, served by shard 0, with the spawn point
    /// at (`SPAWN_X`, `SPAWN_Y`) and nothing known of any client.
    pub fn new() -> (s: Self)
        ensures
            s.wf(),
            s.quad_tree.bounds == (Rect { x: MAP_BOUND_MIN, y: MAP_BOUND_MIN, width: MAP_SIZE, height: MAP_SIZE }),
            s.quad_tree.depth == 0,
            s.quad_tree.max_depth == 1,
            s.quad_tree.max_players_per_shard == 2,
            s.quad_tree.children is None,
            s.quad_tree.shard_id == Some(0u32),
            s.quad_tree.status == ShardStatus::Active,
            s.quad_tree.players@.len() == 0,
            s.client_shards@ == Map::<u32, u32>::empty(),
            s.crossing_view() == Map::<u32, Seq<u32>>::empty(),
            s.player_states@.len() == 0,
            s.spawn_shard_id == 0,
            s.spawn_point == (Vec2 { x: SPAWN_X, y: SPAWN_Y }),
    {
        let bounds = Rect { x: MAP_BOUND_MIN, y: MAP_BOUND_MIN, width: MAP_SIZE, height: MAP_SIZE };
        let s = SpatialService {
            quad_tree: QuadTree::new(bounds, 0, 1, 2, 0),
            client_shards: HashMap::new(),
            client_crossing_state: HashMap::new(),
            player_states: Vec::new(),
            spawn_shard_id: 0,
            spawn_point: Vec2 { x: SPAWN_X, y: SPAWN_Y },
        };
        assert(s.crossing_view() =~= Map::<u32, Seq<u32>>::empty());
        s
    }

    /// A copy of the shards recorded near `client_id`, empty when none are.
    fn nearby_copy(&self, client_id: u32) -> (v: Vec<u32>)
        ensures
            v@ == nearby_of(self.crossing_view(), client_id),
    {
        broadcast use vstd::std_specs::hash::group_hash_axioms;
        match self.client_crossing_state.get(&client_id) {
            Some(v) => copy_ids(v.as_slice()),
            None => Vec::new(),
        }
    }

    /// Records `near` as the shards near `client_id`.
    fn set_nearby(&mut self, client_id: u32, near: Vec<u32>)
        ensures
            final(self).crossing_view() == old(self).crossing_view().insert(client_id, near@),
            final(self).client_shards == old(self).client_shards,
            final(self).quad_tree == old(self).quad_tree,
            final(self).player_states == old(self).player_states,
            final(self).spawn_shard_id == old(self).spawn_shard_id,
            final(self).spawn_point == old(self).spawn_point,
    {
        broadcast use vstd::std_specs::hash::group_hash_axioms;
        let ghost v0 = near@;
        self.client_crossing_state.insert(client_id, near);
        assert(self.crossing_view() =~= old(self).crossing_view().insert(client_id, v0));
    }

    /// Records a change of serving shard and appends what it emits.
    fn handoff_step(&mut self, client_id: u32, old_net: Option<u32>, net: u32, actions: &mut Vec<SpatialAction>)
        ensures
            final(actions)@ == old(actions)@ + handoff_actions(
                client_id,
                old_net,
                nearby_of(old(self).crossing_view(), client_id),
                net,
            ),
            final(self).client_shards@ == if old_net == Some(net) {
                old(self).client_shards@
            } else {
                old(self).client_shards@.insert(client_id, net)
            },
            final(self).crossing_view() == if old_net is None {
                old(self).crossing_view().insert(client_id, seq![net])
            } else {
                old(self).crossing_view()
            },
            final(self).quad_tree == old(self).quad_tree,
            final(self).player_states == old(self).player_states,
            final(self).spawn_shard_id == old(self).spawn_shard_id,
            final(self).spawn_point == old(self).spawn_point,
    {
        broadcast use vstd::std_specs::hash::group_hash_axioms;
        let changed = match old_net {
            Some(o) => o != net,
            None => true,
        };
        if changed {
            match old_net {
                Some(old_shard) => {
                    let old_nearby = self.nearby_copy(client_id);
                    if contains_id(old_nearby.as_slice(), net) {
                        actions.push(
                            SpatialAction::SwitchAuthority { client_id, owner_shard_id: old_shard, neighbor_shard_id: net },
                        );
                    } else {
                        actions.push(
                            SpatialAction::CrossingAlert { client_id, owner_shard_id: old_shard, neighbor_shard_id: net },
                        );
                        actions.push(
                            SpatialAction::SwitchAuthority { client_id, owner_shard_id: old_shard, neighbor_shard_id: net },
                        );
                        actions.push(
                            SpatialAction::CrossingExit { client_id, old_shard_id: old_shard, owner_shard_id: net },
                        );
                    }
                },
                None => {
                    actions.push(SpatialAction::Subscribe { client_id, shard_id: net });
                    let mut first: Vec<u32> = Vec::new();
                    first.push(net);
                    assert(first@ =~= seq![net]);
                    self.set_nearby(client_id, first);
                },
            }
            self.client_shards.insert(client_id, net);
        }
        assert(actions@ =~= old(actions)@ + handoff_actions(
            client_id,
            old_net,
            nearby_of(old(self).crossing_view(), client_id),
            net,
        ));
    }

    /// After an insertion that may have split a shard: appends the split
    /// request and, when the spawn point changed shard, the new spawn shard.
    fn split_step(&mut self, trigger: Option<SplitData>, actions: &mut Vec<SpatialAction>)
        requires
            old(self).quad_tree.wf(),
        ensures
            final(actions)@ == old(actions)@ + split_actions(
                trigger,
                old(self).spawn_shard_id,
                old(self).quad_tree.shard_at(old(self).spawn_point),
            ),
            final(self).spawn_shard_id == spawn_after(
                trigger,
                old(self).spawn_shard_id,
                old(self).quad_tree.shard_at(old(self).spawn_point),
            ),
            final(self).quad_tree == old(self).quad_tree,
            final(self).client_shards == old(self).client_shards,
            final(self).client_crossing_state == old(self).client_crossing_state,
            final(self).player_states == old(self).player_states,
            final(self).spawn_point == old(self).spawn_point,
    {
        match trigger {
            Some(split) => {
                actions.push(SpatialAction::RequestSplit { split });
                let lookup = self.quad_tree.shard_for(&self.spawn_point);
                match lookup {
                    Some(new_spawn) => {
                        if new_spawn != self.spawn_shard_id {
                            self.spawn_shard_id = new_spawn;
                            actions.push(SpatialAction::NewSpawnShard { new_shard_id: new_spawn });
                        }
                    },
                    None => {},
                }
            },
            None => {},
        }
        assert(actions@ =~= old(actions)@ + split_actions(
            trigger,
            old(self).spawn_shard_id,
            old(self).quad_tree.shard_at(old(self).spawn_point),
        ));
    }

    /// Compares the shards now near a client with those recorded, appends an
    /// alert for each new one and an exit for each one gone, and records the
    /// new list when it differs.
    fn border_step(&mut self, client_id: u32, net: u32, near: Vec<u32>, actions: &mut Vec<SpatialAction>)
        ensures
            final(actions)@ == old(actions)@ + border_actions(
                client_id,
                net,
                nearby_of(old(self).crossing_view(), client_id),
                near@,
            ),
            final(self).crossing_view() == if near@ == nearby_of(old(self).crossing_view(), client_id) {
                old(self).crossing_view()
            } else {
                old(self).crossing_view().insert(client_id, near@)
            },
            final(self).quad_tree == old(self).quad_tree,
            final(self).client_shards == old(self).client_shards,
            final(self).player_states == old(self).player_states,
            final(self).spawn_shard_id == old(self).spawn_shard_id,
            final(self).spawn_point == old(self).spawn_point,
    {
        let old_nearby = self.nearby_copy(client_id);
        if !same_ids(near.as_slice(), old_nearby.as_slice()) {
            let added = get_added_ids(old_nearby.as_slice(), near.as_slice());
            let removed = get_removed_ids(old_nearby.as_slice(), near.as_slice());
            let ghost before = actions@;
            let mut i: usize = 0;
            while i < added.len()
                invariant
                    i <= added@.len(),
                    actions@ == before + added@.take(i as int).map_values(
                        |n: u32| SpatialAction::CrossingAlert { client_id, owner_shard_id: net, neighbor_shard_id: n },
                    ),
                decreases added@.len() - i,
            {
                actions.push(
                    SpatialAction::CrossingAlert { client_id, owner_shard_id: net, neighbor_shard_id: added[i] },
                );
                assert(added@.take(i as int + 1) =~= added@.take(i as int).push(added@[i as int]));
                assert(added@.take(i as int + 1).map_values(
                    |n: u32| SpatialAction::CrossingAlert { client_id, owner_shard_id: net, neighbor_shard_id: n },
                ) =~= added@.take(i as int).map_values(
                    |n: u32| SpatialAction::CrossingAlert { client_id, owner_shard_id: net, neighbor_shard_id: n },
                ).push(SpatialAction::CrossingAlert { client_id, owner_shard_id: net, neighbor_shard_id: added@[i as int] }));
                i = i + 1;
            }
            assert(added@.take(added@.len() as int) =~= added@);
            let ghost after_added = actions@;
            let mut j: usize = 0;
            while j < removed.len()
                invariant
                    j <= removed@.len(),
                    actions@ == after_added + removed@.take(j as int).map_values(
                        |n: u32| SpatialAction::CrossingExit { client_id, old_shard_id: n, owner_shard_id: net },
                    ),
                decreases removed@.len() - j,
            {
                actions.push(
                    SpatialAction::CrossingExit { client_id, old_shard_id: removed[j], owner_shard_id: net },
                );
                assert(removed@.take(j as int + 1) =~= removed@.take(j as int).push(removed@[j as int]));
                assert(removed@.take(j as int + 1).map_values(
                    |n: u32| SpatialAction::CrossingExit { client_id, old_shard_id: n, owner_shard_id: net },
                ) =~= removed@.take(j as int).map_values(
                    |n: u32| SpatialAction::CrossingExit { client_id, old_shard_id: n, owner_shard_id: net },
                ).push(SpatialAction::CrossingExit { client_id, old_shard_id: removed@[j as int], owner_shard_id: net }));
                j = j + 1;
            }
            assert(removed@.take(removed@.len() as int) =~= removed@);
            assert(actions@ =~= old(actions)@ + border_actions(
                client_id,
                net,
                nearby_of(old(self).crossing_view(), client_id),
                near@,
            ));
            self.set_nearby(client_id, near);
        } else {
            assert(actions@ =~= old(actions)@ + border_actions(
                client_id,
                net,
                nearby_of(old(self).crossing_view(), client_id),
                near@,
            ));
        }
    }

    /// Handles a new position of a client: moves it in the tree, then
    /// returns, in order, what must be sent: the change of serving shard
    /// (subscription of a new client, or handoff), the split request and new
    /// spawn shard when the insertion split a shard, and the alerts and exits
    /// for the shards that came near or went out of reach. A position outside
    /// the map only removes the client from the tree.
    pub fn handle_position_update(&mut self, client_id: u32, pos: Vec2) -> (actions: Vec<SpatialAction>)
        requires
            old(self).wf(),
        ensures
            final(self).wf(),
            exists|mid: QuadTree, r: InsertResult, near: Seq<u32>|
                #[trigger] position_update_with(*old(self), *final(self), client_id, pos, actions@, mid, r, near),
            rect_contains(old(self).quad_tree.bounds, pos) ==> {
                &&& final(self).client_shards@.contains_key(client_id)
                &&& final(self).crossing_view().contains_key(client_id)
                &&& strictly_increasing(final(self).crossing_view()[client_id])
                &&& forall|id: u32|
                    final(self).crossing_view()[client_id].contains(id)
                        <==> final(self).quad_tree.shards_meeting(search_square(pos, MARGIN)).contains(id)
            },
            forall|i: int|
                0 <= i < actions@.len() ==> match #[trigger] actions@[i] {
                    SpatialAction::SwitchAuthority { client_id: c, owner_shard_id: o, neighbor_shard_id: n } => {
                        &&& c == client_id
                        &&& old(self).client_shards@.get(client_id) == Some(o)
                        &&& final(self).client_shards@.get(client_id) == Some(n)
                        &&& o != n
                    },
                    SpatialAction::CrossingExit { client_id: c, owner_shard_id: o, .. } => c == client_id
                        && final(self).client_shards@.get(client_id) == Some(o),
                    _ => true,
                },
            old(self).client_shards@.get(client_id) matches Some(o) ==> (final(self).client_shards@.get(
                client_id,
            ) matches Some(n) ==> (o != n ==> actions@.contains(
                SpatialAction::SwitchAuthority { client_id, owner_shard_id: o, neighbor_shard_id: n },
            ))),
            rect_contains(old(self).quad_tree.bounds, pos) ==> handoff_prefix(*old(self), *final(self), client_id, actions@),
    {
        broadcast use vstd::std_specs::hash::group_hash_axioms;
        let old_network_shard: Option<u32> = match self.client_shards.get(&client_id) {
            Some(s) => Some(*s),
            None => None,
        };
        assert(old_network_shard == old(self).client_shards@.get(client_id));
        self.quad_tree.remove_player(client_id);
        let ghost mid = self.quad_tree;
        let mut actions: Vec<SpatialAction> = Vec::new();
        let inserted = self.quad_tree.insert_player(client_id, pos);
        match inserted {
            None => {
                let ghost r = InsertResult { logical_shard_id: 0, network_shard_id: 0, trigger_orchestrator: None };
                assert(self.crossing_view() == old(self).crossing_view());
                assert(position_update_with(*old(self), *self, client_id, pos, actions@, mid, r, Seq::empty()));
                proof {
                    lemma_position_update_handoff_direction(*old(self), *self, client_id, pos, actions@, mid, r, Seq::empty());
                }
                actions
            },
            Some(result) => {
                let net = result.network_shard_id;
                self.handoff_step(client_id, old_network_shard, net, &mut actions);
                self.split_step(result.trigger_orchestrator, &mut actions);
                let shards_near = self.quad_tree.shards_near(&pos, MARGIN);
                let ghost near = shards_near@;
                self.border_step(client_id, net, shards_near, &mut actions);
                assert(position_update_with(*old(self), *self, client_id, pos, actions@, mid, result, near));
                proof {
                    lemma_position_update_serving(*old(self), *self, client_id, pos, actions@, mid, result, near);
                    lemma_position_update_handoff_direction(*old(self), *self, client_id, pos, actions@, mid, result, near);
                }
                actions
            },
        }
    }

    /// Activates the pending shard `ready_child_shard_id` once its server is
    /// up, and hands each of its players over from the shard that served them
    /// meanwhile. Nothing changes, and nothing is emitted, when no pending
    /// shard has that identifier.
    pub fn handle_shard_ready(&mut self, ready_child_shard_id: u32) -> (actions: Vec<SpatialAction>)
        requires
            old(self).wf(),
        ensures
            final(self).wf(),
            old(self).quad_tree.committed(final(self).quad_tree, ready_child_shard_id),
            final(self).quad_tree.players_ms() == old(self).quad_tree.players_ms(),
            forall|p: Vec2| #[trigger] final(self).quad_tree.shard_at(p) == old(self).quad_tree.shard_at(p),
            match old(self).quad_tree.commit_result(ready_child_shard_id) {
                Some((parent, ups)) => {
                    &&& actions@ == migration_actions(parent, ups)
                    &&& final(self).client_shards@ == assign_shards(old(self).client_shards@, ups)
                    &&& final(self).crossing_view() == assign_nearby(old(self).crossing_view(), ups)
                },
                None => {
                    &&& actions@.len() == 0
                    &&& final(self).client_shards@ == old(self).client_shards@
                    &&& final(self).crossing_view() == old(self).crossing_view()
                },
            },
            final(self).player_states == old(self).player_states,
            final(self).spawn_shard_id == old(self).spawn_shard_id,
            final(self).spawn_point == old(self).spawn_point,
            forall|i: int|
                0 <= i < actions@.len() ==> match #[trigger] actions@[i] {
                    SpatialAction::CrossingAlert { client_id: c, owner_shard_id: o, neighbor_shard_id: n } => {
                        &&& old(self).quad_tree.commit_result(ready_child_shard_id) matches Some((f, _)) && o == f
                        &&& n == ready_child_shard_id
                        &&& final(self).client_shards@.get(c) == Some(ready_child_shard_id)
                    },
                    SpatialAction::SwitchAuthority { client_id: c, owner_shard_id: o, neighbor_shard_id: n } => {
                        &&& old(self).quad_tree.commit_result(ready_child_shard_id) matches Some((f, _)) && o == f
                        &&& n == ready_child_shard_id
                        &&& final(self).client_shards@.get(c) == Some(ready_child_shard_id)
                    },
                    SpatialAction::CrossingExit { client_id: c, old_shard_id: o, owner_shard_id: n } => {
                        &&& old(self).quad_tree.commit_result(ready_child_shard_id) matches Some((f, _)) && o == f
                        &&& n == ready_child_shard_id
                        &&& final(self).client_shards@.get(c) == Some(ready_child_shard_id)
                    },
                    _ => false,
                },
            old(self).quad_tree.commit_result(ready_child_shard_id) matches Some((f, ups)) ==> forall|k: int|
                0 <= k < ups.len() ==> actions@.contains(
                    SpatialAction::CrossingExit {
                        client_id: (#[trigger] ups[k]).0,
                        old_shard_id: f,
                        owner_shard_id: ready_child_shard_id,
                    },
                ),
    {
        proof {
            lemma_commit_result_pairs(old(self).quad_tree, ready_child_shard_id);
            if let Some((f, ups)) = old(self).quad_tree.commit_result(ready_child_shard_id) {
                lemma_migration_direction(f, ready_child_shard_id, ups, old(self).client_shards@);
            }
        }
        broadcast use vstd::std_specs::hash::group_hash_axioms;
        let mut actions: Vec<SpatialAction> = Vec::new();
        let committed = self.quad_tree.commit_child_split(ready_child_shard_id);
        let ghost tree1 = self.quad_tree;
        match committed {
            Some((parent, updates)) => {
                let ghost ups = updates@;
                let ghost shards0 = self.client_shards@;
                let ghost cross0 = self.crossing_view();
                let mut k: usize = 0;
                while k < updates.len()
                    invariant
                        k <= ups.len(),
                        ups == updates@,
                        self.quad_tree.wf(),
                        self.quad_tree.bounds == old(self).quad_tree.bounds,
                        self.quad_tree == tree1,
                        actions@ == migration_actions(parent, ups.take(k as int)),
                        self.client_shards@ == assign_shards(shards0, ups.take(k as int)),
                        self.crossing_view() == assign_nearby(cross0, ups.take(k as int)),
                        self.player_states == old(self).player_states,
                        self.spawn_shard_id == old(self).spawn_shard_id,
                        self.spawn_point == old(self).spawn_point,
                    decreases ups.len() - k,
                {
                    let (client, shard) = updates[k];
                    actions.push(
                        SpatialAction::CrossingAlert { client_id: client, owner_shard_id: parent, neighbor_shard_id: shard },
                    );
                    actions.push(
                        SpatialAction::SwitchAuthority { client_id: client, owner_shard_id: parent, neighbor_shard_id: shard },
                    );
                    actions.push(
                        SpatialAction::CrossingExit { client_id: client, old_shard_id: parent, owner_shard_id: shard },
                    );
                    self.client_shards.insert(client, shard);
                    let mut only: Vec<u32> = Vec::new();
                    only.push(shard);
                    assert(only@ =~= seq![shard]);
                    self.set_nearby(client, only);
                    proof {
                        assert(ups.take(k as int + 1).drop_last() =~= ups.take(k as int));
                        assert(ups.take(k as int + 1).last() == ups[k as int]);
                    }
                    k = k + 1;
                }
                assert(ups.take(ups.len() as int) =~= ups);
                actions
            },
            None => actions,
        }
    }

    /// Runs one stage of every handoff in progress: emits the stage's message,
    /// moves each handoff to its next stage, and drops those that emitted
    /// their exit.
    pub fn process_player_states(&mut self) -> (actions: Vec<SpatialAction>)
        ensures
            actions@ == old(self).player_states@.map_values(|p: PlayerState| stage_action(p)),
            final(self).player_states@ == old(self).player_states@.filter(|p: PlayerState| has_next_stage(p)).map_values(
                |p: PlayerState| advanced(p),
            ),
            final(self).quad_tree == old(self).quad_tree,
            final(self).client_shards == old(self).client_shards,
            final(self).client_crossing_state == old(self).client_crossing_state,
            final(self).spawn_shard_id == old(self).spawn_shard_id,
            final(self).spawn_point == old(self).spawn_point,
    {
        let ghost ps = self.player_states@;
        let mut actions: Vec<SpatialAction> = Vec::new();
        let mut kept: Vec<PlayerState> = Vec::new();
        let mut i: usize = 0;
        while i < self.player_states.len()
            invariant
                i <= ps.len(),
                self.player_states@ == ps,
                actions@ == ps.take(i as int).map_values(|p: PlayerState| stage_action(p)),
                kept@ == ps.take(i as int).filter(|p: PlayerState| has_next_stage(p)).map_values(
                    |p: PlayerState| advanced(p),
                ),
            decreases ps.len() - i,
        {
            let p = self.player_states[i];
            let ghost t0 = ps.take(i as int);
            let ghost t1 = ps.take(i as int + 1);
            proof {
                reveal_with_fuel(Seq::filter, 1);
                assert(t1.drop_last() =~= t0);
                assert(t1 =~= t0.push(p));
            }
            match p.split_state {
                PlayerSplitState::EmitCrossingAlert => {
                    actions.push(
                        SpatialAction::CrossingAlert {
                            client_id: p.client_id,
                            owner_shard_id: p.parent_shard_id,
                            neighbor_shard_id: p.neighbor_shard_id,
                        },
                    );
                    kept.push(PlayerState { split_state: PlayerSplitState::EmitSwitchAuthority, ..p });
                },
                PlayerSplitState::EmitSwitchAuthority => {
                    actions.push(
                        SpatialAction::SwitchAuthority {
                            client_id: p.client_id,
                            owner_shard_id: p.parent_shard_id,
                            neighbor_shard_id: p.neighbor_shard_id,
                        },
                    );
                    kept.push(PlayerState { split_state: PlayerSplitState::EmitCrossingExit, ..p });
                },
                PlayerSplitState::EmitCrossingExit => {
                    actions.push(
                        SpatialAction::CrossingExit {
                            client_id: p.client_id,
                            old_shard_id: p.parent_shard_id,
                            owner_shard_id: p.neighbor_shard_id,
                        },
                    );
                },
            }
            proof {
                assert(actions@ =~= t1.map_values(|p: PlayerState| stage_action(p)));
                assert(kept@ =~= t1.filter(|p: PlayerState| has_next_stage(p)).map_values(
                    |p: PlayerState| advanced(p),
                ));
            }
            i = i + 1;
        }
        assert(ps.take(ps.len() as int) =~= ps);
        self.player_states = kept;
        actions
    }

    /// Forgets a client that left: removes it from the tree and drops what is
    /// recorded of it.
    pub fn handle_player_disconnected(&mut self, client_id: u32)
        requires
            old(self).wf(),
        ensures
            final(self).wf(),
            removed_player(old(self).quad_tree, final(self).quad_tree, client_id),
            final(self).client_shards@ == old(self).client_shards@.remove(client_id),
            final(self).crossing_view() == old(self).crossing_view().remove(client_id),
            final(self).player_states@ == old(self).player_states@,
            final(self).spawn_shard_id == old(self).spawn_shard_id,
            final(self).spawn_point == old(self).spawn_point,
    {
        broadcast use vstd::std_specs::hash::group_hash_axioms;
        self.quad_tree.remove_player(client_id);
        self.client_shards.remove(&client_id);
        self.client_crossing_state.remove(&client_id);
        assert(self.crossing_view() =~= old(self).crossing_view().remove(client_id));
    }
}

/// What the spatial server knows of its connection to a peer (the broker or
/// the orchestrator): the connection, by its identifier, its reliable and
/// unreliable streams, by theirs, and the bytes received and not yet read.
pub struct QuicConnection {
    pub connection: Option<u128>,
    pub reliable_stream: Option<u64>,
    pub unreliable_stream: Option<u64>,
    pub buffer: Vec<u8>,
}

impl QuicConnection {
    /// Not connected yet.
    pub fn new() -> (c: Self)
        ensures
            c.connection is None,
            c.reliable_stream is None,
            c.unreliable_stream is None,
            c.buffer@.len() == 0,
    {
        QuicConnection { connection: None, reliable_stream: None, unreliable_stream: None, buffer: Vec::new() }
    }

    /// The connection `id` is up.
    pub fn on_connected(&mut self, id: u128)
        ensures
            final(self).connection == Some(id),
            final(self).reliable_stream == old(self).reliable_stream,
            final(self).unreliable_stream == old(self).unreliable_stream,
            final(self).buffer@ == old(self).buffer@,
    {
        self.connection = Some(id);
    }

    /// A stream was opened; it becomes the stream of its reliability.
    pub fn on_stream_created(&mut self, stream: u64, reliable: bool)
        ensures
            final(self).connection == old(self).connection,
            final(self).reliable_stream == if reliable { Some(stream) } else { old(self).reliable_stream },
            final(self).unreliable_stream == if reliable { old(self).unreliable_stream } else { Some(stream) },
            final(self).buffer@ == old(self).buffer@,
    {
        if reliable {
            self.reliable_stream = Some(stream);
        } else {
            self.unreliable_stream = Some(stream);
        }
    }

    /// The stream of the given reliability closed.
    pub fn on_stream_closed(&mut self, reliable: bool)
        ensures
            final(self).connection == old(self).connection,
            final(self).reliable_stream == if reliable { None } else { old(self).reliable_stream },
            final(self).unreliable_stream == if reliable { old(self).unreliable_stream } else { None },
            final(self).buffer@ == old(self).buffer@,
    {
        if reliable {
            self.reliable_stream = None;
        } else {
            self.unreliable_stream = None;
        }
    }

    /// The connection `id` went down. When it is this connection, the
    /// connection and its streams are forgotten and the result is `true`:
    /// the service must stop.
    pub fn on_disconnected(&mut self, id: u128) -> (lost: bool)
        ensures
            lost == (old(self).connection == Some(id)),
            lost ==> final(self).connection is None && final(self).reliable_stream is None
                && final(self).unreliable_stream is None,
            !lost ==> final(self).connection == old(self).connection && final(self).reliable_stream
                == old(self).reliable_stream && final(self).unreliable_stream == old(self).unreliable_stream,
            final(self).buffer@ == old(self).buffer@,
    {
        let lost = match self.connection {
            Some(c) => c == id,
            None => false,
        };
        if lost {
            self.connection = None;
            self.reliable_stream = None;
            self.unreliable_stream = None;
        }
        lost
    }

    /// Where a message goes on the reliable stream: the connection and the
    /// stream, when both are up; otherwise nothing can be sent.
    pub fn reliable_target(&self) -> (r: Option<(u128, u64)>)
        ensures
            r == match (self.connection, self.reliable_stream) {
                (Some(c), Some(s)) => Some((c, s)),
                _ => None,
            },
    {
        match (self.connection, self.reliable_stream) {
            (Some(c), Some(s)) => Some((c, s)),
            _ => None,
        }
    }
}

/// A handoff that starts at its alert emits, on three successive runs of the
/// stages, the alert, the authority switch and the exit between the same two
/// shards, and is then over.
pub proof fn lemma_handoff_stages(p: PlayerState)
    requires
        p.split_state == PlayerSplitState::EmitCrossingAlert,
    ensures
        stage_action(p) == (SpatialAction::CrossingAlert {
            client_id: p.client_id,
            owner_shard_id: p.parent_shard_id,
            neighbor_shard_id: p.neighbor_shard_id,
        }),
        has_next_stage(p),
        stage_action(advanced(p)) == (SpatialAction::SwitchAuthority {
            client_id: p.client_id,
            owner_shard_id: p.parent_shard_id,
            neighbor_shard_id: p.neighbor_shard_id,
        }),
        has_next_stage(advanced(p)),
        stage_action(advanced(advanced(p))) == (SpatialAction::CrossingExit {
            client_id: p.client_id,
            old_shard_id: p.parent_shard_id,
            owner_shard_id: p.neighbor_shard_id,
        }),
        !has_next_stage(advanced(advanced(p))),
{
}

/// A client that the tree did not hold, placed where its leaf does not split
/// and then removed again, leaves the players of the tree as they were.
pub proof fn lemma_insert_then_remove(
    a: QuadTree,
    b: QuadTree,
    c: QuadTree,
    client_id: u32,
    pos: Vec2,
    old_ids: u32,
    new_ids: u32,
    r: InsertResult,
)
    requires
        !a.has_player(client_id),
        !a.leaf_at(pos).splits_on_insert(),
        insert_outcome(a, b, client_id, pos, old_ids, new_ids, r),
        removed_player(b, c, client_id),
    ensures
        c.players_ms() == a.players_ms(),
{
    let e = (client_id, pos);
    assert(b.players_ms().count(e) > 0);
    assert(b.has_player(client_id));
    let p = choose|p: Vec2|
        b.players_ms().count((client_id, p)) > 0 && #[trigger] c.players_ms() == b.players_ms().remove(
            (client_id, p),
        );
    if p != pos {
        assert(a.players_ms().count((client_id, p)) > 0);
        assert(a.has_player(client_id));
    }
    assert(c.players_ms() =~= a.players_ms());
}

} // verus!
