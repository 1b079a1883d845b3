//! The quadtree that assigns regions of the map to shard servers.
//!
//! Every leaf is a shard; a leaf holding more players than allowed splits into
//! four children, which stay `Pending` (their players still served by the
//! parent shard) until the orchestrator reports their servers ready.
use vstd::prelude::*;
use vstd::multiset::Multiset;
use crate::geometry::{
    Rect, Vec2, quadrant, rect_contains, rect_wf, rects_intersect, lemma_quadrant_inside, lemma_quadrants_partition,
};

verus! {

/// Whether a shard serves its own players or still relies on its parent.
#[derive(Debug, Clone, Copy, PartialEq, Eq, Structural)]
pub enum ShardStatus {
    Active,
    /// The shard's server is not up yet; its players are served by `fallback_shard_id`.
    Pending { fallback_shard_id: u32 },
}

/// What the orchestrator must be told after a split.
#[derive(Debug, Clone, Copy)]
pub struct SplitData {
    pub parent_shard_id: u32,
    /// Identifiers of the new shards, north-west, north-east, south-west, south-east.
    pub new_shards_ids: [u32; 4],
}

/// Where an inserted player was placed.
#[derive(Debug, Clone, Copy)]
pub struct InsertResult {
    /// The shard whose region holds the player.
    pub logical_shard_id: u32,
    /// The shard that serves the player: the fallback while the logical one is pending.
    pub network_shard_id: u32,
    /// Present when the insertion split a shard.
    pub trigger_orchestrator: Option<SplitData>,
}

/// A node of the quadtree. Leaves carry a shard identifier and players;
/// inner nodes carry four children. `next_shard_id` is the identifier that
/// the next split at the root hands out; it is not used in other nodes.
pub struct QuadTree {
    pub bounds: Rect,
    pub depth: u8,
    pub max_depth: u8,
    pub max_players_per_shard: usize,
    pub children: Option<Vec<QuadTree>>,
    pub shard_id: Option<u32>,
    pub status: ShardStatus,
    pub players: Vec<(u32, Vec2)>,
    pub next_shard_id: u32,
}

impl QuadTree {
    /// Child `i` of `self` has the bounds, depth and limits that a split gives it.
    pub open spec fn child_fits(self, ch: QuadTree, i: int) -> bool {
        &&& ch.bounds == quadrant(self.bounds, i)
        &&& ch.depth == self.depth + 1
        &&& ch.max_depth == self.max_depth
        &&& ch.max_players_per_shard == self.max_players_per_shard
    }

    /// The tree invariant: leaves hold a shard identifier and only players of
    /// their region; inner nodes are active, hold no players and have the four
    /// quarters of their region as children.
    pub open spec fn wf(self) -> bool
        decreases self,
    {
        &&& rect_wf(self.bounds)
        &&& self.depth <= self.max_depth
        &&& match self.children {
            None => {
                &&& self.shard_id is Some
                &&& forall|k: int|
                    0 <= k < self.players@.len() ==> rect_contains(self.bounds, #[trigger] self.players@[k].1)
            },
            Some(c) => {
                &&& c@.len() == 4
                &&& self.shard_id is None
                &&& self.players@.len() == 0
                &&& self.status == ShardStatus::Active
                &&& self.depth < self.max_depth
                &&& self.child_fits(c@[0], 0) && c@[0].wf()
                &&& self.child_fits(c@[1], 1) && c@[1].wf()
                &&& self.child_fits(c@[2], 2) && c@[2].wf()
                &&& self.child_fits(c@[3], 3) && c@[3].wf()
            },
        }
    }

    /// All players of the tree, with multiplicity.
    pub open spec fn players_ms(self) -> Multiset<(u32, Vec2)>
        decreases self,
    {
        match self.children {
            None => self.players@.to_multiset(),
            Some(c) => if c@.len() == 4 {
                c@[0].players_ms().add(c@[1].players_ms()).add(c@[2].players_ms()).add(
                    c@[3].players_ms(),
                )
            } else {
                Multiset::empty()
            },
        }
    }

    /// The shard that a lookup of `pos` reports: none outside the tree's
    /// region, else the first child's answer, else the node's own shard.
    pub open spec fn shard_at(self, pos: Vec2) -> Option<u32>
        decreases self,
    {
        if !rect_contains(self.bounds, pos) {
            None
        } else {
            match self.children {
                None => self.shard_id,
                Some(c) => if c@.len() == 4 {
                    if c@[0].shard_at(pos) is Some {
                        c@[0].shard_at(pos)
                    } else if c@[1].shard_at(pos) is Some {
                        c@[1].shard_at(pos)
                    } else if c@[2].shard_at(pos) is Some {
                        c@[2].shard_at(pos)
                    } else if c@[3].shard_at(pos) is Some {
                        c@[3].shard_at(pos)
                    } else {
                        self.shard_id
                    }
                } else {
                    self.shard_id
                },
            }
        }
    }

    /// The leaf whose region holds `pos` (the first matching child at each level).
    pub open spec fn leaf_at(self, pos: Vec2) -> QuadTree
        decreases self,
    {
        match self.children {
            None => self,
            Some(c) => if c@.len() == 4 {
                if rect_contains(c@[0].bounds, pos) {
                    c@[0].leaf_at(pos)
                } else if rect_contains(c@[1].bounds, pos) {
                    c@[1].leaf_at(pos)
                } else if rect_contains(c@[2].bounds, pos) {
                    c@[2].leaf_at(pos)
                } else if rect_contains(c@[3].bounds, pos) {
                    c@[3].leaf_at(pos)
                } else {
                    self
                }
            } else {
                self
            },
        }
    }

    /// The shard that serves the players of a leaf.
    pub open spec fn network_shard(self) -> u32 {
        match self.status {
            ShardStatus::Active => self.shard_id->0,
            ShardStatus::Pending { fallback_shard_id } => fallback_shard_id,
        }
    }

    /// Adding one more player to this leaf makes it split.
    pub open spec fn splits_on_insert(self) -> bool {
        &&& self.players@.len() + 1 > self.max_players_per_shard
        &&& self.depth < self.max_depth
        &&& self.status == ShardStatus::Active
    }

    /// The tree has a player with identifier `client_id`.
    pub open spec fn has_player(self, client_id: u32) -> bool {
        exists|p: Vec2| self.players_ms().count((client_id, p)) > 0
    }
}

/// The four identifiers a split hands out, counting from `next` with wrap-around.
pub open spec fn split_ids(next: u32) -> Seq<u32> {
    seq![next, next.wrapping_add(1), next.wrapping_add(2), next.wrapping_add(3)]
}

/// The quarter of `r` that holds `pos`.
pub open spec fn quadrant_index(r: Rect, pos: Vec2) -> int {
    if pos.x < r.x + r.width / 2 {
        if pos.y < r.y + r.height / 2 { 0 } else { 2 }
    } else {
        if pos.y < r.y + r.height / 2 { 1 } else { 3 }
    }
}

impl QuadTree {
    /// Same regions, shards and statuses at every node; players may differ.
    pub open spec fn same_shape(self, other: QuadTree) -> bool
        decreases self,
    {
        &&& self.bounds == other.bounds
        &&& self.depth == other.depth
        &&& self.max_depth == other.max_depth
        &&& self.max_players_per_shard == other.max_players_per_shard
        &&& self.shard_id == other.shard_id
        &&& self.status == other.status
        &&& match (self.children, other.children) {
            (None, None) => true,
            (Some(c), Some(d)) => {
                &&& c@.len() == 4
                &&& d@.len() == 4
                &&& c@[0].same_shape(d@[0])
                &&& c@[1].same_shape(d@[1])
                &&& c@[2].same_shape(d@[2])
                &&& c@[3].same_shape(d@[3])
            },
            _ => false,
        }
    }
}

/// Trees of the same shape report the same shard for every point.
pub proof fn lemma_same_shape_shard_at(a: QuadTree, b: QuadTree, pos: Vec2)
    requires
        a.same_shape(b),
    ensures
        a.shard_at(pos) == b.shard_at(pos),
    decreases a,
{
    if let (Some(c), Some(d)) = (a.children, b.children) {
        lemma_same_shape_shard_at(c@[0], d@[0], pos);
        lemma_same_shape_shard_at(c@[1], d@[1], pos);
        lemma_same_shape_shard_at(c@[2], d@[2], pos);
        lemma_same_shape_shard_at(c@[3], d@[3], pos);
    }
}

impl QuadTree {
    /// A leaf covering `bounds` at `depth`, active, with no players.
    pub fn new(bounds: Rect, depth: u8, max_depth: u8, max_players: usize, shard_id: u32) -> (t: Self)
        ensures
            t.bounds == bounds,
            t.depth == depth,
            t.max_depth == max_depth,
            t.max_players_per_shard == max_players,
            t.children is None,
            t.shard_id == Some(shard_id),
            t.status == ShardStatus::Active,
            t.players@.len() == 0,
            t.next_shard_id == 1,
            rect_wf(bounds) && depth <= max_depth ==> t.wf(),
    {
        QuadTree {
            bounds,
            depth,
            max_depth,
            max_players_per_shard: max_players,
            children: None,
            shard_id: Some(shard_id),
            status: ShardStatus::Active,
            players: Vec::new(),
            next_shard_id: 1,
        }
    }

    /// The shard whose region holds `pos`, or `None` outside the map.
    pub fn shard_for(&self, pos: &Vec2) -> (r: Option<u32>)
        requires
            self.wf(),
        ensures
            r == self.shard_at(*pos),
        decreases self,
    {
        if !self.bounds.contains(pos) {
            return None;
        }
        if let Some(children) = &self.children {
            let r0 = children[0].shard_for(pos);
            if r0.is_some() {
                return r0;
            }
            let r1 = children[1].shard_for(pos);
            if r1.is_some() {
                return r1;
            }
            let r2 = children[2].shard_for(pos);
            if r2.is_some() {
                return r2;
            }
            let r3 = children[3].shard_for(pos);
            if r3.is_some() {
                return r3;
            }
        }
        self.shard_id
    }
}

/// The players of a leaf include one with identifier `client_id` exactly when
/// some entry of its list carries that identifier.
proof fn lemma_leaf_has_player(t: QuadTree, client_id: u32)
    requires
        t.children is None,
    ensures
        t.has_player(client_id) <==> exists|k: int|
            0 <= k < t.players@.len() && (#[trigger] t.players@[k]).0 == client_id,
{
    broadcast use vstd::seq_lib::group_to_multiset_ensures;

    if t.has_player(client_id) {
        let p = choose|p: Vec2| t.players_ms().count((client_id, p)) > 0;
        assert(t.players@.contains((client_id, p)));
        let k = choose|k: int| 0 <= k < t.players@.len() && t.players@[k] == (client_id, p);
        assert(t.players@[k].0 == client_id);
    }
    if exists|k: int| 0 <= k < t.players@.len() && (#[trigger] t.players@[k]).0 == client_id {
        let k = choose|k: int| 0 <= k < t.players@.len() && (#[trigger] t.players@[k]).0 == client_id;
        let e = t.players@[k];
        assert(t.players@.contains(e));
        assert(t.players_ms().count((client_id, e.1)) > 0);
    }
}

/// The players of an inner node include one with identifier `client_id`
/// exactly when one of its children does.
proof fn lemma_inner_has_player(t: QuadTree, client_id: u32)
    requires
        t.children matches Some(c) && c@.len() == 4,
    ensures
        t.has_player(client_id) <==> (t.children->0@[0].has_player(client_id)
            || t.children->0@[1].has_player(client_id) || t.children->0@[2].has_player(client_id)
            || t.children->0@[3].has_player(client_id)),
{
    let c = t.children->0;
    if t.has_player(client_id) {
        let p = choose|p: Vec2| t.players_ms().count((client_id, p)) > 0;
        if c@[0].players_ms().count((client_id, p)) > 0 {
        } else if c@[1].players_ms().count((client_id, p)) > 0 {
        } else if c@[2].players_ms().count((client_id, p)) > 0 {
        } else {
            assert(c@[3].players_ms().count((client_id, p)) > 0);
        }
    }
    if c@[0].has_player(client_id) {
        let p = choose|p: Vec2| c@[0].players_ms().count((client_id, p)) > 0;
        assert(t.players_ms().count((client_id, p)) > 0);
    }
    if c@[1].has_player(client_id) {
        let p = choose|p: Vec2| c@[1].players_ms().count((client_id, p)) > 0;
        assert(t.players_ms().count((client_id, p)) > 0);
    }
    if c@[2].has_player(client_id) {
        let p = choose|p: Vec2| c@[2].players_ms().count((client_id, p)) > 0;
        assert(t.players_ms().count((client_id, p)) > 0);
    }
    if c@[3].has_player(client_id) {
        let p = choose|p: Vec2| c@[3].players_ms().count((client_id, p)) > 0;
        assert(t.players_ms().count((client_id, p)) > 0);
    }
}

impl QuadTree {
    /// `after` is this tree without its first player `client_id`: the first
    /// leaf that has one, leaves taken north-west, north-east, south-west,
    /// south-east at every level, loses the first entry of its list with that
    /// identifier, the others keeping their order; nothing else changes.
    /// Without such a player, nothing changes.
    pub open spec fn removed_first(self, after: QuadTree, client_id: u32) -> bool
        decreases self,
    {
        &&& after.bounds == self.bounds
        &&& after.depth == self.depth
        &&& after.max_depth == self.max_depth
        &&& after.max_players_per_shard == self.max_players_per_shard
        &&& after.shard_id == self.shard_id
        &&& after.status == self.status
        &&& after.next_shard_id == self.next_shard_id
        &&& match (self.children, after.children) {
            (None, None) => if exists|k: int|
                0 <= k < self.players@.len() && (#[trigger] self.players@[k]).0 == client_id {
                exists|k: int|
                    #![trigger self.players@[k]]
                    0 <= k < self.players@.len() && self.players@[k].0 == client_id && (forall|j: int|
                        0 <= j < k ==> (#[trigger] self.players@[j]).0 != client_id)
                        && after.players@ == self.players@.remove(k)
            } else {
                after.players@ == self.players@
            },
            (Some(c), Some(d)) => {
                &&& c@.len() == 4
                &&& d@.len() == 4
                &&& after.players@ == self.players@
                &&& if c@[0].has_player(client_id) {
                    c@[0].removed_first(d@[0], client_id) && d@[1] == c@[1] && d@[2] == c@[2] && d@[3]
                        == c@[3]
                } else if c@[1].has_player(client_id) {
                    c@[0].removed_first(d@[0], client_id) && c@[1].removed_first(d@[1], client_id)
                        && d@[2] == c@[2] && d@[3] == c@[3]
                } else if c@[2].has_player(client_id) {
                    c@[0].removed_first(d@[0], client_id) && c@[1].removed_first(d@[1], client_id)
                        && c@[2].removed_first(d@[2], client_id) && d@[3] == c@[3]
                } else {
                    c@[0].removed_first(d@[0], client_id) && c@[1].removed_first(d@[1], client_id)
                        && c@[2].removed_first(d@[2], client_id) && c@[3].removed_first(d@[3], client_id)
                }
            },
            _ => false,
        }
    }
}

impl QuadTree {
    /// Removes the first player with identifier `client_id` (leaves visited
    /// north-west, north-east, south-west, south-east). Returns whether one
    /// was found. Regions, shards and statuses stay as they were.
    pub fn remove_player(&mut self, client_id: u32) -> (found: bool)
        requires
            old(self).wf(),
        ensures
            final(self).wf(),
            final(self).same_shape(*old(self)),
            final(self).next_shard_id == old(self).next_shard_id,
            found == old(self).has_player(client_id),
            found ==> exists|p: Vec2|
                old(self).players_ms().count((client_id, p)) > 0
                    && #[trigger] final(self).players_ms() == old(self).players_ms().remove((client_id, p)),
            !found ==> final(self).players_ms() == old(self).players_ms(),
            old(self).removed_first(*final(self), client_id),
        decreases *old(self),
    {
        if self.children.is_some() {
            proof {
                lemma_inner_has_player(*self, client_id);
            }
            let mut children = self.children.take().unwrap();
            let ghost oc = children@;
            let mut found = children[0].remove_player(client_id);
            let ghost mut idx: int = 0;
            if !found {
                found = children[1].remove_player(client_id);
                proof { idx = 1; }
            }
            if !found {
                found = children[2].remove_player(client_id);
                proof { idx = 2; }
            }
            if !found {
                found = children[3].remove_player(client_id);
                proof { idx = 3; }
            }
            proof {
                if found {
                    lemma_children_one_removed(oc, children@, idx, client_id);
                } else {
                    assert(children@[0].players_ms() == oc[0].players_ms());
                }
                lemma_same_shape_refl(oc[0]);
                lemma_same_shape_refl(oc[1]);
                lemma_same_shape_refl(oc[2]);
                lemma_same_shape_refl(oc[3]);
            }
            self.children = Some(children);
            return found;
        }
        proof {
            lemma_leaf_has_player(*self, client_id);
        }
        let mut k: usize = 0;
        while k < self.players.len()
            invariant
                *self == *old(self),
                self.wf(),
                self.children is None,
                k <= self.players@.len(),
                forall|j: int| 0 <= j < k ==> (#[trigger] self.players@[j]).0 != client_id,
            decreases self.players@.len() - k,
        {
            if self.players[k].0 == client_id {
                let ghost e = self.players@[k as int];
                assert(old(self).players@[k as int].0 == client_id);
                let ghost before = self.players@;
                self.players.remove(k);
                proof {
                    vstd::seq_lib::to_multiset_remove(before, k as int);
                    vstd::seq_lib::to_multiset_contains(before, e);
                    assert(before.contains(e));
                    assert(old(self).players_ms().count((client_id, e.1)) > 0);
                    assert(self.players_ms() == old(self).players_ms().remove((client_id, e.1)));
                    assert forall|j: int| 0 <= j < self.players@.len() implies rect_contains(
                        self.bounds,
                        #[trigger] self.players@[j].1,
                    ) by {
                        if j < k {
                            assert(self.players@[j] == before[j]);
                        } else {
                            assert(self.players@[j] == before[j + 1]);
                        }
                    }
                }
                assert(old(self).players@[k as int].0 == client_id);
                assert(self.players@ == old(self).players@.remove(k as int));
                return true;
            }
            k = k + 1;
        }
        proof {
            if exists|j: int| 0 <= j < self.players@.len() && (#[trigger] self.players@[j]).0 == client_id {
                let j = choose|j: int| 0 <= j < self.players@.len() && (#[trigger] self.players@[j]).0 == client_id;
                assert(self.players@[j].0 != client_id);
            }
        }
        false
    }
}

/// Every tree has its own shape.
pub proof fn lemma_same_shape_refl(t: QuadTree)
    requires
        t.wf(),
    ensures
        t.same_shape(t),
    decreases t,
{
    if let Some(c) = t.children {
        lemma_same_shape_refl(c@[0]);
        lemma_same_shape_refl(c@[1]);
        lemma_same_shape_refl(c@[2]);
        lemma_same_shape_refl(c@[3]);
    }
}

/// The shape relation is symmetric.
pub proof fn lemma_same_shape_sym(a: QuadTree, b: QuadTree)
    requires
        a.same_shape(b),
    ensures
        b.same_shape(a),
    decreases a,
{
    if let (Some(c), Some(d)) = (a.children, b.children) {
        lemma_same_shape_sym(c@[0], d@[0]);
        lemma_same_shape_sym(c@[1], d@[1]);
        lemma_same_shape_sym(c@[2], d@[2]);
        lemma_same_shape_sym(c@[3], d@[3]);
    }
}

/// The players of four children, with multiplicity.
pub open spec fn children_ms(c: Seq<QuadTree>) -> Multiset<(u32, Vec2)> {
    c[0].players_ms().add(c[1].players_ms()).add(c[2].players_ms()).add(c[3].players_ms())
}

/// When child `i` lost one player `(client_id, p)` and the others are
/// unchanged, the four children together lost that player.
proof fn lemma_children_one_removed(oc: Seq<QuadTree>, nc: Seq<QuadTree>, i: int, client_id: u32)
    requires
        oc.len() == 4,
        nc.len() == 4,
        0 <= i < 4,
        forall|j: int| 0 <= j < 4 && j != i ==> nc[j].players_ms() == oc[j].players_ms(),
        exists|p: Vec2|
            oc[i].players_ms().count((client_id, p)) > 0
                && #[trigger] nc[i].players_ms() == oc[i].players_ms().remove((client_id, p)),
    ensures
        exists|p: Vec2|
            children_ms(oc).count((client_id, p)) > 0
                && #[trigger] children_ms(nc) == children_ms(oc).remove((client_id, p)),
{
    let p = choose|p: Vec2|
        oc[i].players_ms().count((client_id, p)) > 0
            && #[trigger] nc[i].players_ms() == oc[i].players_ms().remove((client_id, p));
    let x = (client_id, p);
    assert(children_ms(oc).count(x) > 0);
    assert(children_ms(nc) =~= children_ms(oc).remove(x));
}

/// What inserting `(client_id, pos)` into a tree whose region holds `pos`
/// does, given the identifier counter before (`old_ids`) and after
/// (`new_ids`): the leaf holding `pos` gains the player, or, when that makes
/// it split, becomes four pending children, numbered from the counter, among
/// which the player is then inserted a second time (see [`split_region`]).
pub open spec fn insert_outcome(
    old_t: QuadTree,
    new_t: QuadTree,
    client_id: u32,
    pos: Vec2,
    old_ids: u32,
    new_ids: u32,
    r: InsertResult,
) -> bool {
    let leaf = old_t.leaf_at(pos);
    let entry = (client_id, pos);
    &&& new_t.shard_at(pos) == Some(r.logical_shard_id)
    &&& if !leaf.splits_on_insert() {
        &&& r.logical_shard_id == leaf.shard_id->0
        &&& r.network_shard_id == leaf.network_shard()
        &&& r.trigger_orchestrator is None
        &&& new_ids == old_ids
        &&& new_t.same_shape(old_t)
        &&& new_t.players_ms() == old_t.players_ms().insert(entry)
    } else {
        let ids = split_ids(old_ids);
        &&& r.trigger_orchestrator matches Some(sd) && sd.parent_shard_id == leaf.shard_id->0
            && sd.new_shards_ids@ == ids
        &&& r.logical_shard_id == ids[quadrant_index(leaf.bounds, pos)]
        &&& r.network_shard_id == leaf.shard_id->0
        &&& new_ids == old_ids.wrapping_add(4)
        &&& new_t.players_ms() == old_t.players_ms().insert(entry).insert(entry)
        &&& split_region(old_t, new_t, leaf, ids)
    }
}

/// After `leaf` split into four shards numbered `ids`: every point of its
/// region lies in a leaf that is the quarter of the region holding it,
/// numbered by the identifier of that quarter and pending, served by the
/// split shard meanwhile; every point outside the region keeps its shard.
pub open spec fn split_region(old_t: QuadTree, new_t: QuadTree, leaf: QuadTree, ids: Seq<u32>) -> bool {
    &&& forall|p: Vec2|
        #![trigger new_t.leaf_at(p)]
        rect_contains(leaf.bounds, p) ==> {
            &&& new_t.leaf_at(p).status == (ShardStatus::Pending { fallback_shard_id: leaf.shard_id->0 })
            &&& new_t.leaf_at(p).shard_id == Some(ids[quadrant_index(leaf.bounds, p)])
            &&& new_t.leaf_at(p).bounds == quadrant(leaf.bounds, quadrant_index(leaf.bounds, p))
            &&& new_t.leaf_at(p).children is None
        }
    &&& forall|p: Vec2|
        #![trigger new_t.shard_at(p)]
        new_t.shard_at(p) == if rect_contains(leaf.bounds, p) {
            Some(ids[quadrant_index(leaf.bounds, p)])
        } else {
            old_t.shard_at(p)
        }
}

/// The region of the leaf holding a point lies in the tree's region.
proof fn lemma_leaf_within(t: QuadTree, pos: Vec2, p: Vec2)
    requires
        t.wf(),
        rect_contains(t.bounds, pos),
        rect_contains(t.leaf_at(pos).bounds, p),
    ensures
        rect_contains(t.bounds, p),
    decreases t,
{
    if let Some(c) = t.children {
        lemma_quadrant_index(t.bounds, pos);
        let i = quadrant_index(t.bounds, pos);
        assert(t.leaf_at(pos) == c@[i].leaf_at(pos));
        lemma_leaf_within(c@[i], pos, p);
        lemma_quadrant_inside(t.bounds, i, p);
    }
}

/// A leaf whose four children are pending leaves on its quarters, numbered
/// `ids`, has the shape that [`split_region`] describes.
proof fn lemma_split_leaf_region(leaf: QuadTree, n: QuadTree, ids: Seq<u32>)
    requires
        leaf.children is None,
        rect_wf(leaf.bounds),
        ids.len() == 4,
        n.bounds == leaf.bounds,
        n.children matches Some(c) && c@.len() == 4 && forall|j: int|
            0 <= j < 4 ==> {
                &&& (#[trigger] c@[j]).children is None
                &&& c@[j].bounds == quadrant(leaf.bounds, j)
                &&& c@[j].shard_id == Some(ids[j])
                &&& c@[j].status == (ShardStatus::Pending { fallback_shard_id: leaf.shard_id->0 })
            },
    ensures
        split_region(leaf, n, leaf, ids),
{
    let c = n.children->0@;
    assert forall|p: Vec2| rect_contains(leaf.bounds, p) implies {
        &&& n.leaf_at(p) == c[quadrant_index(leaf.bounds, p)]
        &&& #[trigger] n.shard_at(p) == Some(ids[quadrant_index(leaf.bounds, p)])
    } by {
        lemma_quadrant_index(leaf.bounds, p);
        let i = quadrant_index(leaf.bounds, p);
        assert(c[0].children is None && c[1].children is None && c[2].children is None && c[3].children is None);
        if i != 0 {
            assert(!rect_contains(c[0].bounds, p));
            assert(c[0].shard_at(p) is None);
        }
        if i != 1 {
            assert(!rect_contains(c[1].bounds, p));
            assert(c[1].shard_at(p) is None);
        }
        if i != 2 {
            assert(!rect_contains(c[2].bounds, p));
            assert(c[2].shard_at(p) is None);
        }
        if i != 3 {
            assert(!rect_contains(c[3].bounds, p));
            assert(c[3].shard_at(p) is None);
        }
        assert(c[i].leaf_at(p) == c[i]);
        assert(rect_contains(c[i].bounds, p));
        assert(c[i].shard_at(p) == Some(ids[i]));
        assert(n.leaf_at(p) == c[i]);
    }
    assert forall|p: Vec2| #![trigger n.leaf_at(p)] rect_contains(leaf.bounds, p) implies {
        &&& n.leaf_at(p).status == (ShardStatus::Pending { fallback_shard_id: leaf.shard_id->0 })
        &&& n.leaf_at(p).shard_id == Some(ids[quadrant_index(leaf.bounds, p)])
        &&& n.leaf_at(p).bounds == quadrant(leaf.bounds, quadrant_index(leaf.bounds, p))
        &&& n.leaf_at(p).children is None
    } by {
        lemma_quadrant_index(leaf.bounds, p);
        assert(n.shard_at(p) == Some(ids[quadrant_index(leaf.bounds, p)]));
    }
    assert forall|p: Vec2| #[trigger] n.shard_at(p) == if rect_contains(leaf.bounds, p) {
        Some(ids[quadrant_index(leaf.bounds, p)])
    } else {
        leaf.shard_at(p)
    } by {
        if rect_contains(leaf.bounds, p) {
            assert(n.shard_at(p) == Some(ids[quadrant_index(leaf.bounds, p)]));
        }
    }
}

/// The shape of a split inside child `i` lifts to the node.
proof fn lemma_lift_split_region(mid: QuadTree, new_t: QuadTree, i: int, ch: QuadTree, pos: Vec2, ids: Seq<u32>)
    requires
        mid.wf(),
        mid.children is Some,
        rect_contains(mid.bounds, pos),
        i == quadrant_index(mid.bounds, pos),
        replaced_child(mid, new_t, i, ch),
        split_region(mid.children->0@[i], ch, mid.children->0@[i].leaf_at(pos), ids),
    ensures
        split_region(mid, new_t, mid.leaf_at(pos), ids),
{
    let mc = mid.children->0@;
    let nc = new_t.children->0@;
    lemma_quadrant_index(mid.bounds, pos);
    assert(mid.leaf_at(pos) == mc[i].leaf_at(pos));
    let leaf = mc[i].leaf_at(pos);
    assert(mc[i].bounds == quadrant(mid.bounds, i) && mc[i].wf()) by {
        if i == 0 {
        } else if i == 1 {
        } else if i == 2 {
        } else {
        }
    }
    assert(nc[i] == ch);
    assert forall|j: int| 0 <= j < 4 implies nc[j].bounds == quadrant(mid.bounds, j) by {
        if j == 0 {
        } else if j == 1 {
        } else if j == 2 {
        } else {
        }
    }
    assert forall|p: Vec2| rect_contains(leaf.bounds, p) implies new_t.leaf_at(p) == ch.leaf_at(p)
        && new_t.shard_at(p) == ch.shard_at(p) by {
        lemma_leaf_within(mc[i], pos, p);
        lemma_quadrant_index(mid.bounds, p);
        assert(quadrant_index(mid.bounds, p) == i);
        if i != 0 {
            assert(!rect_contains(nc[0].bounds, p));
        }
        if i != 1 {
            assert(!rect_contains(nc[1].bounds, p));
        }
        if i != 2 {
            assert(!rect_contains(nc[2].bounds, p));
        }
        if i != 3 {
            assert(!rect_contains(nc[3].bounds, p));
        }
        assert(ch.shard_at(p) == Some(ids[quadrant_index(leaf.bounds, p)]));
        assert(rect_contains(nc[i].bounds, p));
        if i != 0 {
            assert(nc[0].shard_at(p) is None);
        }
        if i != 1 {
            assert(nc[1].shard_at(p) is None);
        }
        if i != 2 {
            assert(nc[2].shard_at(p) is None);
        }
        if i != 3 {
            assert(nc[3].shard_at(p) is None);
        }
    }
    assert forall|p: Vec2| !rect_contains(leaf.bounds, p) implies #[trigger] new_t.shard_at(p) == mid.shard_at(p) by {
        assert(ch.shard_at(p) == mc[i].shard_at(p));
        assert forall|j: int| 0 <= j < 4 implies nc[j].shard_at(p) == mc[j].shard_at(p) by {}
    }
    assert forall|p: Vec2| #[trigger] new_t.shard_at(p) == if rect_contains(leaf.bounds, p) {
        Some(ids[quadrant_index(leaf.bounds, p)])
    } else {
        mid.shard_at(p)
    } by {
        if rect_contains(leaf.bounds, p) {
            assert(ch.shard_at(p) == Some(ids[quadrant_index(leaf.bounds, p)]));
        }
    }
    assert forall|p: Vec2| #![trigger new_t.leaf_at(p)] rect_contains(leaf.bounds, p) implies {
        &&& new_t.leaf_at(p).status == (ShardStatus::Pending { fallback_shard_id: leaf.shard_id->0 })
        &&& new_t.leaf_at(p).shard_id == Some(ids[quadrant_index(leaf.bounds, p)])
        &&& new_t.leaf_at(p).bounds == quadrant(leaf.bounds, quadrant_index(leaf.bounds, p))
        &&& new_t.leaf_at(p).children is None
    } by {
        assert(ch.leaf_at(p) == new_t.leaf_at(p));
    }
}

/// The quarter named by [`quadrant_index`] holds the point.
pub proof fn lemma_quadrant_index(r: Rect, p: Vec2)
    requires
        rect_wf(r),
        rect_contains(r, p),
    ensures
        0 <= quadrant_index(r, p) < 4,
        rect_contains(quadrant(r, quadrant_index(r, p)), p),
        forall|j: int| 0 <= j < 4 && rect_contains(quadrant(r, j), p) ==> j == quadrant_index(r, p),
{
    lemma_quadrants_partition(r, p);
}

/// In a well-formed tree whose region holds `pos`, the lookup of `pos` ends at
/// the leaf holding it, and that leaf's region holds `pos`.
pub proof fn lemma_leaf_at(t: QuadTree, pos: Vec2)
    requires
        t.wf(),
        rect_contains(t.bounds, pos),
    ensures
        t.leaf_at(pos).wf(),
        t.leaf_at(pos).children is None,
        rect_contains(t.leaf_at(pos).bounds, pos),
        t.shard_at(pos) == t.leaf_at(pos).shard_id,
        t.shard_at(pos) is Some,
    decreases t,
{
    if let Some(c) = t.children {
        lemma_quadrant_index(t.bounds, pos);
        let i = quadrant_index(t.bounds, pos);
        lemma_leaf_at(c@[i], pos);
        if i > 0 {
            assert(!rect_contains(c@[0].bounds, pos));
            assert(c@[0].shard_at(pos) is None);
        }
        if i > 1 {
            assert(!rect_contains(c@[1].bounds, pos));
            assert(c@[1].shard_at(pos) is None);
        }
        if i > 2 {
            assert(!rect_contains(c@[2].bounds, pos));
            assert(c@[2].shard_at(pos) is None);
        }
    }
}

/// A fresh leaf child for quarter `i` of `parent`, pending with the parent as
/// fallback, holding `players`.
pub open spec fn pending_child(parent: QuadTree, i: int, id: u32, ch: QuadTree) -> bool {
    &&& parent.child_fits(ch, i)
    &&& ch.children is None
    &&& ch.shard_id == Some(id)
    &&& ch.status == ShardStatus::Pending { fallback_shard_id: parent.shard_id->0 }
}

impl QuadTree {
    fn pending_leaf(
        parent: &QuadTree,
        i: usize,
        id: u32,
        players: Vec<(u32, Vec2)>,
    ) -> (ch: QuadTree)
        requires
            parent.wf(),
            parent.children is None,
            parent.depth < parent.max_depth,
            i < 4,
            forall|k: int|
                0 <= k < players@.len() ==> rect_contains(quadrant(parent.bounds, i as int), #[trigger] players@[k].1),
        ensures
            pending_child(*parent, i as int, id, ch),
            ch.players@ == players@,
            ch.wf(),
    {
        QuadTree {
            bounds: parent.bounds.quadrant(i),
            depth: parent.depth + 1,
            max_depth: parent.max_depth,
            max_players_per_shard: parent.max_players_per_shard,
            children: None,
            shard_id: Some(id),
            status: ShardStatus::Pending { fallback_shard_id: parent.shard_id.unwrap() },
            players,
            next_shard_id: 1,
        }
    }

    /// Turns a leaf into an inner node with four pending children that take
    /// over its players, each in the quarter that holds it.
    fn split_logically(&mut self, ids: &mut u32) -> (sd: SplitData)
        requires
            old(self).wf(),
            old(self).children is None,
            old(self).depth < old(self).max_depth,
        ensures
            final(self).wf(),
            final(self).bounds == old(self).bounds,
            final(self).depth == old(self).depth,
            final(self).max_depth == old(self).max_depth,
            final(self).max_players_per_shard == old(self).max_players_per_shard,
            final(self).next_shard_id == old(self).next_shard_id,
            final(self).children matches Some(c) && {
                &&& c@.len() == 4
                &&& forall|i: int| 0 <= i < 4 ==> pending_child(*old(self), i, split_ids(*old(ids))[i], #[trigger] c@[i])
            },
            final(self).players_ms() == old(self).players_ms(),
            sd.parent_shard_id == old(self).shard_id->0,
            sd.new_shards_ids@ == split_ids(*old(ids)),
            *final(ids) == (*old(ids)).wrapping_add(4),
    {
        broadcast use vstd::seq_lib::group_to_multiset_ensures;

        let parent_id = self.shard_id.unwrap();
        let id_nw = *ids;
        *ids = ids.wrapping_add(1);
        let id_ne = *ids;
        *ids = ids.wrapping_add(1);
        let id_sw = *ids;
        *ids = ids.wrapping_add(1);
        let id_se = *ids;
        *ids = ids.wrapping_add(1);
        proof {
            let last = *ids;
            assert(last == id_nw.wrapping_add(4)) by (bit_vector)
                requires
                    id_ne == id_nw.wrapping_add(1),
                    id_sw == id_ne.wrapping_add(1),
                    id_se == id_sw.wrapping_add(1),
                    last == id_se.wrapping_add(1),
            ;
            assert(id_sw == id_nw.wrapping_add(2) && id_se == id_nw.wrapping_add(3)) by (bit_vector)
                requires
                    id_ne == id_nw.wrapping_add(1),
                    id_sw == id_ne.wrapping_add(1),
                    id_se == id_sw.wrapping_add(1),
            ;
        }
        let q0 = self.bounds.quadrant(0);
        let q1 = self.bounds.quadrant(1);
        let q2 = self.bounds.quadrant(2);
        let q3 = self.bounds.quadrant(3);
        let mut old_players: Vec<(u32, Vec2)> = Vec::new();
        std::mem::swap(&mut old_players, &mut self.players);
        let mut p0: Vec<(u32, Vec2)> = Vec::new();
        let mut p1: Vec<(u32, Vec2)> = Vec::new();
        let mut p2: Vec<(u32, Vec2)> = Vec::new();
        let mut p3: Vec<(u32, Vec2)> = Vec::new();
        let mut k: usize = 0;
        while k < old_players.len()
            invariant
                k <= old_players@.len(),
                old_players@ == old(self).players@,
                rect_wf(old(self).bounds),
                q0 == quadrant(old(self).bounds, 0),
                q1 == quadrant(old(self).bounds, 1),
                q2 == quadrant(old(self).bounds, 2),
                q3 == quadrant(old(self).bounds, 3),
                forall|j: int| 0 <= j < old_players@.len() ==> rect_contains(old(self).bounds, #[trigger] old_players@[j].1),
                forall|j: int| 0 <= j < p0@.len() ==> rect_contains(q0, #[trigger] p0@[j].1),
                forall|j: int| 0 <= j < p1@.len() ==> rect_contains(q1, #[trigger] p1@[j].1),
                forall|j: int| 0 <= j < p2@.len() ==> rect_contains(q2, #[trigger] p2@[j].1),
                forall|j: int| 0 <= j < p3@.len() ==> rect_contains(q3, #[trigger] p3@[j].1),
                p0@.to_multiset().add(p1@.to_multiset()).add(p2@.to_multiset()).add(p3@.to_multiset())
                    == old_players@.take(k as int).to_multiset(),
            decreases old_players@.len() - k,
        {
            let entry = old_players[k];
            let ghost (b0, b1, b2, b3) = (p0@, p1@, p2@, p3@);
            proof {
                assert(old_players@.take(k as int + 1) =~= old_players@.take(k as int).push(entry));
                lemma_quadrants_partition(old(self).bounds, entry.1);
            }
            let ghost mut which: int = 3;
            if q0.contains(&entry.1) {
                p0.push(entry);
                proof { which = 0; }
            } else if q1.contains(&entry.1) {
                p1.push(entry);
                proof { which = 1; }
            } else if q2.contains(&entry.1) {
                p2.push(entry);
                proof { which = 2; }
            } else {
                p3.push(entry);
            }
            proof {
                let before = old_players@.take(k as int);
                assert(old_players@.take(k as int + 1).to_multiset() == before.push(entry).to_multiset());
                vstd::seq_lib::to_multiset_build(before, entry);
                if which == 0 {
                    assert(p0@ == b0.push(entry));
                    vstd::seq_lib::to_multiset_build(b0, entry);
                } else if which == 1 {
                    assert(p1@ == b1.push(entry));
                    vstd::seq_lib::to_multiset_build(b1, entry);
                } else if which == 2 {
                    assert(p2@ == b2.push(entry));
                    vstd::seq_lib::to_multiset_build(b2, entry);
                } else {
                    assert(p3@ == b3.push(entry));
                    vstd::seq_lib::to_multiset_build(b3, entry);
                }
                assert(p0@.to_multiset().add(p1@.to_multiset()).add(p2@.to_multiset()).add(
                    p3@.to_multiset(),
                ) =~= old_players@.take(k as int + 1).to_multiset());
            }
            k = k + 1;
        }
        proof {
            assert(old_players@.take(old_players@.len() as int) =~= old_players@);
        }
        let c0 = QuadTree::pending_leaf(self, 0, id_nw, p0);
        let c1 = QuadTree::pending_leaf(self, 1, id_ne, p1);
        let c2 = QuadTree::pending_leaf(self, 2, id_sw, p2);
        let c3 = QuadTree::pending_leaf(self, 3, id_se, p3);
        let mut children: Vec<QuadTree> = Vec::new();
        children.push(c0);
        children.push(c1);
        children.push(c2);
        children.push(c3);
        self.shard_id = None;
        self.status = ShardStatus::Active;
        self.children = Some(children);
        proof {
            assert(self.players@ =~= Seq::<(u32, Vec2)>::empty());
            assert(self.children->0@[0] == c0);
            assert(self.children->0@[3] == c3);
            let c = self.children->0@;
            assert(c[0].players_ms() == p0@.to_multiset());
            assert(c[1].players_ms() == p1@.to_multiset());
            assert(c[2].players_ms() == p2@.to_multiset());
            assert(c[3].players_ms() == p3@.to_multiset());
            assert(old(self).players_ms() == old_players@.to_multiset());
            assert(self.players_ms() =~= old(self).players_ms());
        }
        SplitData { parent_shard_id: parent_id, new_shards_ids: [id_nw, id_ne, id_sw, id_se] }
    }
}

/// `new_t` is `mid` with child `i` replaced by `ch`, a tree of the same region,
/// depth and limits that gained the player `x`.
pub open spec fn replaced_child(mid: QuadTree, new_t: QuadTree, i: int, ch: QuadTree) -> bool {
    &&& new_t.bounds == mid.bounds
    &&& new_t.depth == mid.depth
    &&& new_t.max_depth == mid.max_depth
    &&& new_t.max_players_per_shard == mid.max_players_per_shard
    &&& new_t.shard_id == mid.shard_id
    &&& new_t.status == mid.status
    &&& new_t.players == mid.players
    &&& new_t.next_shard_id == mid.next_shard_id
    &&& mid.children matches Some(mc) && new_t.children matches Some(nc) && {
        &&& nc@.len() == 4
        &&& nc@[i] == ch
        &&& forall|j: int| 0 <= j < 4 && j != i ==> nc@[j] == mc@[j]
        &&& ch.bounds == mc@[i].bounds
        &&& ch.depth == mc@[i].depth
        &&& ch.max_depth == mc@[i].max_depth
        &&& ch.max_players_per_shard == mc@[i].max_players_per_shard
    }
}

/// Inserting into the child that holds `pos` inserts into the node.
proof fn lemma_lift_child_insert(mid: QuadTree, new_t: QuadTree, i: int, ch: QuadTree, x: (u32, Vec2), pos: Vec2)
    requires
        mid.wf(),
        mid.children is Some,
        rect_contains(mid.bounds, pos),
        i == quadrant_index(mid.bounds, pos),
        replaced_child(mid, new_t, i, ch),
        ch.wf(),
        ch.players_ms() == mid.children->0@[i].players_ms().insert(x),
    ensures
        new_t.wf(),
        new_t.players_ms() == mid.players_ms().insert(x),
        new_t.shard_at(pos) == ch.shard_at(pos),
        mid.leaf_at(pos) == mid.children->0@[i].leaf_at(pos),
        ch.same_shape(mid.children->0@[i]) ==> new_t.same_shape(mid),
{
    let mc = mid.children->0@;
    let nc = new_t.children->0@;
    lemma_quadrant_index(mid.bounds, pos);
    assert(forall|j: int| 0 <= j < 4 ==> (rect_contains(mc[j].bounds, pos) <==> j == i));
    if i != 0 {
        assert(nc[0].shard_at(pos) is None);
    }
    if i != 1 {
        assert(nc[1].shard_at(pos) is None);
    }
    if i != 2 {
        assert(nc[2].shard_at(pos) is None);
    }
    if i != 3 {
        assert(nc[3].shard_at(pos) is None);
    }
    assert(new_t.players_ms() =~= mid.players_ms().insert(x));
    if ch.same_shape(mc[i]) {
        lemma_same_shape_refl(mc[0]);
        lemma_same_shape_refl(mc[1]);
        lemma_same_shape_refl(mc[2]);
        lemma_same_shape_refl(mc[3]);
    }
}

/// Inserting a player twice into the child that holds `pos` inserts it twice
/// into the node.
proof fn lemma_lift_child_insert_twice(mid: QuadTree, new_t: QuadTree, i: int, ch: QuadTree, x: (u32, Vec2), pos: Vec2)
    requires
        mid.wf(),
        mid.children is Some,
        rect_contains(mid.bounds, pos),
        i == quadrant_index(mid.bounds, pos),
        replaced_child(mid, new_t, i, ch),
        ch.wf(),
        ch.players_ms() == mid.children->0@[i].players_ms().insert(x).insert(x),
    ensures
        new_t.wf(),
        new_t.players_ms() == mid.players_ms().insert(x).insert(x),
        new_t.shard_at(pos) == ch.shard_at(pos),
        mid.leaf_at(pos) == mid.children->0@[i].leaf_at(pos),
{
    let mc = mid.children->0@;
    let nc = new_t.children->0@;
    lemma_quadrant_index(mid.bounds, pos);
    assert(forall|j: int| 0 <= j < 4 ==> (rect_contains(mc[j].bounds, pos) <==> j == i));
    if i != 0 {
        assert(nc[0].shard_at(pos) is None);
    }
    if i != 1 {
        assert(nc[1].shard_at(pos) is None);
    }
    if i != 2 {
        assert(nc[2].shard_at(pos) is None);
    }
    if i != 3 {
        assert(nc[3].shard_at(pos) is None);
    }
    assert(new_t.players_ms() =~= mid.players_ms().insert(x).insert(x));
}

impl QuadTree {
    /// Index of the child whose region holds `pos`.
    fn child_index(&self, pos: &Vec2) -> (i: usize)
        requires
            self.wf(),
            self.children is Some,
            rect_contains(self.bounds, *pos),
        ensures
            i == quadrant_index(self.bounds, *pos),
    {
        proof {
            lemma_quadrant_index(self.bounds, *pos);
        }
        let q0 = self.bounds.quadrant(0);
        let q1 = self.bounds.quadrant(1);
        let q2 = self.bounds.quadrant(2);
        if q0.contains(pos) {
            0
        } else if q1.contains(pos) {
            1
        } else if q2.contains(pos) {
            2
        } else {
            3
        }
    }
}

impl QuadTree {
    fn insert_rec(&mut self, client_id: u32, pos: Vec2, ids: &mut u32) -> (res: Option<InsertResult>)
        requires
            old(self).wf(),
        ensures
            final(self).wf(),
            final(self).bounds == old(self).bounds,
            final(self).depth == old(self).depth,
            final(self).max_depth == old(self).max_depth,
            final(self).max_players_per_shard == old(self).max_players_per_shard,
            final(self).next_shard_id == old(self).next_shard_id,
            res is Some <==> rect_contains(old(self).bounds, pos),
            res is None ==> *final(self) == *old(self) && *final(ids) == *old(ids),
            res matches Some(r) ==> insert_outcome(
                *old(self),
                *final(self),
                client_id,
                pos,
                *old(ids),
                *final(ids),
                r,
            ),
        decreases old(self).max_depth - old(self).depth,
    {
        broadcast use vstd::seq_lib::group_to_multiset_ensures;

        if !self.bounds.contains(&pos) {
            return None;
        }
        if self.children.is_some() {
            let i = self.child_index(&pos);
            let ghost mid = *self;
            let mut children = self.children.take().unwrap();
            let r = children[i].insert_rec(client_id, pos, ids);
            let ghost ch = children@[i as int];
            self.children = Some(children);
            proof {
                let mc = mid.children->0@;
                let res = r->0;
                if !mc[i as int].leaf_at(pos).splits_on_insert() {
                    lemma_lift_child_insert(mid, *self, i as int, ch, (client_id, pos), pos);
                } else {
                    let mid_ms = mc[i as int].players_ms().insert((client_id, pos));
                    assert(ch.players_ms() == mid_ms.insert((client_id, pos)));
                    lemma_lift_child_insert_twice(mid, *self, i as int, ch, (client_id, pos), pos);
                    lemma_lift_split_region(mid, *self, i as int, ch, pos, split_ids(*old(ids)));
                }
            }
            return r;
        }
        let ghost leaf = *self;
        self.players.push((client_id, pos));
        let current_shard = self.shard_id.unwrap();
        let network_shard = match self.status {
            ShardStatus::Active => current_shard,
            ShardStatus::Pending { fallback_shard_id } => fallback_shard_id,
        };
        proof {
            assert(self.players@ == leaf.players@.push((client_id, pos)));
        }
        if self.players.len() > self.max_players_per_shard && self.depth < self.max_depth
            && self.status == ShardStatus::Active {
            let ghost pushed = *self;
            let ghost ids0 = *ids;
            let split_data = self.split_logically(ids);
            let i = self.child_index(&pos);
            let ghost mid = *self;
            let mut children = self.children.take().unwrap();
            let r = children[i].insert_rec(client_id, pos, ids);
            let ghost ch = children@[i as int];
            self.children = Some(children);
            proof {
                let mc = mid.children->0@;
                assert(mc[i as int].leaf_at(pos) == mc[i as int]);
                lemma_lift_child_insert(mid, *self, i as int, ch, (client_id, pos), pos);
                assert(pushed.players_ms() == leaf.players_ms().insert((client_id, pos)));
                assert(leaf.leaf_at(pos) == leaf);
                let sc = self.children->0@;
                assert(mc[i as int].leaf_at(pos) == mc[i as int]);
                assert(!mc[i as int].splits_on_insert());
                assert(ch.same_shape(mc[i as int]));
                assert forall|j: int| 0 <= j < 4 implies {
                    &&& (#[trigger] sc[j]).children is None
                    &&& sc[j].bounds == quadrant(leaf.bounds, j)
                    &&& sc[j].shard_id == Some(split_ids(ids0)[j])
                    &&& sc[j].status == (ShardStatus::Pending { fallback_shard_id: leaf.shard_id->0 })
                } by {
                    assert(pending_child(pushed, j, split_ids(ids0)[j], mc[j]));
                }
                lemma_split_leaf_region(leaf, *self, split_ids(ids0));
            }
            match r {
                Some(mut rr) => {
                    rr.trigger_orchestrator = Some(split_data);
                    return Some(rr);
                },
                None => {},
            }
        }
        proof {
            assert(leaf.leaf_at(pos) == leaf);
            assert(self.players_ms() == leaf.players_ms().insert((client_id, pos)));
        }
        Some(
            InsertResult {
                logical_shard_id: current_shard,
                network_shard_id: network_shard,
                trigger_orchestrator: None,
            },
        )
    }
}

impl QuadTree {
    /// Places a player at `pos`. `None` when `pos` is outside the tree's
    /// region (the tree is then unchanged). Otherwise the leaf holding `pos`
    /// gains the player; when that leaf is active, not at the maximal depth and
    /// then holds more players than allowed, it splits first into four pending
    /// shards numbered from `next_shard_id`, the player is placed in the
    /// quarter holding it, and the result carries the split to report.
    pub fn insert_player(&mut self, client_id: u32, pos: Vec2) -> (res: Option<InsertResult>)
        requires
            old(self).wf(),
        ensures
            final(self).wf(),
            final(self).bounds == old(self).bounds,
            res is Some <==> rect_contains(old(self).bounds, pos),
            res is None ==> *final(self) == *old(self),
            res matches Some(r) ==> insert_outcome(
                *old(self),
                *final(self),
                client_id,
                pos,
                old(self).next_shard_id,
                final(self).next_shard_id,
                r,
            ),
    {
        let mut ids = self.next_shard_id;
        let r = self.insert_rec(client_id, pos, &mut ids);
        let ghost t1 = *self;
        self.next_shard_id = ids;
        proof {
            let ghost t = *self;
            if r is Some && !old(self).leaf_at(pos).splits_on_insert() {
                assert(t.same_shape(*old(self)));
            }
            if r is Some && old(self).leaf_at(pos).splits_on_insert() {
                let leaf = old(self).leaf_at(pos);
                let sids = split_ids(old(self).next_shard_id);
                assert(split_region(*old(self), t1, leaf, sids));
                assert forall|p: Vec2| #[trigger] t.shard_at(p) == t1.shard_at(p) by {}
                assert forall|p: Vec2| #![trigger t.leaf_at(p)] rect_contains(leaf.bounds, p) implies {
                    &&& t.leaf_at(p).status == (ShardStatus::Pending { fallback_shard_id: leaf.shard_id->0 })
                    &&& t.leaf_at(p).shard_id == Some(sids[quadrant_index(leaf.bounds, p)])
                    &&& t.leaf_at(p).bounds == quadrant(leaf.bounds, quadrant_index(leaf.bounds, p))
                    &&& t.leaf_at(p).children is None
                } by {
                    assert(t1.leaf_at(p).children is None);
                    if t.children is None {
                        assert(t1.leaf_at(p) == t1);
                    } else {
                        assert(t.leaf_at(p) == t1.leaf_at(p));
                    }
                }
                assert(split_region(*old(self), t, leaf, sids));
            }
        }
        r
    }
}

/// Every point of a well-formed tree's region belongs to a shard.
pub proof fn lemma_every_point_has_shard(t: QuadTree, pos: Vec2)
    requires
        t.wf(),
        rect_contains(t.bounds, pos),
    ensures
        t.shard_at(pos) is Some,
{
    lemma_leaf_at(t, pos);
}

impl QuadTree {
    /// Shards of the leaves whose regions meet `area`, in tree order (the
    /// order in which the search visits them).
    pub open spec fn shards_meeting(self, area: Rect) -> Seq<u32>
        decreases self,
    {
        if !rects_intersect(self.bounds, area) {
            Seq::empty()
        } else {
            match self.children {
                Some(c) => if c@.len() == 4 {
                    c@[0].shards_meeting(area) + c@[1].shards_meeting(area) + c@[2].shards_meeting(
                        area,
                    ) + c@[3].shards_meeting(area)
                } else {
                    Seq::empty()
                },
                None => match self.shard_id {
                    Some(id) => seq![id],
                    None => Seq::empty(),
                },
            }
        }
    }

    fn collect_shards_near(&self, search_area: &Rect, results: &mut Vec<u32>)
        requires
            self.wf(),
        ensures
            final(results)@ == old(results)@ + self.shards_meeting(*search_area),
        decreases self,
    {
        if !self.bounds.intersects(search_area) {
            assert(final(results)@ =~= old(results)@ + self.shards_meeting(*search_area));
            return;
        }
        if let Some(children) = &self.children {
            children[0].collect_shards_near(search_area, results);
            children[1].collect_shards_near(search_area, results);
            children[2].collect_shards_near(search_area, results);
            children[3].collect_shards_near(search_area, results);
            assert(final(results)@ =~= old(results)@ + self.shards_meeting(*search_area));
        } else if let Some(shard_id) = self.shard_id {
            results.push(shard_id);
        }
    }
}

impl QuadTree {
    /// Some leaf of the tree is the shard `id` and its region meets `area`.
    pub open spec fn has_leaf_meeting(self, area: Rect, id: u32) -> bool
        decreases self,
    {
        match self.children {
            None => self.shard_id == Some(id) && rects_intersect(self.bounds, area),
            Some(c) => c@.len() == 4 && (c@[0].has_leaf_meeting(area, id) || c@[1].has_leaf_meeting(
                area,
                id,
            ) || c@[2].has_leaf_meeting(area, id) || c@[3].has_leaf_meeting(area, id)),
        }
    }
}

proof fn lemma_quadrant_within(r: Rect, i: int)
    requires
        rect_wf(r),
        0 <= i < 4,
    ensures
        r.x <= quadrant(r, i).x,
        quadrant(r, i).x + quadrant(r, i).width <= r.x + r.width,
        r.y <= quadrant(r, i).y,
        quadrant(r, i).y + quadrant(r, i).height <= r.y + r.height,
{
}

/// A tree with a leaf whose region meets `area` has a region that meets it.
proof fn lemma_leaf_meeting_within(t: QuadTree, area: Rect, id: u32)
    requires
        t.wf(),
        t.has_leaf_meeting(area, id),
    ensures
        rects_intersect(t.bounds, area),
    decreases t,
{
    if let Some(c) = t.children {
        let k = if c@[0].has_leaf_meeting(area, id) {
            0int
        } else if c@[1].has_leaf_meeting(area, id) {
            1int
        } else if c@[2].has_leaf_meeting(area, id) {
            2int
        } else {
            3int
        };
        lemma_leaf_meeting_within(c@[k], area, id);
        lemma_quadrant_within(t.bounds, k);
    }
}

/// In a well-formed tree, the shards met by a search of `area` are exactly
/// the shards of the leaves whose regions meet `area`.
pub proof fn lemma_shards_meeting_leaves(t: QuadTree, area: Rect, id: u32)
    requires
        t.wf(),
    ensures
        t.shards_meeting(area).contains(id) <==> t.has_leaf_meeting(area, id),
    decreases t,
{
    if t.has_leaf_meeting(area, id) {
        lemma_leaf_meeting_within(t, area, id);
    }
    if let Some(c) = t.children {
        lemma_shards_meeting_leaves(c@[0], area, id);
        lemma_shards_meeting_leaves(c@[1], area, id);
        lemma_shards_meeting_leaves(c@[2], area, id);
        lemma_shards_meeting_leaves(c@[3], area, id);
        if rects_intersect(t.bounds, area) {
            let s0 = c@[0].shards_meeting(area);
            let s1 = c@[1].shards_meeting(area);
            let s2 = c@[2].shards_meeting(area);
            let s3 = c@[3].shards_meeting(area);
            lemma_concat_contains(s0, s1, id);
            lemma_concat_contains(s0 + s1, s2, id);
            lemma_concat_contains(s0 + s1 + s2, s3, id);
        }
    } else {
        if rects_intersect(t.bounds, area) {
            assert(t.shards_meeting(area) == seq![t.shard_id->0]);
            if t.shards_meeting(area).contains(id) {
                assert(t.shards_meeting(area)[0] == id);
            }
            if t.has_leaf_meeting(area, id) {
                assert(t.shards_meeting(area)[0] == id);
            }
        }
    }
}

proof fn lemma_concat_contains(a: Seq<u32>, b: Seq<u32>, x: u32)
    ensures
        (a + b).contains(x) <==> (a.contains(x) || b.contains(x)),
{
    if (a + b).contains(x) {
        let k = choose|k: int| 0 <= k < (a + b).len() && (a + b)[k] == x;
        if k < a.len() {
            assert(a[k] == x);
        } else {
            assert(b[k - a.len()] == x);
        }
    }
    if a.contains(x) {
        let k = choose|k: int| 0 <= k < a.len() && a[k] == x;
        assert((a + b)[k] == x);
    }
    if b.contains(x) {
        let k = choose|k: int| 0 <= k < b.len() && b[k] == x;
        assert((a + b)[k + a.len()] == x);
    }
}

/// The leaf that holds a point meets every area that holds the point,
/// borders included.
proof fn lemma_point_shard_meets(t: QuadTree, p: Vec2, area: Rect)
    requires
        t.wf(),
        rect_contains(t.bounds, p),
        area.x <= p.x <= area.x + area.width,
        area.y <= p.y <= area.y + area.height,
    ensures
        t.shard_at(p) matches Some(id) && t.has_leaf_meeting(area, id),
    decreases t,
{
    lemma_every_point_has_shard(t, p);
    if let Some(c) = t.children {
        let k = if c@[0].shard_at(p) is Some {
            0int
        } else if c@[1].shard_at(p) is Some {
            1int
        } else if c@[2].shard_at(p) is Some {
            2int
        } else {
            3int
        };
        assert(c@[k].shard_at(p) is Some);
        assert(rect_contains(c@[k].bounds, p));
        lemma_point_shard_meets(c@[k], p, area);
    }
}

/// The search around a point misses no shard within the margin: the shard
/// of every point of the map at most `margin` away from `pos` in each
/// coordinate, in any direction, is among the shards the search meets.
pub proof fn lemma_search_covers_margin(t: QuadTree, pos: Vec2, margin: i32, p: Vec2)
    requires
        t.wf(),
        0 <= margin,
        2 * margin <= i32::MAX,
        i32::MIN <= pos.x - margin,
        i32::MIN <= pos.y - margin,
        rect_contains(t.bounds, p),
        pos.x - margin <= p.x <= pos.x + margin,
        pos.y - margin <= p.y <= pos.y + margin,
    ensures
        t.shard_at(p) matches Some(id) && t.shards_meeting(search_square(pos, margin)).contains(id),
{
    let area = search_square(pos, margin);
    assert(area.x == pos.x - margin && area.width == 2 * margin);
    assert(area.y == pos.y - margin && area.height == 2 * margin);
    lemma_point_shard_meets(t, p, area);
    lemma_shards_meeting_leaves(t, area, t.shard_at(p)->0);
}

/// The square of half-side `margin` centred on `pos`.
pub open spec fn search_square(pos: Vec2, margin: i32) -> Rect {
    Rect {
        x: (pos.x - margin) as i32,
        y: (pos.y - margin) as i32,
        width: (2 * margin) as i32,
        height: (2 * margin) as i32,
    }
}

/// Inserts `x` into a strictly increasing vector, keeping it strictly increasing.
fn insert_sorted_unique(v: &mut Vec<u32>, x: u32)
    requires
        forall|i: int, j: int| 0 <= i < j < old(v)@.len() ==> old(v)@[i] < old(v)@[j],
    ensures
        forall|i: int, j: int| 0 <= i < j < final(v)@.len() ==> final(v)@[i] < final(v)@[j],
        forall|y: u32| final(v)@.contains(y) <==> (old(v)@.contains(y) || y == x),
{
    let mut i: usize = 0;
    while i < v.len() && v[i] < x
        invariant
            *v == *old(v),
            i <= v@.len(),
            forall|j: int| 0 <= j < i ==> v@[j] < x,
        decreases v@.len() - i,
    {
        i = i + 1;
    }
    if i < v.len() && v[i] == x {
        return;
    }
    let ghost before = v@;
    assert(before == old(v)@);
    v.insert(i, x);
    assert forall|y: u32| #[trigger] v@.contains(y) <==> (before.contains(y) || y == x) by {
        if v@.contains(y) {
            let k = choose|k: int| 0 <= k < v@.len() && v@[k] == y;
            if k < i {
                assert(before[k] == y);
            } else if k > i {
                assert(before[k - 1] == y);
            }
        }
        if before.contains(y) {
            let k = choose|k: int| 0 <= k < before.len() && before[k] == y;
            if k < i {
                assert(v@[k] == y);
            } else {
                assert(v@[k + 1] == y);
            }
        }
        if y == x {
            assert(v@[i as int] == x);
        }
    }
    assert forall|a: int, b: int| 0 <= a < b < v@.len() implies v@[a] < v@[b] by {
        if b < i {
        } else if a > i {
            assert(v@[a] == before[a - 1] && v@[b] == before[b - 1]);
        } else if a == i {
            assert(v@[b] == before[b - 1]);
        } else if b == i {
        } else {
            assert(v@[b] == before[b - 1]);
        }
    }
}

impl QuadTree {
    /// The distinct shards whose regions meet the square of half-side `margin`
    /// around `pos`, in increasing order. Used to see a player approach a
    /// border between shards.
    pub fn shards_near(&self, pos: &Vec2, margin: i32) -> (r: Vec<u32>)
        requires
            self.wf(),
            0 <= margin,
            2 * margin <= i32::MAX,
            i32::MIN <= pos.x - margin,
            i32::MIN <= pos.y - margin,
        ensures
            forall|i: int, j: int| 0 <= i < j < r@.len() ==> r@[i] < r@[j],
            forall|id: u32|
                r@.contains(id) <==> self.shards_meeting(search_square(*pos, margin)).contains(id),
            forall|id: u32| r@.contains(id) <==> #[trigger] self.has_leaf_meeting(search_square(*pos, margin), id),
            forall|p: Vec2|
                rect_contains(self.bounds, p) && pos.x - margin <= p.x <= pos.x + margin && pos.y - margin <= p.y
                    <= pos.y + margin ==> (#[trigger] self.shard_at(p) matches Some(id) && r@.contains(id)),
            forall|id: u32|
                r@.contains(id) <==> #[trigger] self.has_leaf_meeting(
                    (Rect {
                        x: (pos.x - margin) as i32,
                        y: (pos.y - margin) as i32,
                        width: (2 * margin) as i32,
                        height: (2 * margin) as i32,
                    }),
                    id,
                ),
            rect_contains(self.bounds, *pos) ==> (self.shard_at(*pos) matches Some(own) && r@.contains(own)),
    {
        proof {
            if rect_contains(self.bounds, *pos) {
                lemma_own_shard_is_near(*self, *pos, margin);
            }
            assert forall|id: u32| #[trigger] self.has_leaf_meeting(search_square(*pos, margin), id)
                <==> self.shards_meeting(search_square(*pos, margin)).contains(id) by {
                lemma_shards_meeting_leaves(*self, search_square(*pos, margin), id);
            }
            assert(search_square(*pos, margin) == (Rect {
                x: (pos.x - margin) as i32,
                y: (pos.y - margin) as i32,
                width: (2 * margin) as i32,
                height: (2 * margin) as i32,
            }));
            assert forall|p: Vec2|
                rect_contains(self.bounds, p) && pos.x - margin <= p.x <= pos.x + margin && pos.y - margin <= p.y
                    <= pos.y + margin implies (#[trigger] self.shard_at(p) matches Some(id)
                && self.shards_meeting(search_square(*pos, margin)).contains(id)) by {
                lemma_search_covers_margin(*self, *pos, margin, p);
            }
        }
        let search_area = Rect {
            x: pos.x - margin,
            y: pos.y - margin,
            width: margin * 2,
            height: margin * 2,
        };
        let mut found: Vec<u32> = Vec::new();
        self.collect_shards_near(&search_area, &mut found);
        assert(found@ =~= self.shards_meeting(search_square(*pos, margin)));
        let mut results: Vec<u32> = Vec::new();
        let mut k: usize = 0;
        while k < found.len()
            invariant
                k <= found@.len(),
                forall|i: int, j: int| 0 <= i < j < results@.len() ==> results@[i] < results@[j],
                forall|id: u32| results@.contains(id) <==> found@.take(k as int).contains(id),
            decreases found@.len() - k,
        {
            let ghost before = results@;
            insert_sorted_unique(&mut results, found[k]);
            assert forall|id: u32| results@.contains(id) <==> found@.take(k as int + 1).contains(id) by {
                let t0 = found@.take(k as int);
                let t1 = found@.take(k as int + 1);
                assert(t1 =~= t0.push(found@[k as int]));
                if t1.contains(id) {
                    let j = choose|j: int| 0 <= j < t1.len() && t1[j] == id;
                    if j < k {
                        assert(t0[j] == id);
                    }
                }
                if t0.contains(id) {
                    let j = choose|j: int| 0 <= j < t0.len() && t0[j] == id;
                    assert(t1[j] == id);
                }
                if id == found@[k as int] {
                    assert(t1[k as int] == id);
                }
            }
            k = k + 1;
        }
        assert(found@.take(found@.len() as int) =~= found@);
        results
    }
}

impl QuadTree {
    /// This node is the pending shard `target`.
    pub open spec fn pending_with_id(self, target: u32) -> bool {
        self.shard_id == Some(target) && self.status is Pending
    }

    /// For the first pending shard `target` in tree order (a node before its
    /// children, children north-west first): its fallback shard, and each of
    /// its players paired with `target`.
    pub open spec fn commit_result(self, target: u32) -> Option<(u32, Seq<(u32, u32)>)>
        decreases self,
    {
        if self.pending_with_id(target) {
            Some(
                (
                    self.status->fallback_shard_id,
                    self.players@.map_values(|p: (u32, Vec2)| (p.0, target)),
                ),
            )
        } else {
            match self.children {
                Some(c) => if c@.len() == 4 {
                    if c@[0].commit_result(target) is Some {
                        c@[0].commit_result(target)
                    } else if c@[1].commit_result(target) is Some {
                        c@[1].commit_result(target)
                    } else if c@[2].commit_result(target) is Some {
                        c@[2].commit_result(target)
                    } else {
                        c@[3].commit_result(target)
                    }
                } else {
                    None
                },
                None => None,
            }
        }
    }

    /// `after` is this tree with the first pending shard `target` (as in
    /// [`QuadTree::commit_result`]) made active, and nothing else changed.
    pub open spec fn committed(self, after: QuadTree, target: u32) -> bool
        decreases self,
    {
        &&& after.bounds == self.bounds
        &&& after.depth == self.depth
        &&& after.max_depth == self.max_depth
        &&& after.max_players_per_shard == self.max_players_per_shard
        &&& after.shard_id == self.shard_id
        &&& after.players == self.players
        &&& after.next_shard_id == self.next_shard_id
        &&& if self.pending_with_id(target) {
            after.status == ShardStatus::Active && after.children == self.children
        } else {
            &&& after.status == self.status
            &&& match (self.children, after.children) {
                (None, None) => true,
                (Some(c), Some(d)) => {
                    &&& c@.len() == 4
                    &&& d@.len() == 4
                    &&& if c@[0].commit_result(target) is Some {
                        c@[0].committed(d@[0], target) && d@[1] == c@[1] && d@[2] == c@[2] && d@[3]
                            == c@[3]
                    } else if c@[1].commit_result(target) is Some {
                        c@[0].committed(d@[0], target) && c@[1].committed(d@[1], target) && d@[2]
                            == c@[2] && d@[3] == c@[3]
                    } else if c@[2].commit_result(target) is Some {
                        c@[0].committed(d@[0], target) && c@[1].committed(d@[1], target)
                            && c@[2].committed(d@[2], target) && d@[3] == c@[3]
                    } else {
                        c@[0].committed(d@[0], target) && c@[1].committed(d@[1], target)
                            && c@[2].committed(d@[2], target) && c@[3].committed(d@[3], target)
                    }
                },
                _ => false,
            }
        }
    }
}

/// Every player that a commit of the pending shard `target` reports is
/// paired with `target`.
pub proof fn lemma_commit_result_pairs(t: QuadTree, target: u32)
    ensures
        t.commit_result(target) matches Some((f, ups)) ==> forall|k: int|
            0 <= k < ups.len() ==> (#[trigger] ups[k]).1 == target,
    decreases t,
{
    if !t.pending_with_id(target) {
        if let Some(c) = t.children {
            if c@.len() == 4 {
                lemma_commit_result_pairs(c@[0], target);
                lemma_commit_result_pairs(c@[1], target);
                lemma_commit_result_pairs(c@[2], target);
                lemma_commit_result_pairs(c@[3], target);
            }
        }
    }
}

/// Activating a pending shard keeps every player and the shard of every point.
pub proof fn lemma_committed_keeps(a: QuadTree, b: QuadTree, target: u32, pos: Vec2)
    requires
        a.wf(),
        a.committed(b, target),
    ensures
        b.players_ms() == a.players_ms(),
        b.shard_at(pos) == a.shard_at(pos),
    decreases a, 1nat,
{
    if !a.pending_with_id(target) {
        if let (Some(c), Some(d)) = (a.children, b.children) {
            lemma_committed_or_equal(c@[0], d@[0], target, pos);
            lemma_committed_or_equal(c@[1], d@[1], target, pos);
            lemma_committed_or_equal(c@[2], d@[2], target, pos);
            lemma_committed_or_equal(c@[3], d@[3], target, pos);
        }
    }
}

proof fn lemma_committed_or_equal(c: QuadTree, d: QuadTree, target: u32, pos: Vec2)
    requires
        c.wf(),
        c.committed(d, target) || c == d,
    ensures
        d.players_ms() == c.players_ms(),
        d.shard_at(pos) == c.shard_at(pos),
    decreases c, 2nat,
{
    if c.committed(d, target) {
        lemma_committed_keeps(c, d, target, pos);
    }
}

/// A tree that was made from `c` by a commit, or is `c`, is well formed and
/// keeps the region, depth and limits of `c`.
proof fn lemma_committed_wf(c: QuadTree, d: QuadTree, target: u32)
    requires
        c.wf(),
        c.committed(d, target),
    ensures
        d.wf(),
    decreases c, 1nat,
{
    if c.pending_with_id(target) {
        assert(d.players@ == c.players@);
        assert(c.children is None);
    } else {
        if let (Some(cc), Some(dd)) = (c.children, d.children) {
            lemma_committed_or_equal_wf(cc@[0], dd@[0], target);
            lemma_committed_or_equal_wf(cc@[1], dd@[1], target);
            lemma_committed_or_equal_wf(cc@[2], dd@[2], target);
            lemma_committed_or_equal_wf(cc@[3], dd@[3], target);
        } else {
            assert(c.children is None);
            assert(d.children is None);
            assert(d.players@ == c.players@);
        }
    }
}

proof fn lemma_committed_or_equal_wf(c: QuadTree, d: QuadTree, target: u32)
    requires
        c.wf(),
        c.committed(d, target) || c == d,
    ensures
        d.wf(),
        d.bounds == c.bounds,
        d.depth == c.depth,
        d.max_depth == c.max_depth,
        d.max_players_per_shard == c.max_players_per_shard,
    decreases c, 2nat,
{
    if c.committed(d, target) {
        lemma_committed_wf(c, d, target);
    }
}

impl QuadTree {
    fn commit_child_recursive(&mut self, target_child: u32, changes: &mut Vec<(u32, u32)>) -> (r: Option<u32>)
        requires
            old(self).wf(),
        ensures
            old(self).committed(*final(self), target_child),
            match old(self).commit_result(target_child) {
                Some((f, ch)) => r == Some(f) && final(changes)@ == old(changes)@ + ch,
                None => r is None && final(changes)@ == old(changes)@,
            },
        decreases *old(self),
    {
        if self.shard_id.is_some() && self.shard_id.unwrap() == target_child {
            if let ShardStatus::Pending { fallback_shard_id } = self.status {
                self.status = ShardStatus::Active;
                let ghost start = changes@;
                let ghost mapped = self.players@.map_values(|p: (u32, Vec2)| (p.0, target_child));
                let mut k: usize = 0;
                while k < self.players.len()
                    invariant
                        k <= self.players@.len(),
                        self.players@ == old(self).players@,
                        mapped == old(self).players@.map_values(|p: (u32, Vec2)| (p.0, target_child)),
                        changes@ == start + mapped.take(k as int),
                    decreases self.players@.len() - k,
                {
                    let client_id = self.players[k].0;
                    changes.push((client_id, target_child));
                    assert(mapped.take(k as int + 1) =~= mapped.take(k as int).push(mapped[k as int]));
                    k = k + 1;
                }
                assert(mapped.take(mapped.len() as int) =~= mapped);
                return Some(fallback_shard_id);
            }
        }
        if self.children.is_some() {
            let mut children = self.children.take().unwrap();
            let ghost oc = children@;
            let mut r = children[0].commit_child_recursive(target_child, changes);
            if r.is_none() {
                r = children[1].commit_child_recursive(target_child, changes);
            }
            if r.is_none() {
                r = children[2].commit_child_recursive(target_child, changes);
            }
            if r.is_none() {
                r = children[3].commit_child_recursive(target_child, changes);
            }
            self.children = Some(children);
            return r;
        }
        None
    }

    /// Activates the pending shard `target_child_id`. Returns its fallback
    /// shard and, for each of its players, the pair of the player and the
    /// activated shard, or `None` when no pending shard has that identifier
    /// (the tree is then unchanged).
    pub fn commit_child_split(&mut self, target_child_id: u32) -> (res: Option<(u32, Vec<(u32, u32)>)>)
        requires
            old(self).wf(),
        ensures
            final(self).wf(),
            final(self).players_ms() == old(self).players_ms(),
            forall|p: Vec2| #[trigger] final(self).shard_at(p) == old(self).shard_at(p),
            match old(self).commit_result(target_child_id) {
                Some((f, ch)) => res matches Some((g, v)) && g == f && v@ == ch && old(self).committed(
                    *final(self),
                    target_child_id,
                ),
                None => res is None,
            },
            old(self).committed(*final(self), target_child_id),
    {
        let mut changes: Vec<(u32, u32)> = Vec::new();
        let r = self.commit_child_recursive(target_child_id, &mut changes);
        proof {
            lemma_committed_wf(*old(self), *self, target_child_id);
            assert forall|p: Vec2| #[trigger] self.shard_at(p) == old(self).shard_at(p) by {
                lemma_committed_keeps(*old(self), *self, target_child_id, p);
            }
            lemma_committed_keeps(*old(self), *self, target_child_id, Vec2 { x: 0, y: 0 });
        }
        match r {
            Some(fallback_id) => Some((fallback_id, changes)),
            None => None,
        }
    }
}

impl QuadTree {
    /// How many nodes of the tree are the pending shard `target`.
    pub open spec fn pending_count(self, target: u32) -> nat
        decreases self,
    {
        (if self.pending_with_id(target) {
            1nat
        } else {
            0nat
        }) + match self.children {
            Some(c) => if c@.len() == 4 {
                c@[0].pending_count(target) + c@[1].pending_count(target) + c@[2].pending_count(
                    target,
                ) + c@[3].pending_count(target)
            } else {
                0nat
            },
            None => 0nat,
        }
    }
}

proof fn lemma_commit_result_count(t: QuadTree, target: u32)
    ensures
        t.commit_result(target) is Some ==> t.pending_count(target) >= 1,
        t.pending_count(target) == 0 ==> t.commit_result(target) is None,
    decreases t,
{
    if let Some(c) = t.children {
        if c@.len() == 4 {
            lemma_commit_result_count(c@[0], target);
            lemma_commit_result_count(c@[1], target);
            lemma_commit_result_count(c@[2], target);
            lemma_commit_result_count(c@[3], target);
        }
    }
}

proof fn lemma_commit_none_stays(a: QuadTree, b: QuadTree, target: u32)
    requires
        a.committed(b, target) || a == b,
        a.commit_result(target) is None,
    ensures
        b.commit_result(target) is None,
    decreases a,
{
    if a != b {
        if let (Some(c), Some(d)) = (a.children, b.children) {
            lemma_commit_none_stays(c@[0], d@[0], target);
            lemma_commit_none_stays(c@[1], d@[1], target);
            lemma_commit_none_stays(c@[2], d@[2], target);
            lemma_commit_none_stays(c@[3], d@[3], target);
        }
    }
}

/// Committing a pending shard twice: where at most one node is the pending
/// shard `target`, a tree on which its commit was made holds no pending
/// shard `target` any more, so a second commit of it finds nothing.
pub proof fn lemma_second_commit_finds_nothing(a: QuadTree, b: QuadTree, target: u32)
    requires
        a.committed(b, target),
        a.pending_count(target) <= 1,
    ensures
        b.commit_result(target) is None,
    decreases a,
{
    lemma_commit_result_count(a, target);
    if a.commit_result(target) is None {
        lemma_commit_none_stays(a, b, target);
    } else if a.pending_with_id(target) {
        if let Some(c) = a.children {
            if c@.len() == 4 {
                lemma_commit_result_count(c@[0], target);
                lemma_commit_result_count(c@[1], target);
                lemma_commit_result_count(c@[2], target);
                lemma_commit_result_count(c@[3], target);
            }
        }
    } else {
        if let (Some(c), Some(d)) = (a.children, b.children) {
            lemma_commit_result_count(c@[0], target);
            lemma_commit_result_count(c@[1], target);
            lemma_commit_result_count(c@[2], target);
            lemma_commit_result_count(c@[3], target);
            if c@[0].commit_result(target) is Some {
                lemma_second_commit_finds_nothing(c@[0], d@[0], target);
            } else if c@[1].commit_result(target) is Some {
                lemma_commit_none_stays(c@[0], d@[0], target);
                lemma_second_commit_finds_nothing(c@[1], d@[1], target);
            } else if c@[2].commit_result(target) is Some {
                lemma_commit_none_stays(c@[0], d@[0], target);
                lemma_commit_none_stays(c@[1], d@[1], target);
                lemma_second_commit_finds_nothing(c@[2], d@[2], target);
            } else {
                lemma_commit_none_stays(c@[0], d@[0], target);
                lemma_commit_none_stays(c@[1], d@[1], target);
                lemma_commit_none_stays(c@[2], d@[2], target);
                lemma_second_commit_finds_nothing(c@[3], d@[3], target);
            }
        }
    }
}

/// The shard of a point is among the shards near it, for any margin.
pub proof fn lemma_own_shard_is_near(t: QuadTree, pos: Vec2, margin: i32)
    requires
        t.wf(),
        rect_contains(t.bounds, pos),
        0 <= margin,
        2 * margin <= i32::MAX,
        i32::MIN <= pos.x - margin,
        i32::MIN <= pos.y - margin,
    ensures
        t.shard_at(pos) is Some,
        t.shards_meeting(search_square(pos, margin)).contains(t.shard_at(pos)->0),
    decreases t,
{
    lemma_every_point_has_shard(t, pos);
    let sq = search_square(pos, margin);
    assert(rects_intersect(t.bounds, sq));
    match t.children {
        None => {
            assert(t.shards_meeting(sq)[0] == t.shard_at(pos)->0);
        },
        Some(c) => {
            let a = c@[0].shards_meeting(sq);
            let b = c@[1].shards_meeting(sq);
            let d = c@[2].shards_meeting(sq);
            let e = c@[3].shards_meeting(sq);
            let all = a + b + d + e;
            assert(t.shards_meeting(sq) == all);
            let x = t.shard_at(pos)->0;
            if c@[0].shard_at(pos) is Some {
                lemma_own_shard_is_near(c@[0], pos, margin);
                let k = choose|k: int| 0 <= k < a.len() && a[k] == x;
                assert(all[k] == x);
            } else if c@[1].shard_at(pos) is Some {
                lemma_own_shard_is_near(c@[1], pos, margin);
                let k = choose|k: int| 0 <= k < b.len() && b[k] == x;
                assert(all[a.len() + k] == x);
            } else if c@[2].shard_at(pos) is Some {
                lemma_own_shard_is_near(c@[2], pos, margin);
                let k = choose|k: int| 0 <= k < d.len() && d[k] == x;
                assert(all[a.len() + b.len() + k] == x);
            } else {
                lemma_quadrants_partition(t.bounds, pos);
                if rect_contains(c@[3].bounds, pos) {
                    lemma_every_point_has_shard(c@[3], pos);
                } else if rect_contains(c@[0].bounds, pos) {
                    lemma_every_point_has_shard(c@[0], pos);
                } else if rect_contains(c@[1].bounds, pos) {
                    lemma_every_point_has_shard(c@[1], pos);
                } else {
                    lemma_every_point_has_shard(c@[2], pos);
                }
                lemma_own_shard_is_near(c@[3], pos, margin);
                let k = choose|k: int| 0 <= k < e.len() && e[k] == x;
                assert(all[a.len() + b.len() + d.len() + k] == x);
            }
        },
    }
}

} // verus!
