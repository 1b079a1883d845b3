//! What a game server sends to the broker: the messages that register its
//! streams and ask its parent for food, the updates of each player it simulates, and the packing of
//! messages into datagrams no larger than the network allows.
use vstd::prelude::*;
use vstd::string::StringSliceAdditionalSpecFns;
use crate::broker_protocol::{
    BrokerMessage, BrokerMsg, InterShardPayload, ShardPayload, encode_shard_payload, string_to_topic,
    topic_from_bytes,
};
use crate::handoff::{EntityState, EntityStatus, copy_topics};
use crate::spatial::{shard_name, shard_topic};

verus! {

/// The values of a list of messages.
pub open spec fn msgs_view(v: Seq<BrokerMessage>) -> Seq<BrokerMsg> {
    v.map_values(|m: BrokerMessage| m@)
}

/// The request that a shard split from `parent_shard_id` sends it, from the
/// topic of `zone`, for the food of its region `bounds_x`, `bounds_y`,
/// `bounds_w`, `bounds_h` (bit patterns of the `f32` bounds).
pub open spec fn food_takeover_msg(
    parent_shard_id: u32,
    zone: Seq<u8>,
    bounds_x: u32,
    bounds_y: u32,
    bounds_w: u32,
    bounds_h: u32,
) -> BrokerMsg {
    BrokerMsg::InterShardMessage {
        topic_dest: topic_from_bytes(shard_name(parent_shard_id)),
        topic_from: topic_from_bytes(zone),
        payload: encode_shard_payload(
            ShardPayload::FoodTakeoverRequest { bounds_x, bounds_y, bounds_w, bounds_h },
        ),
    }
}

/// The messages a game server sends when a stream to the broker opens: on
/// both streams an empty publication of its topic, which registers the
/// connection as the shard of that topic; on the reliable one, then, the
/// report that the shard is ready and, when this shard was split from
/// another one, the request to that parent for the food of its region.
pub fn stream_ready_messages(
    shard_id: u32,
    parent_shard_id: u32,
    zone: &str,
    bounds_x: u32,
    bounds_y: u32,
    bounds_w: u32,
    bounds_h: u32,
    reliable: bool,
) -> (out: Vec<BrokerMessage>)
    ensures
        msgs_view(out@) == {
            let publish = BrokerMsg::Publish {
                topic: topic_from_bytes(shard_name(shard_id)),
                payload: Seq::empty(),
            };
            if !reliable {
                seq![publish]
            } else if parent_shard_id != shard_id {
                seq![
                    publish,
                    BrokerMsg::ShardReady { shard_id },
                    food_takeover_msg(parent_shard_id, zone.spec_bytes(), bounds_x, bounds_y, bounds_w, bounds_h),
                ]
            } else {
                seq![publish, BrokerMsg::ShardReady { shard_id }]
            }
        },
{
    let mut out: Vec<BrokerMessage> = Vec::new();
    let empty: Vec<u8> = Vec::new();
    out.push(BrokerMessage::Publish { topic: shard_topic(shard_id), payload: empty });
    if reliable {
        out.push(BrokerMessage::ShardReady { shard_id });
        if parent_shard_id != shard_id {
            let req = InterShardPayload::FoodTakeoverRequest { bounds_x, bounds_y, bounds_w, bounds_h };
            out.push(
                BrokerMessage::InterShardMessage {
                    topic_dest: shard_topic(parent_shard_id),
                    topic_from: string_to_topic(zone),
                    payload: req.to_bytes(),
                },
            );
        }
    }
    proof {
        let publish = BrokerMsg::Publish { topic: topic_from_bytes(shard_name(shard_id)), payload: Seq::empty() };
        if !reliable {
            assert(msgs_view(out@) =~= seq![publish]);
        } else if parent_shard_id != shard_id {
            assert(msgs_view(out@) =~= seq![
                publish,
                BrokerMsg::ShardReady { shard_id },
                food_takeover_msg(parent_shard_id, zone.spec_bytes(), bounds_x, bounds_y, bounds_w, bounds_h),
            ]);
        } else {
            assert(msgs_view(out@) =~= seq![publish, BrokerMsg::ShardReady { shard_id }]);
        }
    }
    out
}

/// The updates a game server sends for one of its players, each tick: none
/// for a replica; otherwise its position for the spatial server, then, while
/// a handoff is pending, its position and velocity to each neighbour.
/// Coordinates are the bit patterns of the `f32` values.
pub open spec fn player_update_msgs(
    my_topic: Seq<u8>,
    client_id: u32,
    state: EntityStatus,
    x: u32,
    y: u32,
    vx: u32,
    vy: u32,
) -> Seq<BrokerMsg> {
    let pos = BrokerMsg::PositionUpdate { client_id, x, y };
    let ghost_payload = encode_shard_payload(
        ShardPayload::GhostUpdate { entity_id: client_id, pos_x: x, pos_y: y, vel_x: vx, vel_y: vy },
    );
    match state {
        EntityStatus::Replica => Seq::empty(),
        EntityStatus::Owned => seq![pos],
        EntityStatus::Pending(ts) => seq![pos] + ts.map_values(
            |t: Seq<u8>| BrokerMsg::InterShardMessage { topic_dest: t, topic_from: my_topic, payload: ghost_payload },
        ),
    }
}

/// The updates for one player (see [`player_update_msgs`]).
pub fn player_updates(
    my_topic: &[u8; 32],
    client_id: u32,
    state: &EntityState,
    x: u32,
    y: u32,
    vx: u32,
    vy: u32,
) -> (out: Vec<BrokerMessage>)
    ensures
        msgs_view(out@) == player_update_msgs(my_topic@, client_id, state@, x, y, vx, vy),
{
    let mut out: Vec<BrokerMessage> = Vec::new();
    match state {
        EntityState::Replica => {
            assert(msgs_view(out@) =~= Seq::<BrokerMsg>::empty());
        },
        EntityState::Owned => {
            out.push(BrokerMessage::PositionUpdate { client_id, x, y });
            assert(msgs_view(out@) =~= seq![BrokerMsg::PositionUpdate { client_id, x, y }]);
        },
        EntityState::PendingHandoff { neighbor_topics } => {
            out.push(BrokerMessage::PositionUpdate { client_id, x, y });
            let payload = InterShardPayload::GhostUpdate { entity_id: client_id, pos_x: x, pos_y: y, vel_x: vx, vel_y: vy };

            let ghost ts = neighbor_topics@.map_values(|t: [u8; 32]| t@);
            let ghost pos = BrokerMsg::PositionUpdate { client_id, x, y };
            let topics = copy_topics(neighbor_topics);
            let mut i: usize = 0;
            while i < topics.len()
                invariant
                    i <= topics@.len(),
                    topics@ == neighbor_topics@,
                    ts == neighbor_topics@.map_values(|t: [u8; 32]| t@),
                    payload@ == (ShardPayload::GhostUpdate {
                        entity_id: client_id,
                        pos_x: x,
                        pos_y: y,
                        vel_x: vx,
                        vel_y: vy,
                    }),
                    msgs_view(out@) == seq![pos] + ts.take(i as int).map_values(
                        |t: Seq<u8>| BrokerMsg::InterShardMessage {
                            topic_dest: t,
                            topic_from: my_topic@,
                            payload: encode_shard_payload(payload@),
                        },
                    ),
                decreases topics@.len() - i,
            {
                let ghost before = msgs_view(out@);
                let bytes = payload.to_bytes();
                out.push(BrokerMessage::InterShardMessage { topic_dest: topics[i], topic_from: *my_topic, payload: bytes });
                proof {
                    let f = |t: Seq<u8>| BrokerMsg::InterShardMessage {
                        topic_dest: t,
                        topic_from: my_topic@,
                        payload: encode_shard_payload(payload@),
                    };
                    assert(ts.take(i as int + 1) =~= ts.take(i as int).push(ts[i as int]));
                    assert(ts[i as int] == topics@[i as int]@);
                    assert(msgs_view(out@) =~= before.push(f(ts[i as int])));
                    assert(ts.take(i as int + 1).map_values(f) =~= ts.take(i as int).map_values(f).push(f(ts[i as int])));
                }
                i = i + 1;
            }
            assert(ts.take(ts.len() as int) =~= ts);
        },
    }
    out
}

/// Packs messages into datagrams, as a game server does before sending: a
/// datagram is sent before a message that would take it past `limit` bytes,
/// then the message starts the next one. The result is the datagrams sent
/// so far and the one being filled.
pub open spec fn pack(ms: Seq<Seq<u8>>, limit: nat) -> (Seq<Seq<u8>>, Seq<u8>)
    decreases ms.len(),
{
    if ms.len() == 0 {
        (Seq::empty(), Seq::empty())
    } else {
        let (done, cur) = pack(ms.drop_last(), limit);
        let m = ms.last();
        if cur.len() + m.len() > limit {
            (if cur.len() > 0 { done.push(cur) } else { done }, m)
        } else {
            (done, cur + m)
        }
    }
}

/// The datagrams that carry `ms`: those [`pack`] sends, then the last one
/// when it holds anything.
pub open spec fn datagrams(ms: Seq<Seq<u8>>, limit: nat) -> Seq<Seq<u8>> {
    let (done, cur) = pack(ms, limit);
    if cur.len() > 0 {
        done.push(cur)
    } else {
        done
    }
}

/// All the bytes of a list of byte sequences, in order.
pub open spec fn flatten_bytes(s: Seq<Seq<u8>>) -> Seq<u8>
    decreases s.len(),
{
    if s.len() == 0 {
        Seq::empty()
    } else {
        flatten_bytes(s.drop_last()) + s.last()
    }
}

/// Packs the encoded messages into datagrams of at most `limit` bytes each,
/// a message larger than that travelling alone (see [`datagrams`]).
pub fn pack_datagrams(msgs: &Vec<Vec<u8>>, limit: usize) -> (out: Vec<Vec<u8>>)
    ensures
        out@.map_values(|d: Vec<u8>| d@) == datagrams(msgs@.map_values(|m: Vec<u8>| m@), limit as nat),
{
    let ghost ms = msgs@.map_values(|m: Vec<u8>| m@);
    let mut out: Vec<Vec<u8>> = Vec::new();
    let mut cur: Vec<u8> = Vec::new();
    let mut i: usize = 0;
    while i < msgs.len()
        invariant
            i <= msgs@.len(),
            ms == msgs@.map_values(|m: Vec<u8>| m@),
            (out@.map_values(|d: Vec<u8>| d@), cur@) == pack(ms.take(i as int), limit as nat),
            cur@.len() <= usize::MAX,
        decreases msgs@.len() - i,
    {
        proof {
            assert(ms.take(i as int + 1).drop_last() =~= ms.take(i as int));
            assert(ms.take(i as int + 1).last() == msgs@[i as int]@);
        }
        let m = &msgs[i];
        let too_big = if cur.len() > usize::MAX - m.len() {
            true
        } else {
            cur.len() + m.len() > limit
        };
        assert(too_big == (cur@.len() + m@.len() > limit));
        if too_big {
            if cur.len() > 0 {
                let ghost before = out@.map_values(|d: Vec<u8>| d@);
                let full = cur;
                let ghost full_view = full@;
                out.push(full);
                assert(out@.map_values(|d: Vec<u8>| d@) =~= before.push(full_view));
            }
            cur = Vec::new();
            let mut k: usize = 0;
            while k < m.len()
                invariant
                    k <= m@.len(),
                    cur@ == m@.take(k as int),
                decreases m@.len() - k,
            {
                cur.push(m[k]);
                assert(m@.take(k as int + 1) =~= m@.take(k as int).push(m@[k as int]));
                k = k + 1;
            }
            assert(m@.take(m@.len() as int) =~= m@);
        } else {
            let ghost start = cur@;
            let mut k: usize = 0;
            while k < m.len()
                invariant
                    k <= m@.len(),
                    start.len() + m@.len() <= limit,
                    cur@ == start + m@.take(k as int),
                decreases m@.len() - k,
            {
                cur.push(m[k]);
                assert(m@.take(k as int + 1) =~= m@.take(k as int).push(m@[k as int]));
                assert(start + m@.take(k as int + 1) =~= (start + m@.take(k as int)).push(m@[k as int]));
                k = k + 1;
            }
            assert(m@.take(m@.len() as int) =~= m@);
        }
        i = i + 1;
    }
    assert(ms.take(ms.len() as int) =~= ms);
    if cur.len() > 0 {
        let ghost before = out@.map_values(|d: Vec<u8>| d@);
        let ghost last = cur@;
        out.push(cur);
        assert(out@.map_values(|d: Vec<u8>| d@) =~= before.push(last));
    }
    out
}

/// Packing loses and reorders nothing: the datagrams hold all the bytes of
/// the messages, in order; none of them is empty; and each fits in `limit`
/// bytes unless it is a single message larger than that.
pub proof fn lemma_datagrams_carry_all(ms: Seq<Seq<u8>>, limit: nat)
    ensures
        flatten_bytes(datagrams(ms, limit)) == flatten_bytes(ms),
        forall|j: int| 0 <= j < datagrams(ms, limit).len() ==> #[trigger] datagrams(ms, limit)[j].len() > 0,
        forall|j: int|
            0 <= j < datagrams(ms, limit).len() ==> #[trigger] datagrams(ms, limit)[j].len() <= limit || exists|
                k: int,
            | 0 <= k < ms.len() && ms[k] == datagrams(ms, limit)[j],
{
    lemma_pack(ms, limit);
    let (done, cur) = pack(ms, limit);
    if cur.len() > 0 {
        assert(done.push(cur).drop_last() =~= done);
        assert forall|j: int| 0 <= j < done.push(cur).len() implies #[trigger] done.push(cur)[j].len() > 0 by {
            if j < done.len() {
                assert(done.push(cur)[j] == done[j]);
            }
        }
        assert forall|j: int| 0 <= j < done.push(cur).len() implies #[trigger] done.push(cur)[j].len() <= limit
            || exists|k: int| 0 <= k < ms.len() && ms[k] == done.push(cur)[j] by {
            if j < done.len() {
                assert(done.push(cur)[j] == done[j]);
            }
        }
    } else {
        assert(flatten_bytes(done) + cur =~= flatten_bytes(done));
    }
}

/// What [`pack`] keeps: the bytes so far, datagrams not empty and within the
/// limit or made of one message, and a datagram being filled that is within
/// the limit or one message.
proof fn lemma_pack(ms: Seq<Seq<u8>>, limit: nat)
    ensures
        ({
            let (done, cur) = pack(ms, limit);
            &&& flatten_bytes(done) + cur == flatten_bytes(ms)
            &&& forall|j: int| 0 <= j < done.len() ==> #[trigger] done[j].len() > 0
            &&& forall|j: int|
                0 <= j < done.len() ==> #[trigger] done[j].len() <= limit || exists|k: int|
                    0 <= k < ms.len() && ms[k] == done[j]
            &&& cur.len() <= limit || exists|k: int| 0 <= k < ms.len() && ms[k] == cur
        }),
    decreases ms.len(),
{
    if ms.len() > 0 {
        let prev = ms.drop_last();
        lemma_pack(prev, limit);
        let (done, cur) = pack(prev, limit);
        let m = ms.last();
        assert(ms[ms.len() - 1] == m);
        assert forall|k: int| 0 <= k < prev.len() implies ms[k] == prev[k] by {}
        if cur.len() + m.len() > limit {
            if cur.len() > 0 {
                assert(done.push(cur).drop_last() =~= done);
                assert(flatten_bytes(done.push(cur)) == flatten_bytes(done) + cur);
                assert forall|j: int| 0 <= j < done.push(cur).len() implies #[trigger] done.push(cur)[j].len() > 0 by {
                    if j < done.len() {
                        assert(done.push(cur)[j] == done[j]);
                    }
                }
                assert forall|j: int| 0 <= j < done.push(cur).len() implies #[trigger] done.push(cur)[j].len()
                    <= limit || exists|k: int| 0 <= k < ms.len() && ms[k] == done.push(cur)[j] by {
                    if j < done.len() {
                        assert(done.push(cur)[j] == done[j]);
                        if done[j].len() > limit {
                            let k = choose|k: int| 0 <= k < prev.len() && prev[k] == done[j];
                            assert(ms[k] == done[j]);
                        }
                    } else {
                        if cur.len() > limit {
                            let k = choose|k: int| 0 <= k < prev.len() && prev[k] == cur;
                            assert(ms[k] == cur);
                        }
                    }
                }
                assert(flatten_bytes(done.push(cur)) + m =~= flatten_bytes(ms));
            } else {
                assert(cur =~= Seq::<u8>::empty());
                assert(flatten_bytes(done) + m =~= flatten_bytes(ms));
                assert forall|j: int| 0 <= j < done.len() implies #[trigger] done[j].len() <= limit || exists|k: int|
                    0 <= k < ms.len() && ms[k] == done[j] by {
                    if done[j].len() > limit {
                        let k = choose|k: int| 0 <= k < prev.len() && prev[k] == done[j];
                        assert(ms[k] == done[j]);
                    }
                }
            }
        } else {
            assert(flatten_bytes(done) + (cur + m) =~= flatten_bytes(done) + cur + m);
            assert forall|j: int| 0 <= j < done.len() implies #[trigger] done[j].len() <= limit || exists|k: int|
                0 <= k < ms.len() && ms[k] == done[j] by {
                if done[j].len() > limit {
                    let k = choose|k: int| 0 <= k < prev.len() && prev[k] == done[j];
                    assert(ms[k] == done[j]);
                }
            }
        }
    }
}

} // verus!
