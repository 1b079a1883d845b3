//! The binary protocol spoken with the message broker: one tag byte, then the
//! fields of the message in a fixed little-endian layout.
//!
//! Coordinates travel as IEEE-754 single-precision numbers; the library holds
//! each of them as its 32-bit pattern (the value of `f32::to_bits`), which is
//! exactly what goes on the wire.
use vstd::prelude::*;
use vstd::string::StringSliceAdditionalSpecFns;
use crate::wire::{
    buf_into_vec, buf_new, buf_put_slice, buf_put_u16_le, buf_put_u32_le, buf_put_u8,
    bytes_mut_contents, le_u16_bytes, le_u16_value, le_u32_bytes, le_u32_value, lemma_le_u16_bytes_of_value,
    lemma_le_u16_roundtrip, lemma_le_u32_bytes_of_value, lemma_le_u32_roundtrip, slice_copy_to_array,
    slice_copy_to_vec, slice_get_u16_le, slice_get_u32_le, slice_get_u8,
};

verus! {

pub const TAG_SUBSCRIBE: u8 = 0x01;
pub const TAG_UNSUBSCRIBE: u8 = 0x02;
pub const TAG_PUBLISH: u8 = 0x03;
pub const TAG_BROADCAST: u8 = 0x04;
pub const TAG_CLIENT_INPUT: u8 = 0x05;
pub const TAG_POSITION_UPDATE: u8 = 0x10;
pub const TAG_SHARD_READY: u8 = 0x11;
pub const TAG_CROSSING_ALERT: u8 = 0x25;
pub const TAG_AUTHORITY_SWITCH: u8 = 0x26;
pub const TAG_CROSSING_EXIT: u8 = 0x27;
pub const TAG_INTER_SHARD_MESSAGE: u8 = 0x30;
pub const TAG_HANDOFF_REQUEST: u8 = 0x20;
pub const TAG_GHOST_UPDATE: u8 = 0x23;
pub const TAG_HANDOFF_COMPLETE: u8 = 0x24;
pub const TAG_FOOD_TAKEOVER_REQUEST: u8 = 0x21;

/// A message exchanged with the broker. `x` and `y` of `PositionUpdate` are
/// the bit patterns of the `f32` coordinates.
#[derive(Debug, Clone)]
pub enum BrokerMessage {
    Subscribe { client_id: u32, topic: [u8; 32] },
    Unsubscribe { client_id: u32, topic: [u8; 32] },
    Publish { topic: [u8; 32], payload: Vec<u8> },
    Broadcast { payload: Vec<u8> },
    ClientInput { client_id: u32, input: [u8; 16] },
    PositionUpdate { client_id: u32, x: u32, y: u32 },
    ShardReady { shard_id: u32 },
    CrossingAlert { client_id: u32, dest_authority_topic: [u8; 32], neighbor_topic: [u8; 32] },
    AuthoritySwitch { client_id: u32, old_auth_topic: [u8; 32], new_auth_topic: [u8; 32] },
    CrossingExit { client_id: u32, obsolete_auth_topic: [u8; 32], new_auth_topic: [u8; 32] },
    InterShardMessage { topic_dest: [u8; 32], topic_from: [u8; 32], payload: Vec<u8> },
}

/// The mathematical value of a [`BrokerMessage`]: byte arrays and vectors
/// become sequences.
pub enum BrokerMsg {
    Subscribe { client_id: u32, topic: Seq<u8> },
    Unsubscribe { client_id: u32, topic: Seq<u8> },
    Publish { topic: Seq<u8>, payload: Seq<u8> },
    Broadcast { payload: Seq<u8> },
    ClientInput { client_id: u32, input: Seq<u8> },
    PositionUpdate { client_id: u32, x: u32, y: u32 },
    ShardReady { shard_id: u32 },
    CrossingAlert { client_id: u32, dest_authority_topic: Seq<u8>, neighbor_topic: Seq<u8> },
    AuthoritySwitch { client_id: u32, old_auth_topic: Seq<u8>, new_auth_topic: Seq<u8> },
    CrossingExit { client_id: u32, obsolete_auth_topic: Seq<u8>, new_auth_topic: Seq<u8> },
    InterShardMessage { topic_dest: Seq<u8>, topic_from: Seq<u8>, payload: Seq<u8> },
}

impl View for BrokerMessage {
    type V = BrokerMsg;

    open spec fn view(&self) -> BrokerMsg {
        match self {
            BrokerMessage::Subscribe { client_id, topic } => BrokerMsg::Subscribe {
                client_id: *client_id,
                topic: topic@,
            },
            BrokerMessage::Unsubscribe { client_id, topic } => BrokerMsg::Unsubscribe {
                client_id: *client_id,
                topic: topic@,
            },
            BrokerMessage::Publish { topic, payload } => BrokerMsg::Publish {
                topic: topic@,
                payload: payload@,
            },
            BrokerMessage::Broadcast { payload } => BrokerMsg::Broadcast { payload: payload@ },
            BrokerMessage::ClientInput { client_id, input } => BrokerMsg::ClientInput {
                client_id: *client_id,
                input: input@,
            },
            BrokerMessage::PositionUpdate { client_id, x, y } => BrokerMsg::PositionUpdate {
                client_id: *client_id,
                x: *x,
                y: *y,
            },
            BrokerMessage::ShardReady { shard_id } => BrokerMsg::ShardReady { shard_id: *shard_id },
            BrokerMessage::CrossingAlert { client_id, dest_authority_topic, neighbor_topic } =>
                BrokerMsg::CrossingAlert {
                client_id: *client_id,
                dest_authority_topic: dest_authority_topic@,
                neighbor_topic: neighbor_topic@,
            },
            BrokerMessage::AuthoritySwitch { client_id, old_auth_topic, new_auth_topic } =>
                BrokerMsg::AuthoritySwitch {
                client_id: *client_id,
                old_auth_topic: old_auth_topic@,
                new_auth_topic: new_auth_topic@,
            },
            BrokerMessage::CrossingExit { client_id, obsolete_auth_topic, new_auth_topic } =>
                BrokerMsg::CrossingExit {
                client_id: *client_id,
                obsolete_auth_topic: obsolete_auth_topic@,
                new_auth_topic: new_auth_topic@,
            },
            BrokerMessage::InterShardMessage { topic_dest, topic_from, payload } =>
                BrokerMsg::InterShardMessage {
                topic_dest: topic_dest@,
                topic_from: topic_from@,
                payload: payload@,
            },
        }
    }
}

/// The length prefix written for a payload: its length modulo 2^16.
pub open spec fn len_prefix(payload: Seq<u8>) -> u16 {
    (payload.len() % 65536) as u16
}

/// The bytes that encode a message.
pub open spec fn encode_broker(m: BrokerMsg) -> Seq<u8> {
    match m {
        BrokerMsg::Subscribe { client_id, topic } => seq![TAG_SUBSCRIBE] + le_u32_bytes(client_id)
            + topic,
        BrokerMsg::Unsubscribe { client_id, topic } => seq![TAG_UNSUBSCRIBE] + le_u32_bytes(
            client_id,
        ) + topic,
        BrokerMsg::Publish { topic, payload } => seq![TAG_PUBLISH] + topic + le_u16_bytes(
            len_prefix(payload),
        ) + payload,
        BrokerMsg::Broadcast { payload } => seq![TAG_BROADCAST] + le_u16_bytes(len_prefix(payload))
            + payload,
        BrokerMsg::ClientInput { client_id, input } => seq![TAG_CLIENT_INPUT] + le_u32_bytes(
            client_id,
        ) + input,
        BrokerMsg::PositionUpdate { client_id, x, y } => seq![TAG_POSITION_UPDATE] + le_u32_bytes(
            client_id,
        ) + le_u32_bytes(x) + le_u32_bytes(y),
        BrokerMsg::ShardReady { shard_id } => seq![TAG_SHARD_READY] + le_u32_bytes(shard_id),
        BrokerMsg::CrossingAlert { client_id, dest_authority_topic, neighbor_topic } =>
            seq![TAG_CROSSING_ALERT] + le_u32_bytes(client_id) + dest_authority_topic
            + neighbor_topic,
        BrokerMsg::AuthoritySwitch { client_id, old_auth_topic, new_auth_topic } =>
            seq![TAG_AUTHORITY_SWITCH] + le_u32_bytes(client_id) + old_auth_topic + new_auth_topic,
        BrokerMsg::CrossingExit { client_id, obsolete_auth_topic, new_auth_topic } =>
            seq![TAG_CROSSING_EXIT] + le_u32_bytes(client_id) + obsolete_auth_topic
            + new_auth_topic,
        BrokerMsg::InterShardMessage { topic_dest, topic_from, payload } =>
            seq![TAG_INTER_SHARD_MESSAGE] + topic_dest + topic_from + le_u16_bytes(
            len_prefix(payload),
        ) + payload,
    }
}

/// Reads a payload that follows a two-byte length at the start of `r`.
pub open spec fn parse_sized_payload(r: Seq<u8>) -> Option<Seq<u8>> {
    if r.len() < 2 {
        None
    } else {
        let n = le_u16_value(r) as int;
        if r.len() - 2 < n {
            None
        } else {
            Some(r.subrange(2, 2 + n))
        }
    }
}

/// The message that a byte sequence starts with, if it starts with one.
/// Bytes after the message are ignored.
pub open spec fn parse_broker(d: Seq<u8>) -> Option<BrokerMsg> {
    if d.len() == 0 {
        None
    } else {
        let tag = d[0];
        let r = d.skip(1);
        if tag == TAG_SUBSCRIBE || tag == TAG_UNSUBSCRIBE {
            if r.len() < 36 {
                None
            } else if tag == TAG_SUBSCRIBE {
                Some(BrokerMsg::Subscribe { client_id: le_u32_value(r), topic: r.subrange(4, 36) })
            } else {
                Some(
                    BrokerMsg::Unsubscribe { client_id: le_u32_value(r), topic: r.subrange(4, 36) },
                )
            }
        } else if tag == TAG_PUBLISH {
            if r.len() < 34 {
                None
            } else {
                match parse_sized_payload(r.skip(32)) {
                    Some(p) => Some(BrokerMsg::Publish { topic: r.subrange(0, 32), payload: p }),
                    None => None,
                }
            }
        } else if tag == TAG_BROADCAST {
            match parse_sized_payload(r) {
                Some(p) => Some(BrokerMsg::Broadcast { payload: p }),
                None => None,
            }
        } else if tag == TAG_CLIENT_INPUT {
            if r.len() < 20 {
                None
            } else {
                Some(BrokerMsg::ClientInput { client_id: le_u32_value(r), input: r.subrange(4, 20) })
            }
        } else if tag == TAG_POSITION_UPDATE {
            if r.len() < 12 {
                None
            } else {
                Some(
                    BrokerMsg::PositionUpdate {
                        client_id: le_u32_value(r),
                        x: le_u32_value(r.skip(4)),
                        y: le_u32_value(r.skip(8)),
                    },
                )
            }
        } else if tag == TAG_CROSSING_ALERT || tag == TAG_AUTHORITY_SWITCH || tag
            == TAG_CROSSING_EXIT {
            if r.len() < 68 {
                None
            } else {
                let id = le_u32_value(r);
                let a = r.subrange(4, 36);
                let b = r.subrange(36, 68);
                if tag == TAG_CROSSING_ALERT {
                    Some(
                        BrokerMsg::CrossingAlert {
                            client_id: id,
                            dest_authority_topic: a,
                            neighbor_topic: b,
                        },
                    )
                } else if tag == TAG_AUTHORITY_SWITCH {
                    Some(
                        BrokerMsg::AuthoritySwitch {
                            client_id: id,
                            old_auth_topic: a,
                            new_auth_topic: b,
                        },
                    )
                } else {
                    Some(
                        BrokerMsg::CrossingExit {
                            client_id: id,
                            obsolete_auth_topic: a,
                            new_auth_topic: b,
                        },
                    )
                }
            }
        } else if tag == TAG_INTER_SHARD_MESSAGE {
            if r.len() < 66 {
                None
            } else {
                match parse_sized_payload(r.skip(64)) {
                    Some(p) => Some(
                        BrokerMsg::InterShardMessage {
                            topic_dest: r.subrange(0, 32),
                            topic_from: r.subrange(32, 64),
                            payload: p,
                        },
                    ),
                    None => None,
                }
            }
        } else if tag == TAG_SHARD_READY {
            if r.len() < 4 {
                None
            } else {
                Some(BrokerMsg::ShardReady { shard_id: le_u32_value(r) })
            }
        } else {
            None
        }
    }
}

/// A message whose fields fit the wire layout: topics of 32 bytes, inputs of
/// 16 bytes, and payloads whose length fits the two-byte prefix.
pub open spec fn broker_msg_wf(m: BrokerMsg) -> bool {
    match m {
        BrokerMsg::Subscribe { topic, .. } => topic.len() == 32,
        BrokerMsg::Unsubscribe { topic, .. } => topic.len() == 32,
        BrokerMsg::Publish { topic, payload } => topic.len() == 32 && payload.len() <= 65535,
        BrokerMsg::Broadcast { payload } => payload.len() <= 65535,
        BrokerMsg::ClientInput { input, .. } => input.len() == 16,
        BrokerMsg::PositionUpdate { .. } => true,
        BrokerMsg::ShardReady { .. } => true,
        BrokerMsg::CrossingAlert { dest_authority_topic, neighbor_topic, .. } =>
            dest_authority_topic.len() == 32 && neighbor_topic.len() == 32,
        BrokerMsg::AuthoritySwitch { old_auth_topic, new_auth_topic, .. } => old_auth_topic.len()
            == 32 && new_auth_topic.len() == 32,
        BrokerMsg::CrossingExit { obsolete_auth_topic, new_auth_topic, .. } =>
            obsolete_auth_topic.len() == 32 && new_auth_topic.len() == 32,
        BrokerMsg::InterShardMessage { topic_dest, topic_from, payload } => topic_dest.len() == 32
            && topic_from.len() == 32 && payload.len() <= 65535,
    }
}

impl BrokerMessage {
    /// Serializes the message into its wire bytes.
    pub fn to_bytes(&self) -> (out: Vec<u8>)
        requires
            encode_broker(self@).len() <= isize::MAX,
        ensures
            out@ == encode_broker(self@),
    {
        let mut buf = buf_new();
        match self {
            BrokerMessage::Subscribe { client_id, topic } => {
                buf_put_u8(&mut buf, TAG_SUBSCRIBE);
                buf_put_u32_le(&mut buf, *client_id);
                buf_put_slice(&mut buf, topic.as_slice());
            },
            BrokerMessage::Unsubscribe { client_id, topic } => {
                buf_put_u8(&mut buf, TAG_UNSUBSCRIBE);
                buf_put_u32_le(&mut buf, *client_id);
                buf_put_slice(&mut buf, topic.as_slice());
            },
            BrokerMessage::Publish { topic, payload } => {
                buf_put_u8(&mut buf, TAG_PUBLISH);
                buf_put_slice(&mut buf, topic.as_slice());
                buf_put_u16_le(&mut buf, (payload.len() % 65536) as u16);
                buf_put_slice(&mut buf, payload.as_slice());
            },
            BrokerMessage::Broadcast { payload } => {
                buf_put_u8(&mut buf, TAG_BROADCAST);
                buf_put_u16_le(&mut buf, (payload.len() % 65536) as u16);
                buf_put_slice(&mut buf, payload.as_slice());
            },
            BrokerMessage::ClientInput { client_id, input } => {
                buf_put_u8(&mut buf, TAG_CLIENT_INPUT);
                buf_put_u32_le(&mut buf, *client_id);
                buf_put_slice(&mut buf, input.as_slice());
            },
            BrokerMessage::PositionUpdate { client_id, x, y } => {
                buf_put_u8(&mut buf, TAG_POSITION_UPDATE);
                buf_put_u32_le(&mut buf, *client_id);
                buf_put_u32_le(&mut buf, *x);
                buf_put_u32_le(&mut buf, *y);
            },
            BrokerMessage::CrossingAlert { client_id, dest_authority_topic, neighbor_topic } => {
                buf_put_u8(&mut buf, TAG_CROSSING_ALERT);
                buf_put_u32_le(&mut buf, *client_id);
                buf_put_slice(&mut buf, dest_authority_topic.as_slice());
                buf_put_slice(&mut buf, neighbor_topic.as_slice());
            },
            BrokerMessage::AuthoritySwitch { client_id, old_auth_topic, new_auth_topic } => {
                buf_put_u8(&mut buf, TAG_AUTHORITY_SWITCH);
                buf_put_u32_le(&mut buf, *client_id);
                buf_put_slice(&mut buf, old_auth_topic.as_slice());
                buf_put_slice(&mut buf, new_auth_topic.as_slice());
            },
            BrokerMessage::CrossingExit { client_id, obsolete_auth_topic, new_auth_topic } => {
                buf_put_u8(&mut buf, TAG_CROSSING_EXIT);
                buf_put_u32_le(&mut buf, *client_id);
                buf_put_slice(&mut buf, obsolete_auth_topic.as_slice());
                buf_put_slice(&mut buf, new_auth_topic.as_slice());
            },
            BrokerMessage::InterShardMessage { topic_dest, topic_from, payload } => {
                buf_put_u8(&mut buf, TAG_INTER_SHARD_MESSAGE);
                buf_put_slice(&mut buf, topic_dest.as_slice());
                buf_put_slice(&mut buf, topic_from.as_slice());
                buf_put_u16_le(&mut buf, (payload.len() % 65536) as u16);
                buf_put_slice(&mut buf, payload.as_slice());
            },
            BrokerMessage::ShardReady { shard_id } => {
                buf_put_u8(&mut buf, TAG_SHARD_READY);
                buf_put_u32_le(&mut buf, *shard_id);
            },
        }
        proof {
            assert(bytes_mut_contents(buf) =~= encode_broker(self@));
        }
        buf_into_vec(buf)
    }
}

impl BrokerMessage {
    /// Reads the message at the start of `data`; `None` when the tag is
    /// unknown or the bytes end before the message does.
    pub fn from_bytes(data: &[u8]) -> (res: Option<BrokerMessage>)
        ensures
            match res {
                Some(m) => parse_broker(data@) == Some(m@),
                None => parse_broker(data@) is None,
            },
    {
        if data.len() == 0 {
            return None;
        }
        let mut buf = data;
        let tag = slice_get_u8(&mut buf);
        let ghost r = data@.skip(1);
        assert(buf@ == r);
        if tag == TAG_SUBSCRIBE || tag == TAG_UNSUBSCRIBE {
            if buf.len() < 36 {
                return None;
            }
            let client_id = slice_get_u32_le(&mut buf);
            let topic: [u8; 32] = slice_copy_to_array(&mut buf);
            assert(topic@ =~= r.subrange(4, 36));
            if tag == TAG_SUBSCRIBE {
                Some(BrokerMessage::Subscribe { client_id, topic })
            } else {
                Some(BrokerMessage::Unsubscribe { client_id, topic })
            }
        } else if tag == TAG_PUBLISH {
            if buf.len() < 34 {
                return None;
            }
            let topic: [u8; 32] = slice_copy_to_array(&mut buf);
            assert(topic@ =~= r.subrange(0, 32));
            assert(buf@ =~= r.skip(32));
            let payload_len = slice_get_u16_le(&mut buf) as usize;
            if buf.len() < payload_len {
                return None;
            }
            let payload = slice_copy_to_vec(&mut buf, payload_len);
            assert(payload@ =~= r.skip(32).subrange(2, 2 + payload_len));
            Some(BrokerMessage::Publish { topic, payload })
        } else if tag == TAG_BROADCAST {
            if buf.len() < 2 {
                return None;
            }
            let payload_len = slice_get_u16_le(&mut buf) as usize;
            if buf.len() < payload_len {
                return None;
            }
            let payload = slice_copy_to_vec(&mut buf, payload_len);
            assert(payload@ =~= r.subrange(2, 2 + payload_len));
            Some(BrokerMessage::Broadcast { payload })
        } else if tag == TAG_CLIENT_INPUT {
            if buf.len() < 20 {
                return None;
            }
            let client_id = slice_get_u32_le(&mut buf);
            let input: [u8; 16] = slice_copy_to_array(&mut buf);
            assert(input@ =~= r.subrange(4, 20));
            Some(BrokerMessage::ClientInput { client_id, input })
        } else if tag == TAG_POSITION_UPDATE {
            if buf.len() < 12 {
                return None;
            }
            let client_id = slice_get_u32_le(&mut buf);
            assert(buf@ =~= r.skip(4));
            let x = slice_get_u32_le(&mut buf);
            assert(buf@ =~= r.skip(8));
            let y = slice_get_u32_le(&mut buf);
            Some(BrokerMessage::PositionUpdate { client_id, x, y })
        } else if tag == TAG_CROSSING_ALERT || tag == TAG_AUTHORITY_SWITCH || tag
            == TAG_CROSSING_EXIT {
            if buf.len() < 68 {
                return None;
            }
            let client_id = slice_get_u32_le(&mut buf);
            let a: [u8; 32] = slice_copy_to_array(&mut buf);
            assert(a@ =~= r.subrange(4, 36));
            let b: [u8; 32] = slice_copy_to_array(&mut buf);
            assert(b@ =~= r.subrange(36, 68));
            if tag == TAG_CROSSING_ALERT {
                Some(
                    BrokerMessage::CrossingAlert {
                        client_id,
                        dest_authority_topic: a,
                        neighbor_topic: b,
                    },
                )
            } else if tag == TAG_AUTHORITY_SWITCH {
                Some(
                    BrokerMessage::AuthoritySwitch {
                        client_id,
                        old_auth_topic: a,
                        new_auth_topic: b,
                    },
                )
            } else {
                Some(
                    BrokerMessage::CrossingExit {
                        client_id,
                        obsolete_auth_topic: a,
                        new_auth_topic: b,
                    },
                )
            }
        } else if tag == TAG_INTER_SHARD_MESSAGE {
            if buf.len() < 66 {
                return None;
            }
            let topic_dest: [u8; 32] = slice_copy_to_array(&mut buf);
            assert(topic_dest@ =~= r.subrange(0, 32));
            let topic_from: [u8; 32] = slice_copy_to_array(&mut buf);
            assert(topic_from@ =~= r.subrange(32, 64));
            assert(buf@ =~= r.skip(64));
            let payload_len = slice_get_u16_le(&mut buf) as usize;
            if buf.len() < payload_len {
                return None;
            }
            let payload = slice_copy_to_vec(&mut buf, payload_len);
            assert(payload@ =~= r.skip(64).subrange(2, 2 + payload_len));
            Some(BrokerMessage::InterShardMessage { topic_dest, topic_from, payload })
        } else if tag == TAG_SHARD_READY {
            if buf.len() < 4 {
                return None;
            }
            let shard_id = slice_get_u32_le(&mut buf);
            Some(BrokerMessage::ShardReady { shard_id })
        } else {
            None
        }
    }
}

/// Reading a length-prefixed payload back from its encoding, followed by any
/// bytes, gives the payload.
proof fn lemma_sized_payload_roundtrip(p: Seq<u8>, rest: Seq<u8>)
    requires
        p.len() <= 65535,
    ensures
        parse_sized_payload(le_u16_bytes(len_prefix(p)) + p + rest) == Some(p),
{
    lemma_le_u16_roundtrip(len_prefix(p));
    let e = le_u16_bytes(len_prefix(p)) + p + rest;
    assert(le_u16_value(e) == le_u16_value(le_u16_bytes(len_prefix(p))));
    assert(e.subrange(2, 2 + p.len() as int) =~= p);
}

/// A payload read back is short enough for the prefix, and its prefix and
/// bytes are how the read began.
proof fn lemma_sized_payload_prefix(r: Seq<u8>)
    ensures
        parse_sized_payload(r) matches Some(p) ==> p.len() <= 65535 && le_u16_bytes(len_prefix(p))
            + p == r.take(2 + p.len() as int),
{
    if let Some(p) = parse_sized_payload(r) {
        lemma_le_u16_bytes_of_value(r.take(2));
        assert(le_u16_value(r.take(2)) == le_u16_value(r));
        assert(le_u16_bytes(len_prefix(p)) + p =~= r.take(2 + p.len() as int));
    }
}

/// Decoding the bytes of a well-formed message gives back the message.
pub proof fn lemma_broker_decode_encode(m: BrokerMsg)
    requires
        broker_msg_wf(m),
    ensures
        parse_broker(encode_broker(m)) == Some(m),
{
    let e = encode_broker(m);
    let r = e.skip(1);
    match m {
        BrokerMsg::Subscribe { client_id, topic } => {
            lemma_le_u32_roundtrip(client_id);
            assert(r =~= le_u32_bytes(client_id) + topic);
            assert(le_u32_value(r) == le_u32_value(le_u32_bytes(client_id)));
            assert(r.subrange(4, 36) =~= topic);
        },
        BrokerMsg::Unsubscribe { client_id, topic } => {
            lemma_le_u32_roundtrip(client_id);
            assert(r =~= le_u32_bytes(client_id) + topic);
            assert(le_u32_value(r) == le_u32_value(le_u32_bytes(client_id)));
            assert(r.subrange(4, 36) =~= topic);
        },
        BrokerMsg::Publish { topic, payload } => {
            assert(r =~= topic + (le_u16_bytes(len_prefix(payload)) + payload));
            assert(r.subrange(0, 32) =~= topic);
            assert(r.skip(32) =~= le_u16_bytes(len_prefix(payload)) + payload + Seq::<u8>::empty());
            lemma_sized_payload_roundtrip(payload, Seq::<u8>::empty());
        },
        BrokerMsg::Broadcast { payload } => {
            assert(r =~= le_u16_bytes(len_prefix(payload)) + payload + Seq::<u8>::empty());
            lemma_sized_payload_roundtrip(payload, Seq::<u8>::empty());
        },
        BrokerMsg::ClientInput { client_id, input } => {
            lemma_le_u32_roundtrip(client_id);
            assert(r =~= le_u32_bytes(client_id) + input);
            assert(le_u32_value(r) == le_u32_value(le_u32_bytes(client_id)));
            assert(r.subrange(4, 20) =~= input);
        },
        BrokerMsg::PositionUpdate { client_id, x, y } => {
            lemma_le_u32_roundtrip(client_id);
            lemma_le_u32_roundtrip(x);
            lemma_le_u32_roundtrip(y);
            assert(r =~= le_u32_bytes(client_id) + le_u32_bytes(x) + le_u32_bytes(y));
            assert(le_u32_value(r) == le_u32_value(le_u32_bytes(client_id)));
            assert(r.skip(4) =~= le_u32_bytes(x) + le_u32_bytes(y));
            assert(le_u32_value(r.skip(4)) == le_u32_value(le_u32_bytes(x)));
            assert(r.skip(8) =~= le_u32_bytes(y));
        },
        BrokerMsg::ShardReady { shard_id } => {
            lemma_le_u32_roundtrip(shard_id);
            assert(r =~= le_u32_bytes(shard_id));
        },
        BrokerMsg::CrossingAlert { client_id, dest_authority_topic, neighbor_topic } => {
            lemma_le_u32_roundtrip(client_id);
            assert(r =~= le_u32_bytes(client_id) + dest_authority_topic + neighbor_topic);
            assert(le_u32_value(r) == le_u32_value(le_u32_bytes(client_id)));
            assert(r.subrange(4, 36) =~= dest_authority_topic);
            assert(r.subrange(36, 68) =~= neighbor_topic);
        },
        BrokerMsg::AuthoritySwitch { client_id, old_auth_topic, new_auth_topic } => {
            lemma_le_u32_roundtrip(client_id);
            assert(r =~= le_u32_bytes(client_id) + old_auth_topic + new_auth_topic);
            assert(le_u32_value(r) == le_u32_value(le_u32_bytes(client_id)));
            assert(r.subrange(4, 36) =~= old_auth_topic);
            assert(r.subrange(36, 68) =~= new_auth_topic);
        },
        BrokerMsg::CrossingExit { client_id, obsolete_auth_topic, new_auth_topic } => {
            lemma_le_u32_roundtrip(client_id);
            assert(r =~= le_u32_bytes(client_id) + obsolete_auth_topic + new_auth_topic);
            assert(le_u32_value(r) == le_u32_value(le_u32_bytes(client_id)));
            assert(r.subrange(4, 36) =~= obsolete_auth_topic);
            assert(r.subrange(36, 68) =~= new_auth_topic);
        },
        BrokerMsg::InterShardMessage { topic_dest, topic_from, payload } => {
            assert(r =~= topic_dest + topic_from + (le_u16_bytes(len_prefix(payload)) + payload));
            assert(r.subrange(0, 32) =~= topic_dest);
            assert(r.subrange(32, 64) =~= topic_from);
            assert(r.skip(64) =~= le_u16_bytes(len_prefix(payload)) + payload + Seq::<u8>::empty());
            lemma_sized_payload_roundtrip(payload, Seq::<u8>::empty());
        },
    }
}

/// A message read from bytes is well formed, and encoding it gives exactly
/// the bytes it was read from (the bytes that follow it are not part of it).
#[verifier::rlimit(100)]
#[verifier::spinoff_prover]
pub proof fn lemma_broker_encode_decode(d: Seq<u8>)
    ensures
        parse_broker(d) matches Some(m) ==> broker_msg_wf(m) && encode_broker(m) == d.take(
            encode_broker(m).len() as int,
        ),
{
    if let Some(m) = parse_broker(d) {
        let r = d.skip(1);
        if r.len() >= 4 {
            lemma_le_u32_bytes_of_value(r.take(4));
            assert(le_u32_value(r.take(4)) == le_u32_value(r));
        }
        let e = encode_broker(m);
        match m {
            BrokerMsg::Subscribe { client_id, topic } => {
                assert(e =~= d.take(37));
            },
            BrokerMsg::Unsubscribe { client_id, topic } => {
                assert(e =~= d.take(37));
            },
            BrokerMsg::ClientInput { client_id, input } => {
                assert(e =~= d.take(21));
            },
            BrokerMsg::ShardReady { shard_id } => {
                assert(e =~= d.take(5));
            },
            BrokerMsg::CrossingAlert { client_id, dest_authority_topic, neighbor_topic } => {
                assert(e =~= d.take(69));
            },
            BrokerMsg::AuthoritySwitch { client_id, old_auth_topic, new_auth_topic } => {
                assert(e =~= d.take(69));
            },
            BrokerMsg::CrossingExit { client_id, obsolete_auth_topic, new_auth_topic } => {
                assert(e =~= d.take(69));
            },
            BrokerMsg::PositionUpdate { client_id, x, y } => {
                lemma_le_u32_bytes_of_value(r.skip(4).take(4));
                assert(le_u32_value(r.skip(4).take(4)) == le_u32_value(r.skip(4)));
                lemma_le_u32_bytes_of_value(r.skip(8).take(4));
                assert(le_u32_value(r.skip(8).take(4)) == le_u32_value(r.skip(8)));
                assert(e =~= d.take(13));
            },
            BrokerMsg::Publish { topic, payload } => {
                lemma_sized_payload_prefix(r.skip(32));
                assert(e =~= d.take(e.len() as int));
            },
            BrokerMsg::Broadcast { payload } => {
                lemma_sized_payload_prefix(r);
                assert(e =~= d.take(e.len() as int));
            },
            BrokerMsg::InterShardMessage { topic_dest, topic_from, payload } => {
                lemma_sized_payload_prefix(r.skip(64));
                assert(e =~= d.take(e.len() as int));
            },
        }
    }
}

/// State exchanged between neighbouring shards while an entity is handed
/// from one to the other, and the request of a new shard to its parent for
/// the food of its region. Positions, velocities and bounds are `f32` bit
/// patterns.
#[derive(Debug, Clone)]
pub enum InterShardPayload {
    HandoffRequest {
        entity_id: u32,
        pos_x: u32,
        pos_y: u32,
        vel_x: u32,
        vel_y: u32,
        state: [u8; 64],
    },
    GhostUpdate { entity_id: u32, pos_x: u32, pos_y: u32, vel_x: u32, vel_y: u32 },
    HandoffComplete { entity_id: u32 },
    FoodTakeoverRequest { bounds_x: u32, bounds_y: u32, bounds_w: u32, bounds_h: u32 },
}

/// The mathematical value of an [`InterShardPayload`].
pub enum ShardPayload {
    HandoffRequest {
        entity_id: u32,
        pos_x: u32,
        pos_y: u32,
        vel_x: u32,
        vel_y: u32,
        state: Seq<u8>,
    },
    GhostUpdate { entity_id: u32, pos_x: u32, pos_y: u32, vel_x: u32, vel_y: u32 },
    HandoffComplete { entity_id: u32 },
    FoodTakeoverRequest { bounds_x: u32, bounds_y: u32, bounds_w: u32, bounds_h: u32 },
}

impl View for InterShardPayload {
    type V = ShardPayload;

    open spec fn view(&self) -> ShardPayload {
        match self {
            InterShardPayload::HandoffRequest { entity_id, pos_x, pos_y, vel_x, vel_y, state } =>
                ShardPayload::HandoffRequest {
                entity_id: *entity_id,
                pos_x: *pos_x,
                pos_y: *pos_y,
                vel_x: *vel_x,
                vel_y: *vel_y,
                state: state@,
            },
            InterShardPayload::GhostUpdate { entity_id, pos_x, pos_y, vel_x, vel_y } =>
                ShardPayload::GhostUpdate {
                entity_id: *entity_id,
                pos_x: *pos_x,
                pos_y: *pos_y,
                vel_x: *vel_x,
                vel_y: *vel_y,
            },
            InterShardPayload::HandoffComplete { entity_id } => ShardPayload::HandoffComplete {
                entity_id: *entity_id,
            },
            InterShardPayload::FoodTakeoverRequest { bounds_x, bounds_y, bounds_w, bounds_h } =>
                ShardPayload::FoodTakeoverRequest {
                bounds_x: *bounds_x,
                bounds_y: *bounds_y,
                bounds_w: *bounds_w,
                bounds_h: *bounds_h,
            },
        }
    }
}

/// Four `u32` fields, one after the other.
pub open spec fn le_u32x4_bytes(a: u32, b: u32, c: u32, d: u32) -> Seq<u8> {
    le_u32_bytes(a) + le_u32_bytes(b) + le_u32_bytes(c) + le_u32_bytes(d)
}

/// The bytes that encode an inter-shard payload.
pub open spec fn encode_shard_payload(p: ShardPayload) -> Seq<u8> {
    match p {
        ShardPayload::HandoffRequest { entity_id, pos_x, pos_y, vel_x, vel_y, state } =>
            seq![TAG_HANDOFF_REQUEST] + le_u32_bytes(entity_id) + le_u32x4_bytes(
            pos_x,
            pos_y,
            vel_x,
            vel_y,
        ) + state,
        ShardPayload::GhostUpdate { entity_id, pos_x, pos_y, vel_x, vel_y } =>
            seq![TAG_GHOST_UPDATE] + le_u32_bytes(entity_id) + le_u32x4_bytes(
            pos_x,
            pos_y,
            vel_x,
            vel_y,
        ),
        ShardPayload::HandoffComplete { entity_id } => seq![TAG_HANDOFF_COMPLETE] + le_u32_bytes(
            entity_id,
        ),
        ShardPayload::FoodTakeoverRequest { bounds_x, bounds_y, bounds_w, bounds_h } =>
            seq![TAG_FOOD_TAKEOVER_REQUEST] + le_u32x4_bytes(bounds_x, bounds_y, bounds_w, bounds_h),
    }
}

/// The inter-shard payload that a byte sequence starts with, if any.
pub open spec fn parse_shard_payload(d: Seq<u8>) -> Option<ShardPayload> {
    if d.len() == 0 {
        None
    } else {
        let tag = d[0];
        let r = d.skip(1);
        if tag == TAG_HANDOFF_REQUEST {
            if r.len() < 84 {
                None
            } else {
                Some(
                    ShardPayload::HandoffRequest {
                        entity_id: le_u32_value(r),
                        pos_x: le_u32_value(r.skip(4)),
                        pos_y: le_u32_value(r.skip(8)),
                        vel_x: le_u32_value(r.skip(12)),
                        vel_y: le_u32_value(r.skip(16)),
                        state: r.subrange(20, 84),
                    },
                )
            }
        } else if tag == TAG_GHOST_UPDATE {
            if r.len() < 20 {
                None
            } else {
                Some(
                    ShardPayload::GhostUpdate {
                        entity_id: le_u32_value(r),
                        pos_x: le_u32_value(r.skip(4)),
                        pos_y: le_u32_value(r.skip(8)),
                        vel_x: le_u32_value(r.skip(12)),
                        vel_y: le_u32_value(r.skip(16)),
                    },
                )
            }
        } else if tag == TAG_HANDOFF_COMPLETE {
            if r.len() < 4 {
                None
            } else {
                Some(ShardPayload::HandoffComplete { entity_id: le_u32_value(r) })
            }
        } else if tag == TAG_FOOD_TAKEOVER_REQUEST {
            if r.len() < 16 {
                None
            } else {
                Some(
                    ShardPayload::FoodTakeoverRequest {
                        bounds_x: le_u32_value(r),
                        bounds_y: le_u32_value(r.skip(4)),
                        bounds_w: le_u32_value(r.skip(8)),
                        bounds_h: le_u32_value(r.skip(12)),
                    },
                )
            }
        } else {
            None
        }
    }
}

/// A payload whose entity state fits its 64 bytes.
pub open spec fn shard_payload_wf(p: ShardPayload) -> bool {
    match p {
        ShardPayload::HandoffRequest { state, .. } => state.len() == 64,
        _ => true,
    }
}

impl InterShardPayload {
    /// Serializes the payload into its wire bytes.
    pub fn to_bytes(&self) -> (out: Vec<u8>)
        ensures
            out@ == encode_shard_payload(self@),
    {
        let mut buf = buf_new();
        match self {
            InterShardPayload::HandoffRequest { entity_id, pos_x, pos_y, vel_x, vel_y, state } => {
                buf_put_u8(&mut buf, TAG_HANDOFF_REQUEST);
                buf_put_u32_le(&mut buf, *entity_id);
                buf_put_u32_le(&mut buf, *pos_x);
                buf_put_u32_le(&mut buf, *pos_y);
                buf_put_u32_le(&mut buf, *vel_x);
                buf_put_u32_le(&mut buf, *vel_y);
                buf_put_slice(&mut buf, state.as_slice());
            },
            InterShardPayload::GhostUpdate { entity_id, pos_x, pos_y, vel_x, vel_y } => {
                buf_put_u8(&mut buf, TAG_GHOST_UPDATE);
                buf_put_u32_le(&mut buf, *entity_id);
                buf_put_u32_le(&mut buf, *pos_x);
                buf_put_u32_le(&mut buf, *pos_y);
                buf_put_u32_le(&mut buf, *vel_x);
                buf_put_u32_le(&mut buf, *vel_y);
            },
            InterShardPayload::HandoffComplete { entity_id } => {
                buf_put_u8(&mut buf, TAG_HANDOFF_COMPLETE);
                buf_put_u32_le(&mut buf, *entity_id);
            },
            InterShardPayload::FoodTakeoverRequest { bounds_x, bounds_y, bounds_w, bounds_h } => {
                buf_put_u8(&mut buf, TAG_FOOD_TAKEOVER_REQUEST);
                buf_put_u32_le(&mut buf, *bounds_x);
                buf_put_u32_le(&mut buf, *bounds_y);
                buf_put_u32_le(&mut buf, *bounds_w);
                buf_put_u32_le(&mut buf, *bounds_h);
            },
        }
        proof {
            assert(bytes_mut_contents(buf) =~= encode_shard_payload(self@));
        }
        buf_into_vec(buf)
    }

    /// Reads the payload at the start of `data`; `None` when the tag is
    /// unknown or the bytes end too early.
    pub fn from_bytes(data: &[u8]) -> (res: Option<InterShardPayload>)
        ensures
            match res {
                Some(p) => parse_shard_payload(data@) == Some(p@),
                None => parse_shard_payload(data@) is None,
            },
    {
        if data.len() == 0 {
            return None;
        }
        let mut buf = data;
        let tag = slice_get_u8(&mut buf);
        let ghost r = data@.skip(1);
        assert(buf@ == r);
        if tag == TAG_HANDOFF_REQUEST || tag == TAG_GHOST_UPDATE {
            if tag == TAG_HANDOFF_REQUEST && buf.len() < 84 {
                return None;
            }
            if buf.len() < 20 {
                return None;
            }
            let entity_id = slice_get_u32_le(&mut buf);
            assert(buf@ =~= r.skip(4));
            let pos_x = slice_get_u32_le(&mut buf);
            assert(buf@ =~= r.skip(8));
            let pos_y = slice_get_u32_le(&mut buf);
            assert(buf@ =~= r.skip(12));
            let vel_x = slice_get_u32_le(&mut buf);
            assert(buf@ =~= r.skip(16));
            let vel_y = slice_get_u32_le(&mut buf);
            if tag == TAG_HANDOFF_REQUEST {
                let state: [u8; 64] = slice_copy_to_array(&mut buf);
                assert(state@ =~= r.subrange(20, 84));
                Some(InterShardPayload::HandoffRequest { entity_id, pos_x, pos_y, vel_x, vel_y, state })
            } else {
                Some(InterShardPayload::GhostUpdate { entity_id, pos_x, pos_y, vel_x, vel_y })
            }
        } else if tag == TAG_HANDOFF_COMPLETE {
            if buf.len() < 4 {
                return None;
            }
            let entity_id = slice_get_u32_le(&mut buf);
            Some(InterShardPayload::HandoffComplete { entity_id })
        } else if tag == TAG_FOOD_TAKEOVER_REQUEST {
            if buf.len() < 16 {
                return None;
            }
            let bounds_x = slice_get_u32_le(&mut buf);
            assert(buf@ =~= r.skip(4));
            let bounds_y = slice_get_u32_le(&mut buf);
            assert(buf@ =~= r.skip(8));
            let bounds_w = slice_get_u32_le(&mut buf);
            assert(buf@ =~= r.skip(12));
            let bounds_h = slice_get_u32_le(&mut buf);
            Some(InterShardPayload::FoodTakeoverRequest { bounds_x, bounds_y, bounds_w, bounds_h })
        } else {
            None
        }
    }
}

/// An integer written after `pre` and before `rest` is read back at the
/// offset of its bytes.
proof fn lemma_u32_read_back(pre: Seq<u8>, x: u32, rest: Seq<u8>)
    ensures
        le_u32_value((pre + le_u32_bytes(x) + rest).skip(pre.len() as int)) == x,
{
    lemma_le_u32_roundtrip(x);
    let s = (pre + le_u32_bytes(x) + rest).skip(pre.len() as int);
    assert(s =~= le_u32_bytes(x) + rest);
    assert(le_u32_value(s) == le_u32_value(le_u32_bytes(x)));
}

/// Five integers written one after the other, followed by `rest`, are read
/// back at offsets 0, 4, 8, 12 and 16, and `rest` follows them.
proof fn lemma_u32x5_read_back(a: u32, b: u32, c: u32, d: u32, e: u32, rest: Seq<u8>)
    ensures
        ({
            let s = le_u32_bytes(a) + le_u32x4_bytes(b, c, d, e) + rest;
            &&& le_u32_value(s) == a
            &&& le_u32_value(s.skip(4)) == b
            &&& le_u32_value(s.skip(8)) == c
            &&& le_u32_value(s.skip(12)) == d
            &&& le_u32_value(s.skip(16)) == e
            &&& s.skip(20) == rest
        }),
{
    let b0 = le_u32_bytes(a);
    let b1 = le_u32_bytes(b);
    let b2 = le_u32_bytes(c);
    let b3 = le_u32_bytes(d);
    let b4 = le_u32_bytes(e);
    let s = b0 + le_u32x4_bytes(b, c, d, e) + rest;
    assert(s =~= Seq::empty() + b0 + (b1 + b2 + b3 + b4 + rest)) by {
        assert(s =~= b0 + b1 + b2 + b3 + b4 + rest);
    }
    lemma_u32_read_back(Seq::empty(), a, b1 + b2 + b3 + b4 + rest);
    assert(s =~= b0 + b1 + (b2 + b3 + b4 + rest));
    lemma_u32_read_back(b0, b, b2 + b3 + b4 + rest);
    assert(s =~= (b0 + b1) + b2 + (b3 + b4 + rest));
    lemma_u32_read_back(b0 + b1, c, b3 + b4 + rest);
    assert(s =~= (b0 + b1 + b2) + b3 + (b4 + rest));
    lemma_u32_read_back(b0 + b1 + b2, d, b4 + rest);
    assert(s =~= (b0 + b1 + b2 + b3) + b4 + rest);
    lemma_u32_read_back(b0 + b1 + b2 + b3, e, rest);
    assert(s.skip(20) =~= rest);
}

/// Four integers written one after the other are read back at offsets 0,
/// 4, 8 and 12.
proof fn lemma_u32x4_read_back(a: u32, b: u32, c: u32, d: u32)
    ensures
        ({
            let s = le_u32x4_bytes(a, b, c, d);
            &&& le_u32_value(s) == a
            &&& le_u32_value(s.skip(4)) == b
            &&& le_u32_value(s.skip(8)) == c
            &&& le_u32_value(s.skip(12)) == d
        }),
{
    let b0 = le_u32_bytes(a);
    let b1 = le_u32_bytes(b);
    let b2 = le_u32_bytes(c);
    let b3 = le_u32_bytes(d);
    let s = le_u32x4_bytes(a, b, c, d);
    assert(s =~= Seq::<u8>::empty() + b0 + (b1 + b2 + b3));
    lemma_u32_read_back(Seq::<u8>::empty(), a, b1 + b2 + b3);
    assert(s =~= b0 + b1 + (b2 + b3));
    lemma_u32_read_back(b0, b, b2 + b3);
    assert(s =~= (b0 + b1) + b2 + b3);
    lemma_u32_read_back(b0 + b1, c, b3);
    assert(s =~= (b0 + b1 + b2) + b3 + Seq::<u8>::empty());
    lemma_u32_read_back(b0 + b1 + b2, d, Seq::<u8>::empty());
}

/// Decoding the bytes of a well-formed inter-shard payload gives it back.
pub proof fn lemma_shard_payload_decode_encode(p: ShardPayload)
    requires
        shard_payload_wf(p),
    ensures
        parse_shard_payload(encode_shard_payload(p)) == Some(p),
{
    let e = encode_shard_payload(p);
    let r = e.skip(1);
    match p {
        ShardPayload::HandoffRequest { entity_id, pos_x, pos_y, vel_x, vel_y, state } => {
            assert(r =~= le_u32_bytes(entity_id) + le_u32x4_bytes(pos_x, pos_y, vel_x, vel_y)
                + state);
            lemma_u32x5_read_back(entity_id, pos_x, pos_y, vel_x, vel_y, state);
            assert(r.subrange(20, 84) =~= r.skip(20));
        },
        ShardPayload::GhostUpdate { entity_id, pos_x, pos_y, vel_x, vel_y } => {
            assert(r =~= le_u32_bytes(entity_id) + le_u32x4_bytes(pos_x, pos_y, vel_x, vel_y)
                + Seq::<u8>::empty());
            lemma_u32x5_read_back(entity_id, pos_x, pos_y, vel_x, vel_y, Seq::<u8>::empty());
        },
        ShardPayload::HandoffComplete { entity_id } => {
            lemma_le_u32_roundtrip(entity_id);
            assert(r =~= le_u32_bytes(entity_id));
        },
        ShardPayload::FoodTakeoverRequest { bounds_x, bounds_y, bounds_w, bounds_h } => {
            assert(r =~= le_u32x4_bytes(bounds_x, bounds_y, bounds_w, bounds_h));
            lemma_u32x4_read_back(bounds_x, bounds_y, bounds_w, bounds_h);
        },
    }
}

/// Four bytes at offset `k` of `r` are the encoding of the integer read there.
proof fn lemma_u32_at(r: Seq<u8>, k: int)
    requires
        0 <= k,
        k + 4 <= r.len(),
    ensures
        le_u32_bytes(le_u32_value(r.skip(k))) == r.subrange(k, k + 4),
{
    lemma_le_u32_bytes_of_value(r.subrange(k, k + 4));
    assert(le_u32_value(r.subrange(k, k + 4)) == le_u32_value(r.skip(k)));
}

/// An inter-shard payload read from bytes is well formed, and encoding it
/// gives exactly the bytes it was read from.
pub proof fn lemma_shard_payload_encode_decode(d: Seq<u8>)
    ensures
        parse_shard_payload(d) matches Some(p) ==> shard_payload_wf(p) && encode_shard_payload(p)
            == d.take(encode_shard_payload(p).len() as int),
{
    if let Some(p) = parse_shard_payload(d) {
        let r = d.skip(1);
        let e = encode_shard_payload(p);
        lemma_u32_at(r, 0);
        if r.len() >= 16 {
            lemma_u32_at(r, 4);
            lemma_u32_at(r, 8);
            lemma_u32_at(r, 12);
        }
        if r.len() >= 20 {
            lemma_u32_at(r, 16);
        }
        match p {
            ShardPayload::HandoffRequest { .. } => {
                assert(e =~= d.take(85));
            },
            ShardPayload::GhostUpdate { .. } => {
                assert(e =~= d.take(21));
            },
            ShardPayload::HandoffComplete { .. } => {
                assert(e =~= d.take(5));
            },
            ShardPayload::FoodTakeoverRequest { .. } => {
                assert(e =~= d.take(17));
            },
        }
    }
}

/// A topic of 32 bytes built from a name: its first 32 bytes, then zeros.
pub open spec fn topic_from_bytes(b: Seq<u8>) -> Seq<u8> {
    Seq::new(32, |i: int| if i < b.len() { b[i] } else { 0u8 })
}

/// The bytes before the trailing zero bytes.
pub open spec fn trim_trailing_zeros(b: Seq<u8>) -> Seq<u8>
    decreases b.len(),
{
    if b.len() > 0 && b.last() == 0 {
        trim_trailing_zeros(b.drop_last())
    } else {
        b
    }
}

/// The characters that `String::from_utf8_lossy` makes of a byte sequence.
pub uninterp spec fn utf8_lossy_chars(bytes: Seq<u8>) -> Seq<char>;

/// `String::from_utf8_lossy` followed by conversion to an owned `String`.
/// Stated: the result is the named decoding of the bytes, and for valid UTF-8
/// it is the plain decoding. Left unsaid: which replacement characters stand
/// for invalid sequences.
#[verifier::external_body]
pub(crate) fn utf8_lossy(bytes: &[u8]) -> (s: String)
    ensures
        s@ == utf8_lossy_chars(bytes@),
        vstd::utf8::valid_utf8(bytes@) ==> s@ == vstd::utf8::decode_utf8(bytes@),
{
    String::from_utf8_lossy(bytes).to_string()
}

/// Bytes that do not end in a zero, followed by zeros, lose exactly those zeros.
proof fn lemma_trim_padded(b: Seq<u8>, k: nat)
    requires
        b.len() == 0 || b.last() != 0,
    ensures
        trim_trailing_zeros(b + Seq::new(k, |i: int| 0u8)) == b,
    decreases k,
{
    let z = Seq::new(k, |i: int| 0u8);
    if k == 0 {
        assert(b + z =~= b);
    } else {
        let z1 = Seq::new((k - 1) as nat, |i: int| 0u8);
        assert((b + z).drop_last() =~= b + z1);
        assert((b + z).last() == 0u8);
        lemma_trim_padded(b, (k - 1) as nat);
    }
}

/// A topic holding the first 32 of `bytes`, then zeros.
pub fn topic_from_slice(bytes: &[u8]) -> (topic: [u8; 32])
    ensures
        topic@ == topic_from_bytes(bytes@),
{
    let mut topic = [0u8; 32];
    let len = if bytes.len() < 32 { bytes.len() } else { 32 };
    let mut i: usize = 0;
    while i < len
        invariant
            len <= 32,
            len <= bytes@.len(),
            len == 32 || len == bytes@.len(),
            i <= len,
            forall|j: int| 0 <= j < i ==> topic@[j] == bytes@[j],
            forall|j: int| i <= j < 32 ==> topic@[j] == 0u8,
        decreases len - i,
    {
        topic[i] = bytes[i];
        i = i + 1;
    }
    assert(topic@ =~= topic_from_bytes(bytes@));
    topic
}

/// Makes a 32-byte topic from a readable name, cutting it after 32 bytes and
/// padding it with zeros (e.g. "shard:1" gives `[115, 104, 97, 114, 100, 58, 49, 0, ..., 0]`).
pub fn string_to_topic(s: &str) -> (topic: [u8; 32])
    ensures
        topic@ == topic_from_bytes(s.spec_bytes()),
{
    topic_from_slice(s.as_bytes())
}

/// Reads back the name held in a topic: the topic without its trailing
/// zero bytes, decoded as UTF-8 (e.g. `[115, 104, 97, 114, 100, 58, 49, 0, ..., 0]`
/// gives "shard:1", and `[97, 0, 98, 0, ..., 0]` gives "a\0b").
pub fn topic_to_string(topic: &[u8; 32]) -> (s: String)
    ensures
        s@ == utf8_lossy_chars(trim_trailing_zeros(topic@)),
        vstd::utf8::valid_utf8(trim_trailing_zeros(topic@)) ==> s@ == vstd::utf8::decode_utf8(
            trim_trailing_zeros(topic@),
        ),
{
    let mut len: usize = 32;
    assert(topic@.take(32) =~= topic@);
    while len > 0 && topic[len - 1] == 0
        invariant
            len <= 32,
            trim_trailing_zeros(topic@) == trim_trailing_zeros(topic@.take(len as int)),
        decreases len,
    {
        assert(topic@.take(len as int).drop_last() =~= topic@.take(len as int - 1));
        len = len - 1;
    }
    assert(trim_trailing_zeros(topic@.take(len as int)) == topic@.take(len as int));
    let name = vstd::slice::slice_subrange(topic.as_slice(), 0, len);
    assert(name@ =~= topic@.take(len as int));
    utf8_lossy(name)
}

/// A name of at most 32 bytes that does not end in a zero byte is what a
/// topic made from it holds, and that name is valid UTF-8 that decodes back
/// to the name. With the contracts of [`string_to_topic`] and
/// [`topic_to_string`], the second gives back the string that the first was
/// given (in particular for every string without NUL of at most 32 bytes).
pub proof fn lemma_topic_roundtrip(name: Seq<char>)
    requires
        vstd::utf8::encode_utf8(name).len() <= 32,
        vstd::utf8::encode_utf8(name).len() == 0 || vstd::utf8::encode_utf8(name).last() != 0,
    ensures
        trim_trailing_zeros(topic_from_bytes(vstd::utf8::encode_utf8(name))) == vstd::utf8::encode_utf8(name),
        vstd::utf8::valid_utf8(vstd::utf8::encode_utf8(name)),
        vstd::utf8::decode_utf8(vstd::utf8::encode_utf8(name)) == name,
{
    let b = vstd::utf8::encode_utf8(name);
    let k = (32 - b.len()) as nat;
    assert(topic_from_bytes(b) =~= b + Seq::new(k, |i: int| 0u8));
    lemma_trim_padded(b, k);
    vstd::utf8::encode_utf8_valid_utf8(name);
    vstd::utf8::encode_utf8_decode_utf8(name);
}

/// The messages at the front of a byte stream, one after the other, until
/// the bytes left do not start with a whole message.
pub open spec fn frames(d: Seq<u8>) -> Seq<BrokerMsg>
    decreases d.len(),
{
    match parse_broker(d) {
        Some(m) => {
            let n = encode_broker(m).len();
            if 0 < n <= d.len() {
                seq![m] + frames(d.skip(n as int))
            } else {
                Seq::empty()
            }
        },
        None => Seq::empty(),
    }
}

/// The bytes left after the messages of [`frames`]: an incomplete message,
/// or bytes that do not start one.
pub open spec fn leftover(d: Seq<u8>) -> Seq<u8>
    decreases d.len(),
{
    match parse_broker(d) {
        Some(m) => {
            let n = encode_broker(m).len();
            if 0 < n <= d.len() {
                leftover(d.skip(n as int))
            } else {
                d
            }
        },
        None => d,
    }
}

impl BrokerMessage {
    /// The number of bytes the message takes on the wire.
    pub fn encoded_len(&self) -> (n: usize)
        requires
            broker_msg_wf(self@),
        ensures
            n == encode_broker(self@).len(),
    {
        match self {
            BrokerMessage::Subscribe { .. } => 37,
            BrokerMessage::Unsubscribe { .. } => 37,
            BrokerMessage::Publish { payload, .. } => 35 + payload.len(),
            BrokerMessage::Broadcast { payload } => 3 + payload.len(),
            BrokerMessage::ClientInput { .. } => 21,
            BrokerMessage::PositionUpdate { .. } => 13,
            BrokerMessage::ShardReady { .. } => 5,
            BrokerMessage::CrossingAlert { .. } => 69,
            BrokerMessage::AuthoritySwitch { .. } => 69,
            BrokerMessage::CrossingExit { .. } => 69,
            BrokerMessage::InterShardMessage { payload, .. } => 67 + payload.len(),
        }
    }

    /// Takes the whole messages at the front of `buffer`, in order, and
    /// leaves in it the bytes that follow them (see [`frames`] and [`leftover`]).
    pub fn parse_multiple(buffer: &mut Vec<u8>) -> (msgs: Vec<BrokerMessage>)
        ensures
            msgs@.map_values(|m: BrokerMessage| m@) == frames(old(buffer)@),
            final(buffer)@ == leftover(old(buffer)@),
    {
        let ghost d = buffer@;
        let mut msgs: Vec<BrokerMessage> = Vec::new();
        let mut i: usize = 0;
        assert(d.skip(0) =~= d);
        assert(msgs@.map_values(|m: BrokerMessage| m@) + frames(d) =~= frames(d));
        loop
            invariant
                i <= d.len(),
                buffer@ == d,
                msgs@.map_values(|m: BrokerMessage| m@) + frames(d.skip(i as int)) == frames(d),
                leftover(d.skip(i as int)) == leftover(d),
            ensures
                i <= d.len(),
                buffer@ == d,
                msgs@.map_values(|m: BrokerMessage| m@) == frames(d),
                leftover(d.skip(i as int)) == leftover(d),
                leftover(d.skip(i as int)) == d.skip(i as int),
            decreases d.len() - i,
        {
            let rest = vstd::slice::slice_subrange(buffer.as_slice(), i, buffer.len());
            assert(rest@ =~= d.skip(i as int));
            match BrokerMessage::from_bytes(rest) {
                Some(m) => {
                    proof {
                        lemma_frames_step(rest@, m@);
                    }
                    let n = m.encoded_len();
                    let ghost before = msgs@.map_values(|x: BrokerMessage| x@);
                    proof {
                        assert(d.skip(i as int).skip(n as int) =~= d.skip(i as int + n as int));
                    }
                    msgs.push(m);
                    assert(msgs@.map_values(|x: BrokerMessage| x@) =~= before.push(m@));
                    assert(before.push(m@) + frames(d.skip(i as int + n as int)) =~= before + frames(
                        d.skip(i as int),
                    ));
                    i = i + n;
                },
                None => {
                    proof {
                        lemma_frames_stop(rest@);
                        assert(msgs@.map_values(|x: BrokerMessage| x@) =~= msgs@.map_values(
                            |x: BrokerMessage| x@,
                        ) + Seq::<BrokerMsg>::empty());
                    }
                    break;
                },
            }
        }
        let left = vstd::slice::slice_subrange(buffer.as_slice(), i, buffer.len());
        let mut rest: Vec<u8> = Vec::new();
        let mut k: usize = 0;
        while k < left.len()
            invariant
                k <= left@.len(),
                rest@ == left@.take(k as int),
            decreases left@.len() - k,
        {
            rest.push(left[k]);
            assert(left@.take(k as int + 1) =~= left@.take(k as int).push(left@[k as int]));
            k = k + 1;
        }
        assert(left@.take(left@.len() as int) =~= left@);
        assert(left@ =~= d.skip(i as int));
        *buffer = rest;
        msgs
    }
}

/// A byte stream that starts with a message: the message is well formed,
/// takes the first bytes of the stream, and the messages and bytes left of
/// the stream are those of what follows it.
proof fn lemma_frames_step(d: Seq<u8>, m: BrokerMsg)
    requires
        parse_broker(d) == Some(m),
    ensures
        broker_msg_wf(m),
        0 < encode_broker(m).len() <= d.len(),
        frames(d) == seq![m] + frames(d.skip(encode_broker(m).len() as int)),
        leftover(d) == leftover(d.skip(encode_broker(m).len() as int)),
{
    lemma_broker_encode_decode(d);
    assert(encode_broker(m).len() >= 1);
    assert(encode_broker(m) == d.take(encode_broker(m).len() as int));
}

/// A byte stream that does not start with a message holds no message and
/// is left whole.
proof fn lemma_frames_stop(d: Seq<u8>)
    requires
        parse_broker(d) is None,
    ensures
        frames(d) == Seq::<BrokerMsg>::empty(),
        leftover(d) == d,
{
}

/// Reading a sized payload looks only at the bytes it reads.
proof fn lemma_sized_payload_extends(r: Seq<u8>, t: Seq<u8>)
    requires
        parse_sized_payload(r) is Some,
    ensures
        parse_sized_payload(r + t) == parse_sized_payload(r),
{
    let x = r + t;
    assert(x[0] == r[0] && x[1] == r[1]);
    let n = le_u16_value(r) as int;
    assert(x.subrange(2, 2 + n) =~= r.subrange(2, 2 + n));
}

/// A message read from bytes is read the same when more bytes follow.
proof fn lemma_parse_extends(d: Seq<u8>, t: Seq<u8>)
    requires
        parse_broker(d) is Some,
    ensures
        parse_broker(d + t) == parse_broker(d),
{
    let x = d + t;
    let r = d.skip(1);
    let rx = x.skip(1);
    assert(x[0] == d[0]);
    assert(rx =~= r + t);
    let tag = d[0];
    if r.len() >= 4 {
        assert(rx[0] == r[0] && rx[1] == r[1] && rx[2] == r[2] && rx[3] == r[3]);
    }
    if tag == TAG_SUBSCRIBE || tag == TAG_UNSUBSCRIBE || tag == TAG_CLIENT_INPUT || tag == TAG_CROSSING_ALERT
        || tag == TAG_AUTHORITY_SWITCH || tag == TAG_CROSSING_EXIT {
        if r.len() >= 20 {
            assert(rx.subrange(4, 20) =~= r.subrange(4, 20));
        }
        if r.len() >= 36 {
            assert(rx.subrange(4, 36) =~= r.subrange(4, 36));
        }
        if r.len() >= 68 {
            assert(rx.subrange(36, 68) =~= r.subrange(36, 68));
        }
    } else if tag == TAG_PUBLISH {
        assert(rx.subrange(0, 32) =~= r.subrange(0, 32));
        assert(rx.skip(32) =~= r.skip(32) + t);
        lemma_sized_payload_extends(r.skip(32), t);
    } else if tag == TAG_BROADCAST {
        lemma_sized_payload_extends(r, t);
    } else if tag == TAG_POSITION_UPDATE {
        assert(rx.skip(4)[0] == r.skip(4)[0] && rx.skip(4)[1] == r.skip(4)[1] && rx.skip(4)[2] == r.skip(4)[2]
            && rx.skip(4)[3] == r.skip(4)[3]);
        assert(rx.skip(8)[0] == r.skip(8)[0] && rx.skip(8)[1] == r.skip(8)[1] && rx.skip(8)[2] == r.skip(8)[2]
            && rx.skip(8)[3] == r.skip(8)[3]);
    } else if tag == TAG_INTER_SHARD_MESSAGE {
        assert(rx.subrange(0, 32) =~= r.subrange(0, 32));
        assert(rx.subrange(32, 64) =~= r.subrange(32, 64));
        assert(rx.skip(64) =~= r.skip(64) + t);
        lemma_sized_payload_extends(r.skip(64), t);
    }
}

/// The bytes of a list of messages sent one after the other.
pub open spec fn encode_all(ms: Seq<BrokerMsg>) -> Seq<u8>
    decreases ms.len(),
{
    if ms.len() == 0 {
        Seq::empty()
    } else {
        encode_broker(ms[0]) + encode_all(ms.skip(1))
    }
}

/// Well-formed messages sent one after the other are read back, all of them
/// and in order, with no byte left over.
pub proof fn lemma_frames_of_encoded(ms: Seq<BrokerMsg>)
    requires
        forall|i: int| 0 <= i < ms.len() ==> broker_msg_wf(#[trigger] ms[i]),
    ensures
        frames(encode_all(ms)) == ms,
        leftover(encode_all(ms)) == Seq::<u8>::empty(),
    decreases ms.len(),
{
    if ms.len() > 0 {
        let m = ms[0];
        let e = encode_broker(m);
        let rest = ms.skip(1);
        assert forall|i: int| 0 <= i < rest.len() implies broker_msg_wf(#[trigger] rest[i]) by {
            assert(rest[i] == ms[i + 1]);
        }
        lemma_frames_of_encoded(rest);
        lemma_broker_decode_encode(m);
        lemma_parse_extends(e, encode_all(rest));
        let d = encode_all(ms);
        assert(d == e + encode_all(rest));
        lemma_frames_step(d, m);
        assert(d.skip(e.len() as int) =~= encode_all(rest));
        assert(seq![m] + rest =~= ms);
    } else {
        assert(parse_broker(encode_all(ms)) is None);
    }
}

} // verus!
