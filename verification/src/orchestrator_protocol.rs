//! The binary protocol between the spatial server and the orchestrator that
//! starts new shard servers.
use vstd::prelude::*;
use crate::wire::{
    buf_into_vec, buf_new, buf_put_u32_le, buf_put_u8, bytes_mut_contents, le_u32_bytes,
    le_u32_value, lemma_le_u32_bytes_of_value, lemma_le_u32_roundtrip, slice_get_u32_le,
    slice_get_u8,
};

verus! {

pub const TAG_REQUEST_SPLIT: u8 = 0x01;
pub const TAG_SPLIT_CONFIRMATION: u8 = 0x02;
pub const TAG_SPLIT_DONE: u8 = 0x03;

/// A message to or from the orchestrator.
#[derive(Debug, Clone, Copy, PartialEq, Eq, Structural)]
pub enum OrchestratorMessage {
    RequestSplit { shard_id: u32 },
    SplitConfirmation { shard_id: u32, new_shard_id: u32 },
    SplitDone { shard_id: u32, new_shard_id: u32 },
}

/// The bytes that encode an orchestrator message.
pub open spec fn encode_orchestrator(m: OrchestratorMessage) -> Seq<u8> {
    match m {
        OrchestratorMessage::RequestSplit { shard_id } => seq![TAG_REQUEST_SPLIT] + le_u32_bytes(
            shard_id,
        ),
        OrchestratorMessage::SplitConfirmation { shard_id, new_shard_id } =>
            seq![TAG_SPLIT_CONFIRMATION] + le_u32_bytes(shard_id) + le_u32_bytes(new_shard_id),
        OrchestratorMessage::SplitDone { shard_id, new_shard_id } => seq![TAG_SPLIT_DONE]
            + le_u32_bytes(shard_id) + le_u32_bytes(new_shard_id),
    }
}

/// The orchestrator message that a byte sequence starts with, if any.
pub open spec fn parse_orchestrator(d: Seq<u8>) -> Option<OrchestratorMessage> {
    if d.len() == 0 {
        None
    } else {
        let tag = d[0];
        let r = d.skip(1);
        if tag == TAG_REQUEST_SPLIT {
            if r.len() < 4 {
                None
            } else {
                Some(OrchestratorMessage::RequestSplit { shard_id: le_u32_value(r) })
            }
        } else if tag == TAG_SPLIT_CONFIRMATION || tag == TAG_SPLIT_DONE {
            if r.len() < 8 {
                None
            } else if tag == TAG_SPLIT_CONFIRMATION {
                Some(
                    OrchestratorMessage::SplitConfirmation {
                        shard_id: le_u32_value(r),
                        new_shard_id: le_u32_value(r.skip(4)),
                    },
                )
            } else {
                Some(
                    OrchestratorMessage::SplitDone {
                        shard_id: le_u32_value(r),
                        new_shard_id: le_u32_value(r.skip(4)),
                    },
                )
            }
        } else {
            None
        }
    }
}

impl OrchestratorMessage {
    /// Serializes the message into its wire bytes.
    pub fn to_bytes(&self) -> (out: Vec<u8>)
        ensures
            out@ == encode_orchestrator(*self),
    {
        let mut buf = buf_new();
        match self {
            OrchestratorMessage::RequestSplit { shard_id } => {
                buf_put_u8(&mut buf, TAG_REQUEST_SPLIT);
                buf_put_u32_le(&mut buf, *shard_id);
            },
            OrchestratorMessage::SplitConfirmation { shard_id, new_shard_id } => {
                buf_put_u8(&mut buf, TAG_SPLIT_CONFIRMATION);
                buf_put_u32_le(&mut buf, *shard_id);
                buf_put_u32_le(&mut buf, *new_shard_id);
            },
            OrchestratorMessage::SplitDone { shard_id, new_shard_id } => {
                buf_put_u8(&mut buf, TAG_SPLIT_DONE);
                buf_put_u32_le(&mut buf, *shard_id);
                buf_put_u32_le(&mut buf, *new_shard_id);
            },
        }
        proof {
            assert(bytes_mut_contents(buf) =~= encode_orchestrator(*self));
        }
        buf_into_vec(buf)
    }

    /// Reads the message at the start of `bytes`; `None` when the tag is
    /// unknown or the bytes end too early.
    pub fn from_bytes(bytes: &[u8]) -> (res: Option<OrchestratorMessage>)
        ensures
            res == parse_orchestrator(bytes@),
    {
        let mut buf = bytes;
        if buf.len() == 0 {
            return None;
        }
        let tag = slice_get_u8(&mut buf);
        let ghost r = bytes@.skip(1);
        assert(buf@ == r);
        if tag == TAG_REQUEST_SPLIT {
            if buf.len() < 4 {
                return None;
            }
            let shard_id = slice_get_u32_le(&mut buf);
            Some(OrchestratorMessage::RequestSplit { shard_id })
        } else if tag == TAG_SPLIT_CONFIRMATION || tag == TAG_SPLIT_DONE {
            if buf.len() < 8 {
                return None;
            }
            let shard_id = slice_get_u32_le(&mut buf);
            assert(buf@ =~= r.skip(4));
            let new_shard_id = slice_get_u32_le(&mut buf);
            if tag == TAG_SPLIT_CONFIRMATION {
                Some(OrchestratorMessage::SplitConfirmation { shard_id, new_shard_id })
            } else {
                Some(OrchestratorMessage::SplitDone { shard_id, new_shard_id })
            }
        } else {
            None
        }
    }
}

/// Decoding the bytes of an orchestrator message gives back the message.
pub proof fn lemma_orchestrator_decode_encode(m: OrchestratorMessage)
    ensures
        parse_orchestrator(encode_orchestrator(m)) == Some(m),
{
    let e = encode_orchestrator(m);
    let r = e.skip(1);
    match m {
        OrchestratorMessage::RequestSplit { shard_id } => {
            lemma_le_u32_roundtrip(shard_id);
            assert(r =~= le_u32_bytes(shard_id));
        },
        OrchestratorMessage::SplitConfirmation { shard_id, new_shard_id } => {
            lemma_le_u32_roundtrip(shard_id);
            lemma_le_u32_roundtrip(new_shard_id);
            assert(r =~= le_u32_bytes(shard_id) + le_u32_bytes(new_shard_id));
            assert(le_u32_value(r) == le_u32_value(le_u32_bytes(shard_id)));
            assert(r.skip(4) =~= le_u32_bytes(new_shard_id));
        },
        OrchestratorMessage::SplitDone { shard_id, new_shard_id } => {
            lemma_le_u32_roundtrip(shard_id);
            lemma_le_u32_roundtrip(new_shard_id);
            assert(r =~= le_u32_bytes(shard_id) + le_u32_bytes(new_shard_id));
            assert(le_u32_value(r) == le_u32_value(le_u32_bytes(shard_id)));
            assert(r.skip(4) =~= le_u32_bytes(new_shard_id));
        },
    }
}

/// An orchestrator message read from bytes encodes to exactly the bytes it
/// was read from.
pub proof fn lemma_orchestrator_encode_decode(d: Seq<u8>)
    ensures
        parse_orchestrator(d) matches Some(m) ==> encode_orchestrator(m) == d.take(
            encode_orchestrator(m).len() as int,
        ),
{
    if let Some(m) = parse_orchestrator(d) {
        let r = d.skip(1);
        lemma_le_u32_bytes_of_value(r.take(4));
        assert(le_u32_value(r.take(4)) == le_u32_value(r));
        match m {
            OrchestratorMessage::RequestSplit { .. } => {
                assert(encode_orchestrator(m) =~= d.take(5));
            },
            _ => {
                lemma_le_u32_bytes_of_value(r.skip(4).take(4));
                assert(le_u32_value(r.skip(4).take(4)) == le_u32_value(r.skip(4)));
                assert(encode_orchestrator(m) =~= d.take(9));
            },
        }
    }
}

} // verus!
