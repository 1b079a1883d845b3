use mmorpg_lab::broker_protocol::{
    string_to_topic, topic_to_string, BrokerMessage, InterShardPayload, TAG_PUBLISH, TAG_SUBSCRIBE,
};
use mmorpg_lab::orchestrator_protocol::OrchestratorMessage;

fn topic(name: &str) -> [u8; 32] {
    string_to_topic(name)
}

#[test]
fn subscribe_encoding_is_tag_id_topic() {
    let msg = BrokerMessage::Subscribe { client_id: 0x01020304, topic: topic("shard:1") };
    let bytes = msg.to_bytes();
    assert_eq!(bytes.len(), 1 + 4 + 32);
    assert_eq!(bytes[0], TAG_SUBSCRIBE);
    assert_eq!(&bytes[1..5], &[4u8, 3, 2, 1]);
    assert_eq!(&bytes[5..12], b"shard:1");
    assert!(bytes[12..].iter().all(|b| *b == 0));
}

#[test]
fn publish_encoding_has_length_prefix() {
    let msg = BrokerMessage::Publish { topic: topic("t"), payload: vec![9, 8, 7] };
    let bytes = msg.to_bytes();
    assert_eq!(bytes[0], TAG_PUBLISH);
    assert_eq!(&bytes[33..35], &[3u8, 0]);
    assert_eq!(&bytes[35..], &[9u8, 8, 7]);
}

#[test]
fn every_broker_message_reads_back() {
    let msgs = vec![
        BrokerMessage::Subscribe { client_id: 1, topic: topic("a") },
        BrokerMessage::Unsubscribe { client_id: 2, topic: topic("b") },
        BrokerMessage::Publish { topic: topic("c"), payload: vec![1, 2, 3] },
        BrokerMessage::Broadcast { payload: vec![] },
        BrokerMessage::ClientInput { client_id: 3, input: [7u8; 16] },
        BrokerMessage::PositionUpdate { client_id: 4, x: 1.5f32.to_bits(), y: (-2.0f32).to_bits() },
        BrokerMessage::ShardReady { shard_id: 5 },
        BrokerMessage::CrossingAlert { client_id: 6, dest_authority_topic: topic("d"), neighbor_topic: topic("e") },
        BrokerMessage::AuthoritySwitch { client_id: 7, old_auth_topic: topic("f"), new_auth_topic: topic("g") },
        BrokerMessage::CrossingExit { client_id: 8, obsolete_auth_topic: topic("h"), new_auth_topic: topic("i") },
        BrokerMessage::InterShardMessage { topic_dest: topic("j"), topic_from: topic("k"), payload: vec![5; 40] },
    ];
    for m in msgs {
        let bytes = m.to_bytes();
        let back = BrokerMessage::from_bytes(&bytes).expect("reads back");
        assert_eq!(format!("{:?}", back), format!("{:?}", m));
        assert_eq!(back.to_bytes(), bytes);
    }
}

#[test]
fn trailing_bytes_are_ignored() {
    let mut bytes = BrokerMessage::ShardReady { shard_id: 42 }.to_bytes();
    bytes.extend_from_slice(&[1, 2, 3]);
    match BrokerMessage::from_bytes(&bytes) {
        Some(BrokerMessage::ShardReady { shard_id }) => assert_eq!(shard_id, 42),
        other => panic!("unexpected {:?}", other),
    }
}

#[test]
fn malformed_broker_bytes_give_none() {
    assert!(BrokerMessage::from_bytes(&[]).is_none());
    assert!(BrokerMessage::from_bytes(&[0xEE, 1, 2, 3]).is_none());
    let bytes = BrokerMessage::ShardReady { shard_id: 42 }.to_bytes();
    assert!(BrokerMessage::from_bytes(&bytes[..bytes.len() - 1]).is_none());
    let publish = BrokerMessage::Publish { topic: topic("x"), payload: vec![1, 2, 3, 4] }.to_bytes();
    assert!(BrokerMessage::from_bytes(&publish[..publish.len() - 1]).is_none());
}

#[test]
fn inter_shard_payloads_read_back() {
    let mut state = [0u8; 64];
    state[..5].copy_from_slice(b"alice");
    let payloads = vec![
        InterShardPayload::HandoffRequest { entity_id: 1, pos_x: 2, pos_y: 3, vel_x: 4, vel_y: 5, state },
        InterShardPayload::GhostUpdate { entity_id: 6, pos_x: 7, pos_y: 8, vel_x: 9, vel_y: 10 },
        InterShardPayload::HandoffComplete { entity_id: 11 },
        InterShardPayload::FoodTakeoverRequest { bounds_x: 12, bounds_y: 13, bounds_w: 14, bounds_h: 15 },
    ];
    for p in payloads {
        let bytes = p.to_bytes();
        let back = InterShardPayload::from_bytes(&bytes).expect("reads back");
        assert_eq!(format!("{:?}", back), format!("{:?}", p));
    }
    assert!(InterShardPayload::from_bytes(&[]).is_none());
    assert!(InterShardPayload::from_bytes(&[0x24, 1, 2]).is_none());
    assert!(InterShardPayload::from_bytes(&[0x21, 1, 0, 0, 0, 2, 0, 0, 0, 3, 0, 0, 0, 4, 0, 0]).is_none());
}

#[test]
fn handoff_complete_encoding() {
    let bytes = InterShardPayload::HandoffComplete { entity_id: 258 }.to_bytes();
    assert_eq!(bytes, vec![0x24u8, 2, 1, 0, 0]);
}

#[test]
fn orchestrator_messages_read_back() {
    let msgs = vec![
        OrchestratorMessage::RequestSplit { shard_id: 3 },
        OrchestratorMessage::SplitConfirmation { shard_id: 3, new_shard_id: 9 },
        OrchestratorMessage::SplitDone { shard_id: 4, new_shard_id: 10 },
    ];
    for m in msgs {
        let bytes = m.to_bytes();
        assert_eq!(OrchestratorMessage::from_bytes(&bytes), Some(m));
    }
    assert_eq!(OrchestratorMessage::RequestSplit { shard_id: 3 }.to_bytes(), vec![1u8, 3, 0, 0, 0]);
    assert_eq!(OrchestratorMessage::from_bytes(&[2, 1, 0, 0, 0]), None);
    assert_eq!(OrchestratorMessage::from_bytes(&[9, 1, 0, 0, 0]), None);
}

#[test]
fn topic_round_trip() {
    let t = string_to_topic("shard:1");
    assert_eq!(&t[..7], b"shard:1");
    assert!(t[7..].iter().all(|b| *b == 0));
    assert_eq!(topic_to_string(&t), "shard:1");
    let long = string_to_topic("abcdefghijklmnopqrstuvwxyz0123456789");
    assert_eq!(topic_to_string(&long), "abcdefghijklmnopqrstuvwxyz012345");
    let mut inner = [0u8; 32];
    inner[0] = b'a';
    inner[2] = b'b';
    assert_eq!(topic_to_string(&inner), "a\u{0}b");
    assert_eq!(topic_to_string(&[0u8; 32]), "");
}

#[test]
fn parse_multiple_takes_whole_messages() {
    let mut buffer = BrokerMessage::ShardReady { shard_id: 1 }.to_bytes();
    buffer.extend(BrokerMessage::Subscribe { client_id: 2, topic: topic("t") }.to_bytes());
    let third = BrokerMessage::ShardReady { shard_id: 3 }.to_bytes();
    buffer.extend_from_slice(&third[..3]);
    let msgs = BrokerMessage::parse_multiple(&mut buffer);
    assert_eq!(msgs.len(), 2);
    assert!(matches!(msgs[0], BrokerMessage::ShardReady { shard_id: 1 }));
    assert!(matches!(msgs[1], BrokerMessage::Subscribe { client_id: 2, .. }));
    assert_eq!(buffer, third[..3].to_vec());
    buffer.extend_from_slice(&third[3..]);
    let more = BrokerMessage::parse_multiple(&mut buffer);
    assert_eq!(more.len(), 1);
    assert!(buffer.is_empty());
    let mut junk = vec![0xEEu8, 1, 2];
    assert!(BrokerMessage::parse_multiple(&mut junk).is_empty());
    assert_eq!(junk, vec![0xEEu8, 1, 2]);
}

#[test]
fn encoded_len_matches_bytes() {
    let m = BrokerMessage::Publish { topic: topic("p"), payload: vec![1; 10] };
    assert_eq!(m.encoded_len(), m.to_bytes().len());
    let c = BrokerMessage::CrossingExit { client_id: 1, obsolete_auth_topic: topic("a"), new_auth_topic: topic("b") };
    assert_eq!(c.encoded_len(), 69);
}

#[test]
fn stream_of_messages_reads_back_in_order() {
    let msgs = vec![
        BrokerMessage::Publish { topic: topic("a"), payload: vec![4; 300] },
        BrokerMessage::PositionUpdate { client_id: 9, x: 1, y: 2 },
        BrokerMessage::InterShardMessage { topic_dest: topic("b"), topic_from: topic("c"), payload: vec![] },
        BrokerMessage::ShardReady { shard_id: 8 },
    ];
    let mut stream = Vec::new();
    for m in &msgs {
        stream.extend(m.to_bytes());
    }
    let back = BrokerMessage::parse_multiple(&mut stream);
    assert!(stream.is_empty());
    assert_eq!(format!("{:?}", back), format!("{:?}", msgs));
}
