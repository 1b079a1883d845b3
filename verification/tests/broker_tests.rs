use mmorpg_lab::broker::{chat_topic, BrokerAction, BrokerState, PeerKind};
use mmorpg_lab::broker_protocol::{string_to_topic, BrokerMessage};

fn describe(actions: &[BrokerAction]) -> Vec<String> {
    actions.iter().map(|a| format!("{:?}", a)).collect()
}

const CLIENT: u128 = 0xC1;
const SHARD: u128 = 0x50;

fn connected_broker() -> BrokerState {
    let mut b = BrokerState::new();
    assert_eq!(b.on_connected(CLIENT), 1);
    b.on_stream_created(CLIENT, true);
    b.on_stream_created(CLIENT, false);
    assert_eq!(b.on_connected(SHARD), 2);
    b.on_stream_created(SHARD, true);
    b.on_stream_created(SHARD, false);
    b
}

#[test]
fn connections_get_increasing_ids() {
    let b = connected_broker();
    assert_eq!(b.next_client_id, 3);
    assert_eq!(b.uuid_to_id.get(&CLIENT), Some(&1));
    assert_eq!(b.id_to_uuid.get(&2), Some(&SHARD));
}

#[test]
fn publish_reaches_subscribers_and_registers_shard() {
    let mut b = connected_broker();
    let t = string_to_topic("shard:0");
    let none = b.handle_message(CLIENT, true, BrokerMessage::Subscribe { client_id: 1, topic: t }, false);
    assert!(none.is_empty());
    let out = b.handle_message(SHARD, false, BrokerMessage::Publish { topic: t, payload: vec![1, 2] }, false);
    assert_eq!(describe(&out), vec![format!(
        "Send {{ to: {}, reliable: false, msg: Broadcast {{ payload: [1, 2] }} }}",
        CLIENT
    )]);
    let input = b.handle_message(CLIENT, false, BrokerMessage::ClientInput { client_id: 1, input: [3u8; 16] }, false);
    assert_eq!(input.len(), 1);
    match &input[0] {
        BrokerAction::Send { to, reliable, msg: BrokerMessage::ClientInput { client_id, .. } } => {
            assert_eq!((*to, *reliable, *client_id), (SHARD, false, 1));
        }
        other => panic!("unexpected {:?}", other),
    }
    let gone = b.handle_message(CLIENT, true, BrokerMessage::Unsubscribe { client_id: 1, topic: t }, false);
    assert!(gone.is_empty());
    let out2 = b.handle_message(SHARD, false, BrokerMessage::Publish { topic: t, payload: vec![1] }, false);
    assert!(out2.is_empty());
}

#[test]
fn join_is_welcomed_and_routed_to_spawn_shard() {
    let mut b = connected_broker();
    let spawn = string_to_topic("shard:0");
    b.handle_message(SHARD, true, BrokerMessage::Publish { topic: spawn, payload: vec![] }, false);
    let out = b.handle_message(CLIENT, true, BrokerMessage::ClientInput { client_id: 0, input: [0u8; 16] }, true);
    let d = describe(&out);
    assert_eq!(d[0], format!("Welcome {{ to: {}, reliable: true, player_id: 1 }}", CLIENT));
    assert_eq!(d.len(), 2);
    match &out[1] {
        BrokerAction::Send { to, reliable, msg: BrokerMessage::ClientInput { client_id, .. } } => {
            assert_eq!((*to, *reliable, *client_id), (SHARD, true, 1));
        }
        other => panic!("unexpected {:?}", other),
    }
    let topics = b.client_topics.get(&1).unwrap();
    assert_eq!(topics, &vec![spawn, chat_topic()]);
}

#[test]
fn crossing_messages_go_to_the_shards() {
    let mut b = connected_broker();
    let a = string_to_topic("shard:1");
    let n = string_to_topic("shard:2");
    b.handle_message(SHARD, true, BrokerMessage::Publish { topic: a, payload: vec![] }, false);
    let alert = b.handle_message(
        0xAA,
        true,
        BrokerMessage::CrossingAlert { client_id: 1, dest_authority_topic: a, neighbor_topic: n },
        false,
    );
    assert_eq!(alert.len(), 1);
    assert!(b.client_topics.get(&1).unwrap().contains(&n));
    let exit = b.handle_message(
        0xAA,
        true,
        BrokerMessage::CrossingExit { client_id: 1, obsolete_auth_topic: a, new_auth_topic: n },
        false,
    );
    assert_eq!(exit.len(), 1);
    let switch = b.handle_message(
        0xAA,
        true,
        BrokerMessage::AuthoritySwitch { client_id: 1, old_auth_topic: n, new_auth_topic: a },
        false,
    );
    assert!(switch.is_empty());
    let unknown = b.handle_message(
        0xAA,
        true,
        BrokerMessage::InterShardMessage { topic_dest: a, topic_from: n, payload: vec![1] },
        false,
    );
    assert_eq!(unknown.len(), 1);
}

#[test]
fn spatial_server_gets_positions_once_registered() {
    let mut b = connected_broker();
    let pos = BrokerMessage::PositionUpdate { client_id: 1, x: 0, y: 0 };
    assert!(b.handle_message(SHARD, false, pos.duplicate(), false).is_empty());
    b.register_peer(SHARD, PeerKind::SpatialServer);
    let out = b.handle_message(SHARD, false, pos, false);
    assert_eq!(out.len(), 1);
    let ready = b.handle_message(SHARD, true, BrokerMessage::ShardReady { shard_id: 3 }, false);
    assert!(format!("{:?}", ready).contains("ShardReady { shard_id: 3 }"));
}

#[test]
fn disconnect_tells_the_shards() {
    let mut b = connected_broker();
    let t = string_to_topic("shard:0");
    b.handle_message(CLIENT, true, BrokerMessage::Subscribe { client_id: 1, topic: t }, false);
    b.handle_message(SHARD, true, BrokerMessage::Publish { topic: t, payload: vec![] }, false);
    let out = b.on_disconnected(CLIENT);
    assert_eq!(describe(&out), vec![format!("ForwardDisconnect {{ to: {}, client_id: 1 }}", SHARD)]);
    assert!(b.uuid_to_id.get(&CLIENT).is_none());
    assert!(b.client_topics.get(&1).is_none());
    assert!(b.on_disconnected(0x999).is_empty());
}

#[test]
fn chat_service_resets_chat_subscribers() {
    let mut b = connected_broker();
    b.handle_message(CLIENT, true, BrokerMessage::Subscribe { client_id: 1, topic: chat_topic() }, false);
    b.register_peer(0xCC, PeerKind::ChatService);
    assert_eq!(b.chat_server_uuid, Some(0xCC));
    assert!(b.reliable_streams.contains(&0xCC));
    let out = b.handle_message(SHARD, false, BrokerMessage::Publish { topic: chat_topic(), payload: vec![] }, false);
    assert!(out.is_empty());
}
