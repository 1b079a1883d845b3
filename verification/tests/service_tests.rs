use mmorpg_lab::shard_net::{pack_datagrams, player_updates, stream_ready_messages};
use mmorpg_lab::chat::{bad_words, ChatService, Moderator};
use mmorpg_lab::handoff::{clean_username, name_state_buffer, shard_reaction, topics_equal, EntityState, ShardReaction};
use mmorpg_lab::broker_protocol::{string_to_topic, BrokerMessage, InterShardPayload};
use mmorpg_lab::services::{
    accepts_players, distance_sq, health_handler, login_handler, nearest_available_server, next_port_candidate,
    server_status, GameServerEntry, LoginRequest,
};

fn server(ip: &str, port: u16, zone: &str, status: &str, players: u16, lat: i32, lon: i32) -> GameServerEntry {
    GameServerEntry {
        ip: ip.to_string(),
        port,
        zone: zone.to_string(),
        status: status.to_string(),
        num_players: players,
        capacity: 100,
        lat_e6: lat,
        lon_e6: lon,
    }
}

fn is_v4_text(s: &str) -> bool {
    let b = s.as_bytes();
    b.len() == 36
        && b.iter().enumerate().all(|(i, c)| {
            if [8, 13, 18, 23].contains(&i) { *c == b'-' } else { c.is_ascii_digit() || (b'a'..=b'f').contains(c) }
        })
        && b[14] == b'4'
        && [b'8', b'9', b'a', b'b'].contains(&b[19])
}

#[test]
fn login_accepts_the_password() {
    let req = LoginRequest { username: "GamerPro".to_string(), password: "1234".to_string() };
    let servers = vec![server("15.23.42.11", 9001, "eu-west", "available", 0, 48_856_600, 2_352_200)];
    let resp = login_handler(&req, &servers, 0, 0).ok().expect("accepted");
    assert_eq!(resp.server.ip, "15.23.42.11");
    assert_eq!(resp.server.port, 9001);
    assert_eq!(resp.server.zone, "eu-west");
    assert!(is_v4_text(&resp.player_uuid));
    let other = login_handler(&req, &servers, 0, 0).ok().unwrap();
    assert_ne!(resp.player_uuid, other.player_uuid);
}

#[test]
fn login_sends_to_the_nearest_server_that_takes_players() {
    let req = LoginRequest { username: "p".to_string(), password: "1234".to_string() };
    let servers = vec![
        server("a", 1, "far", "available", 0, 40_000_000, 0),
        server("b", 2, "full", "full", 0, 0, 1),
        server("c", 3, "crowded", "available", 100, 0, 2),
        server("d", 4, "near", "available", 10, 3_000_000, -4_000_000),
        server("e", 5, "tie", "available", 10, -3_000_000, 4_000_000),
    ];
    let resp = login_handler(&req, &servers, 0, 0).ok().expect("accepted");
    assert_eq!((resp.server.ip.as_str(), resp.server.port, resp.server.zone.as_str()), ("d", 4, "near"));
    assert_eq!(nearest_available_server(&servers, 0, 0), Some(3));
    assert_eq!(nearest_available_server(&servers, 39_000_000, 0), Some(0));
    assert_eq!(distance_sq(i32::MIN, i32::MIN, i32::MAX, i32::MAX), 2 * (u32::MAX as u128) * (u32::MAX as u128));
    assert_eq!(distance_sq(3, 4, 0, 0), 25);
}

#[test]
fn login_without_servers_fails() {
    let req = LoginRequest { username: "p".to_string(), password: "1234".to_string() };
    let servers = vec![server("b", 2, "full", "full", 0, 0, 0)];
    match login_handler(&req, &servers, 0, 0) {
        Err(e) => assert_eq!(e.error, "no game server available"),
        Ok(_) => panic!("no server takes players"),
    }
    assert_eq!(nearest_available_server(&Vec::new(), 0, 0), None);
}

#[test]
fn login_refuses_other_passwords() {
    let req = LoginRequest { username: "x".to_string(), password: "wrong".to_string() };
    let servers = vec![server("a", 1, "z", "available", 0, 0, 0)];
    match login_handler(&req, &servers, 0, 0) {
        Err(e) => assert_eq!(e.error, "invalid credentials"),
        Ok(_) => panic!("accepted a wrong password"),
    }
}

#[test]
fn health_is_ok() {
    assert_eq!(health_handler().status, "ok");
}

#[test]
fn status_and_availability() {
    assert_eq!(server_status(50, 50), "full");
    assert_eq!(server_status(49, 50), "available");
    assert!(accepts_players(&"available".to_string(), 3, 4));
    assert!(!accepts_players(&"available".to_string(), 4, 4));
    assert!(!accepts_players(&"full".to_string(), 0, 4));
}

#[test]
fn port_search_wraps() {
    assert_eq!(next_port_candidate(8001), (8001, 8002));
    assert_eq!(next_port_candidate(9000), (9000, 9001));
    assert_eq!(next_port_candidate(9001), (8001, 8002));
}

#[test]
fn entity_state_transitions() {
    let a = string_to_topic("shard:1");
    let b = string_to_topic("shard:2");
    let mut s = EntityState::Owned;
    s.on_crossing_alert(a);
    assert_eq!(format!("{:?}", s), format!("{:?}", EntityState::PendingHandoff { neighbor_topics: vec![a] }));
    s.on_crossing_alert(a);
    s.on_crossing_alert(b);
    assert_eq!(format!("{:?}", s), format!("{:?}", EntityState::PendingHandoff { neighbor_topics: vec![a, b] }));
    s.on_crossing_exit(&a);
    assert_eq!(format!("{:?}", s), format!("{:?}", EntityState::PendingHandoff { neighbor_topics: vec![b] }));
    s.on_crossing_exit(&b);
    assert!(matches!(s, EntityState::Owned));
    s.on_authority_switch();
    assert!(s.is_ghost());
    s.on_crossing_alert(a);
    assert!(s.is_ghost());
    s.on_handoff_complete(b);
    assert_eq!(format!("{:?}", s), format!("{:?}", EntityState::PendingHandoff { neighbor_topics: vec![b] }));
}

#[test]
fn reactions_depend_on_the_topic() {
    let me = string_to_topic("shard:1");
    let other = string_to_topic("shard:2");
    assert!(topics_equal(&me, &string_to_topic("shard:1")));
    assert!(!topics_equal(&me, &other));
    let alert = BrokerMessage::CrossingAlert { client_id: 3, dest_authority_topic: me, neighbor_topic: other };
    assert!(matches!(shard_reaction(&me, &alert), ShardReaction::BeginHandoff { client_id: 3, .. }));
    assert!(matches!(shard_reaction(&other, &alert), ShardReaction::Ignore));
    let exit = BrokerMessage::CrossingExit { client_id: 3, obsolete_auth_topic: me, new_auth_topic: other };
    assert!(matches!(shard_reaction(&me, &exit), ShardReaction::DropPlayer { client_id: 3 }));
    assert!(matches!(shard_reaction(&other, &exit), ShardReaction::NeighborExited { client_id: 3, .. }));
    let switch = BrokerMessage::AuthoritySwitch { client_id: 3, old_auth_topic: me, new_auth_topic: other };
    assert!(matches!(shard_reaction(&me, &switch), ShardReaction::BecomeReplica { client_id: 3, .. }));
    let payload = InterShardPayload::HandoffComplete { entity_id: 3 }.to_bytes();
    let inter = BrokerMessage::InterShardMessage { topic_dest: me, topic_from: other, payload };
    assert!(matches!(
        shard_reaction(&me, &inter),
        ShardReaction::InterShard { payload: InterShardPayload::HandoffComplete { entity_id: 3 }, .. }
    ));
    let bad = BrokerMessage::InterShardMessage { topic_dest: me, topic_from: other, payload: vec![0x77] };
    assert!(matches!(shard_reaction(&me, &bad), ShardReaction::Ignore));
    let input = BrokerMessage::ClientInput { client_id: 8, input: [1u8; 16] };
    assert!(matches!(shard_reaction(&other, &input), ShardReaction::Input { client_id: 8, .. }));
    assert!(matches!(shard_reaction(&me, &BrokerMessage::ShardReady { shard_id: 1 }), ShardReaction::Ignore));
}

#[test]
fn names_in_buffers() {
    let buf = name_state_buffer(b"alice");
    assert_eq!(&buf[..5], b"alice");
    assert!(buf[5..].iter().all(|b| *b == 0));
    assert_eq!(clean_username(&buf), "alice");
    let mut join = [0u8; 12];
    join[..3].copy_from_slice(b"bob");
    assert_eq!(clean_username(&join), "bob");
    assert_eq!(clean_username(&[0u8; 4]), "");
}

#[test]
fn bad_words_are_trimmed_and_lowered() {
    assert_eq!(bad_words("  Foo \nbar\n\n   \nBAZ"), vec!["foo".to_string(), "bar".to_string(), "baz".to_string()]);
}

#[test]
fn moderation_masks_words() {
    let words = bad_words("foo\nbar");
    let m = Moderator::new(&words).expect("automaton");
    assert_eq!(m.moderate_message("hello FOO and bar!"), "hello *** and ***!");
    assert_eq!(m.moderate_message("nothing here"), "nothing here");
}

#[test]
fn chat_broadcast_buffers() {
    let words = bad_words("foo");
    let mut chat = ChatService::new(Moderator::new(&words).expect("automaton"));
    let (name, body) = chat.on_client_chat_message(5, b"a foo");
    assert_eq!(&name[..7], b"Player5");
    assert!(name[7..].iter().all(|b| *b == 0));
    assert_eq!(&body[..5], b"a ***");
    assert!(body[5..].iter().all(|b| *b == 0));
    let mut username = [0u8; 32];
    username[..3].copy_from_slice(b"eve");
    chat.on_chat_join(5, &username);
    let (name2, _) = chat.on_client_chat_message(5, b"hi");
    assert_eq!(&name2[..3], b"eve");
}

#[test]
fn stream_registration_messages() {
    let (x, y, w, h) = (0.0f32, -500.0f32, 250.0f32, 125.5f32);
    let rel = stream_ready_messages(7, 2, "zone-7", x.to_bits(), y.to_bits(), w.to_bits(), h.to_bits(), true);
    assert_eq!(rel.len(), 3);
    match &rel[0] {
        BrokerMessage::Publish { topic, payload } => {
            assert_eq!(&topic[..7], b"shard:7");
            assert!(payload.is_empty());
        }
        other => panic!("unexpected {:?}", other),
    }
    assert!(matches!(rel[1], BrokerMessage::ShardReady { shard_id: 7 }));
    match &rel[2] {
        BrokerMessage::InterShardMessage { topic_dest, topic_from, payload } => {
            assert_eq!(*topic_dest, string_to_topic("shard:2"));
            assert_eq!(*topic_from, string_to_topic("zone-7"));
            assert_eq!(payload[0], 0x21);
            assert_eq!(payload.len(), 17);
            match InterShardPayload::from_bytes(payload) {
                Some(InterShardPayload::FoodTakeoverRequest { bounds_x, bounds_y, bounds_w, bounds_h }) => {
                    assert_eq!(
                        (f32::from_bits(bounds_x), f32::from_bits(bounds_y), f32::from_bits(bounds_w), f32::from_bits(bounds_h)),
                        (x, y, w, h)
                    );
                }
                other => panic!("unexpected {:?}", other),
            }
            assert_eq!(&payload[1..5], &x.to_bits().to_le_bytes());
            assert_eq!(&payload[13..17], &h.to_bits().to_le_bytes());
        }
        other => panic!("unexpected {:?}", other),
    }
    let unrel = stream_ready_messages(7, 2, "zone-7", 0, 0, 0, 0, false);
    assert_eq!(unrel.len(), 1);
    let root = stream_ready_messages(0, 0, "zone-0", 0, 0, 0, 0, true);
    assert_eq!(root.len(), 2);
}

#[test]
fn player_updates_follow_the_state() {
    let me = string_to_topic("shard:1");
    let n1 = string_to_topic("shard:2");
    let n2 = string_to_topic("shard:3");
    assert!(player_updates(&me, 4, &EntityState::Replica, 1, 2, 3, 4).is_empty());
    let owned = player_updates(&me, 4, &EntityState::Owned, 1, 2, 3, 4);
    assert_eq!(owned.len(), 1);
    assert!(matches!(owned[0], BrokerMessage::PositionUpdate { client_id: 4, x: 1, y: 2 }));
    let pending = EntityState::PendingHandoff { neighbor_topics: vec![n1, n2] };
    let out = player_updates(&me, 4, &pending, 1, 2, 3, 4);
    assert_eq!(out.len(), 3);
    match &out[2] {
        BrokerMessage::InterShardMessage { topic_dest, topic_from, payload } => {
            assert_eq!(topic_dest, &n2);
            assert_eq!(topic_from, &me);
            let p = InterShardPayload::from_bytes(payload).unwrap();
            assert_eq!(
                format!("{:?}", p),
                format!("{:?}", InterShardPayload::GhostUpdate { entity_id: 4, pos_x: 1, pos_y: 2, vel_x: 3, vel_y: 4 })
            );
        }
        other => panic!("unexpected {:?}", other),
    }
}

#[test]
fn datagrams_respect_the_limit() {
    let msgs = vec![vec![1u8; 400], vec![2u8; 400], vec![3u8; 400]];
    let out = pack_datagrams(&msgs, 1000);
    assert_eq!(out.iter().map(|d| d.len()).collect::<Vec<_>>(), vec![800, 400]);
    assert_eq!(out.concat(), msgs.concat());
    let big = vec![vec![1u8; 10], vec![9u8; 1200], vec![5u8; 3]];
    let out2 = pack_datagrams(&big, 1000);
    assert_eq!(out2.iter().map(|d| d.len()).collect::<Vec<_>>(), vec![10, 1200, 3]);
    assert!(pack_datagrams(&Vec::new(), 1000).is_empty());
    let exact = vec![vec![0u8; 600], vec![0u8; 400]];
    assert_eq!(pack_datagrams(&exact, 1000).len(), 1);
}

#[test]
fn ports_are_tried_in_order_within_range() {
    let mut cursor = 8001u16;
    let mut tried = Vec::new();
    for _ in 0..3 {
        let (port, next) = next_port_candidate(cursor);
        tried.push(port);
        cursor = next;
    }
    assert_eq!(tried, vec![8001, 8002, 8003]);
    let mut c = 8001u16;
    for _ in 0..2000 {
        let (port, next) = next_port_candidate(c);
        assert!((8001..=9000).contains(&port));
        c = next;
    }
}

#[test]
fn word_list_lines_follow_line_endings() {
    assert_eq!(
        bad_words("Ab\r\n\n\u{3000}Cd\u{a0}\r\n\t"),
        vec!["ab".to_string(), "cd".to_string()]
    );
    assert!(bad_words("").is_empty());
}
