use mmorpg_lab::broker::{batch_position_updates, BrokerAction};
use mmorpg_lab::broker_protocol::{string_to_topic, BrokerMessage, InterShardPayload};
use mmorpg_lab::handoff::{EntityState, ShardReaction};
use mmorpg_lab::shard_registry::{ShardRegistry, SPAWN_X_BITS, SPAWN_Y_BITS};

fn name12(s: &str) -> [u8; 12] {
    let mut b = [0u8; 12];
    b[..s.len()].copy_from_slice(s.as_bytes());
    b
}

fn topics(state: &EntityState) -> Option<Vec<[u8; 32]>> {
    match state {
        EntityState::PendingHandoff { neighbor_topics } => Some(neighbor_topics.clone()),
        _ => None,
    }
}

#[test]
fn spawn_constants_are_the_spawn_point() {
    assert_eq!(f32::from_bits(SPAWN_X_BITS), 32.0);
    assert_eq!(f32::from_bits(SPAWN_Y_BITS), 40.0);
}

#[test]
fn join_places_an_owned_player_at_spawn() {
    let mut r = ShardRegistry::new();
    r.join(7, &name12("alice"));
    let p = r.players.get(&7).unwrap();
    assert_eq!(p.username, "alice");
    assert_eq!((p.pos_x, p.pos_y, p.vel_x, p.vel_y, p.score), (SPAWN_X_BITS, SPAWN_Y_BITS, 0, 0, 0));
    assert!(matches!(p.state, EntityState::Owned));
    r.drop_player(7);
    assert!(r.players.is_empty());
}

#[test]
fn begin_handoff_requests_a_replica_and_widens_once() {
    let mut r = ShardRegistry::new();
    r.join(3, &name12("bob"));
    let east = string_to_topic("east");
    let req = r.begin_handoff(3, east).unwrap();
    match req {
        InterShardPayload::HandoffRequest { entity_id, pos_x, pos_y, vel_x, vel_y, state } => {
            assert_eq!((entity_id, pos_x, pos_y, vel_x, vel_y), (3, SPAWN_X_BITS, SPAWN_Y_BITS, 0, 0));
            assert_eq!(&state[..3], b"bob");
            assert!(state[3..].iter().all(|&b| b == 0));
        }
        other => panic!("unexpected {:?}", other),
    }
    assert_eq!(topics(&r.players[&3].state), Some(vec![east]));
    let again = r.begin_handoff(3, east);
    assert!(again.is_some());
    assert_eq!(topics(&r.players[&3].state), Some(vec![east]));
    let north = string_to_topic("north");
    r.begin_handoff(3, north);
    assert_eq!(topics(&r.players[&3].state), Some(vec![east, north]));
    r.neighbor_exited(3, &east);
    assert_eq!(topics(&r.players[&3].state), Some(vec![north]));
    r.neighbor_exited(3, &north);
    assert!(matches!(r.players[&3].state, EntityState::Owned));
}

#[test]
fn unknown_players_are_left_alone() {
    let mut r = ShardRegistry::new();
    assert!(r.begin_handoff(9, string_to_topic("east")).is_none());
    assert!(r.become_replica(9).is_none());
    r.neighbor_exited(9, &string_to_topic("east"));
    r.apply_inter_shard(string_to_topic("east"), InterShardPayload::GhostUpdate { entity_id: 9, pos_x: 1, pos_y: 2, vel_x: 3, vel_y: 4 });
    r.apply_inter_shard(string_to_topic("east"), InterShardPayload::HandoffComplete { entity_id: 9 });
    assert!(r.players.is_empty());
}

#[test]
fn replica_lifecycle_between_two_shards() {
    let west = string_to_topic("west");
    let mut r = ShardRegistry::new();
    let mut state = [0u8; 64];
    state[..5].copy_from_slice(b"carol");
    r.apply_inter_shard(west, InterShardPayload::HandoffRequest { entity_id: 4, pos_x: 10, pos_y: 20, vel_x: 1, vel_y: 2, state });
    let p = &r.players[&4];
    assert_eq!(p.username, "carol");
    assert_eq!((p.pos_x, p.pos_y, p.vel_x, p.vel_y, p.score), (10, 20, 1, 2, 0));
    assert!(matches!(p.state, EntityState::Replica));
    r.apply_inter_shard(west, InterShardPayload::GhostUpdate { entity_id: 4, pos_x: 11, pos_y: 21, vel_x: 5, vel_y: 6 });
    let p = &r.players[&4];
    assert_eq!((p.pos_x, p.pos_y, p.vel_x, p.vel_y), (11, 21, 5, 6));
    r.apply_inter_shard(west, InterShardPayload::HandoffComplete { entity_id: 4 });
    assert_eq!(topics(&r.players[&4].state), Some(vec![west]));
    // An owned player ignores replica updates.
    r.apply_inter_shard(west, InterShardPayload::GhostUpdate { entity_id: 4, pos_x: 0, pos_y: 0, vel_x: 0, vel_y: 0 });
    assert_eq!(r.players[&4].pos_x, 11);
}

#[test]
fn become_replica_reports_completion() {
    let mut r = ShardRegistry::new();
    r.join(5, &name12("dan"));
    match r.become_replica(5) {
        Some(InterShardPayload::HandoffComplete { entity_id }) => assert_eq!(entity_id, 5),
        other => panic!("unexpected {:?}", other),
    }
    assert!(matches!(r.players[&5].state, EntityState::Replica));
}

#[test]
fn position_updates_are_batched_per_connection() {
    let pu = |c: u32| BrokerMessage::PositionUpdate { client_id: c, x: c, y: c + 1 };
    let actions = vec![
        BrokerAction::Send { to: 1, reliable: false, msg: pu(10) },
        BrokerAction::Welcome { to: 1, reliable: true, player_id: 4 },
        BrokerAction::Send { to: 2, reliable: false, msg: pu(11) },
        BrokerAction::Send { to: 1, reliable: false, msg: pu(12) },
        BrokerAction::Send { to: 2, reliable: true, msg: BrokerMessage::ShardReady { shard_id: 3 } },
    ];
    let (others, batches) = batch_position_updates(actions);
    assert_eq!(others.len(), 2);
    assert!(matches!(others[0], BrokerAction::Welcome { to: 1, player_id: 4, .. }));
    assert!(matches!(others[1], BrokerAction::Send { to: 2, msg: BrokerMessage::ShardReady { shard_id: 3 }, .. }));
    assert_eq!(batches.len(), 2);
    let mut first = pu(10).to_bytes();
    first.extend(pu(12).to_bytes());
    assert_eq!(batches[0], (1, first));
    assert_eq!(batches[1], (2, pu(11).to_bytes()));
}

#[test]
fn reactions_update_the_registry_and_answer() {
    let me = string_to_topic("shard:1");
    let east = string_to_topic("shard:2");
    let mut r = ShardRegistry::new();
    r.join(3, &name12("eve"));
    let out = r.apply_reaction(me, ShardReaction::BeginHandoff { client_id: 3, neighbor_topic: east });
    assert_eq!(out.len(), 1);
    match &out[0] {
        BrokerMessage::InterShardMessage { topic_dest, topic_from, payload } => {
            assert_eq!((*topic_dest, *topic_from), (east, me));
            assert_eq!(payload[0], 0x20);
            assert_eq!(payload.len(), 85);
            assert_eq!(&payload[21..24], b"eve");
        }
        other => panic!("unexpected {:?}", other),
    }
    assert_eq!(topics(&r.players[&3].state), Some(vec![east]));
    let out = r.apply_reaction(me, ShardReaction::BecomeReplica { client_id: 3, new_auth_topic: east });
    match &out[..] {
        [BrokerMessage::InterShardMessage { topic_dest, payload, .. }] => {
            assert_eq!(*topic_dest, east);
            assert_eq!(payload, &vec![0x24, 3, 0, 0, 0]);
        }
        other => panic!("unexpected {:?}", other),
    }
    assert!(matches!(r.players[&3].state, EntityState::Replica));
    assert!(r.apply_reaction(me, ShardReaction::Input { client_id: 3, input: [0; 16] }).is_empty());
    assert!(r.apply_reaction(me, ShardReaction::Ignore).is_empty());
    assert!(r.apply_reaction(me, ShardReaction::BeginHandoff { client_id: 99, neighbor_topic: east }).is_empty());
    assert!(r
        .apply_reaction(me, ShardReaction::InterShard {
            from_topic: east,
            payload: InterShardPayload::FoodTakeoverRequest { bounds_x: 0, bounds_y: 0, bounds_w: 1, bounds_h: 1 },
        })
        .is_empty());
    assert_eq!(r.players.len(), 1);
    r.apply_reaction(me, ShardReaction::DropPlayer { client_id: 3 });
    assert!(r.players.is_empty());
}
