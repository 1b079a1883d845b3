use mmorpg_lab::geometry::{Rect, Vec2};
use mmorpg_lab::quadtree::{QuadTree, ShardStatus};
use mmorpg_lab::spatial::{shard_topic, PlayerSplitState, PlayerState, QuicConnection, SpatialAction, SpatialService};
use mmorpg_lab::util::{get_added_ids, get_removed_ids};

fn names(actions: &[SpatialAction]) -> Vec<String> {
    actions.iter().map(|a| format!("{:?}", a)).collect()
}

#[test]
fn added_and_removed_ids() {
    assert_eq!(get_added_ids(&[1, 2, 3], &[2, 3, 4, 5]), vec![4, 5]);
    assert_eq!(get_removed_ids(&[1, 2, 3], &[2, 3, 4, 5]), vec![1]);
    assert_eq!(get_added_ids(&[], &[7]), vec![7]);
    assert_eq!(get_removed_ids(&[7], &[7]), Vec::<u32>::new());
}

#[test]
fn rect_quarters_and_center() {
    let r = Rect { x: -2000, y: -2000, width: 4000, height: 4000 };
    assert!(r.contains(&Vec2 { x: -2000, y: 1999 }));
    assert!(!r.contains(&Vec2 { x: 2000, y: 0 }));
    let c = r.center();
    assert_eq!((c.x, c.y), (0, 0));
    let q3 = r.quadrant(3);
    assert_eq!((q3.x, q3.y, q3.width, q3.height), (0, 0, 2000, 2000));
    let odd = Rect { x: 0, y: 0, width: 5, height: 5 };
    let q1 = odd.quadrant(1);
    assert_eq!((q1.x, q1.width), (2, 3));
    assert!(r.intersects(&Rect { x: 2000, y: 0, width: 10, height: 10 }));
    assert!(!r.intersects(&Rect { x: 2001, y: 0, width: 10, height: 10 }));
}

#[test]
fn quadtree_splits_and_commits() {
    let bounds = Rect { x: 0, y: 0, width: 100, height: 100 };
    let mut t = QuadTree::new(bounds, 0, 1, 1, 0);
    let r1 = t.insert_player(1, Vec2 { x: 10, y: 10 }).unwrap();
    assert_eq!((r1.logical_shard_id, r1.network_shard_id), (0, 0));
    assert!(r1.trigger_orchestrator.is_none());
    let r2 = t.insert_player(2, Vec2 { x: 80, y: 80 }).unwrap();
    let split = r2.trigger_orchestrator.expect("split");
    assert_eq!(split.parent_shard_id, 0);
    assert_eq!(split.new_shards_ids, [1, 2, 3, 4]);
    assert_eq!(r2.logical_shard_id, 4);
    assert_eq!(r2.network_shard_id, 0);
    assert_eq!(t.shard_for(&Vec2 { x: 10, y: 10 }), Some(1));
    assert_eq!(t.shard_for(&Vec2 { x: 200, y: 10 }), None);
    assert!(t.insert_player(3, Vec2 { x: 500, y: 500 }).is_none());
    let (fallback, moved) = t.commit_child_split(4).expect("pending shard 4");
    assert_eq!(fallback, 0);
    assert!(moved.iter().all(|(c, s)| *c == 2 && *s == 4));
    assert!(!moved.is_empty());
    assert!(t.commit_child_split(4).is_none());
    let children = t.children.as_ref().unwrap();
    assert_eq!(children[3].status, ShardStatus::Active);
    assert_eq!(children[0].status, ShardStatus::Pending { fallback_shard_id: 0 });
    assert!(t.remove_player(1));
    assert!(!t.remove_player(1));
    assert_eq!(t.shards_near(&Vec2 { x: 50, y: 50 }, 10), vec![1, 2, 3, 4]);
    assert_eq!(t.shards_near(&Vec2 { x: 10, y: 10 }, 5), vec![1]);
}

#[test]
fn shard_topic_names_the_shard() {
    let t = shard_topic(12);
    assert_eq!(&t[..8], b"shard:12");
    assert!(t[8..].iter().all(|b| *b == 0));
}

#[test]
fn first_players_subscribe_then_split_is_requested() {
    let mut s = SpatialService::new();
    let a1 = s.handle_position_update(1, Vec2 { x: -100, y: -100 });
    assert_eq!(names(&a1), vec!["Subscribe { client_id: 1, shard_id: 0 }".to_string()]);
    let again = s.handle_position_update(1, Vec2 { x: -90, y: -100 });
    assert!(again.is_empty());
    let a2 = s.handle_position_update(2, Vec2 { x: 100, y: 100 });
    assert_eq!(names(&a2), vec!["Subscribe { client_id: 2, shard_id: 0 }".to_string()]);
    let a3 = s.handle_position_update(3, Vec2 { x: 500, y: 500 });
    let n3 = names(&a3);
    assert_eq!(n3[0], "Subscribe { client_id: 3, shard_id: 0 }");
    assert!(n3[1].starts_with("RequestSplit { split: SplitData { parent_shard_id: 0, new_shards_ids: [1, 2, 3, 4] }"));
    assert_eq!(n3[2], "NewSpawnShard { new_shard_id: 4 }");
    assert_eq!(n3[3], "CrossingAlert { client_id: 3, owner_shard_id: 0, neighbor_shard_id: 4 }");
    assert_eq!(n3[4], "CrossingExit { client_id: 3, old_shard_id: 0, owner_shard_id: 0 }");
    assert_eq!(n3.len(), 5);
    assert_eq!(s.spawn_shard_id, 4);
    match a3[1].to_orchestrator_message() {
        Some(m) => assert_eq!(m.to_bytes(), vec![1u8, 0, 0, 0, 0]),
        None => panic!("split request has an orchestrator message"),
    }
    assert!(a3[0].to_orchestrator_message().is_none());
    assert!(a3[1].to_broker_message().is_none());
}

#[test]
fn shard_ready_hands_players_over() {
    let mut s = SpatialService::new();
    s.handle_position_update(1, Vec2 { x: -100, y: -100 });
    s.handle_position_update(2, Vec2 { x: 100, y: 100 });
    s.handle_position_update(3, Vec2 { x: 500, y: 500 });
    let ready = s.handle_shard_ready(4);
    let n = names(&ready);
    assert!(!n.is_empty());
    assert_eq!(n.len() % 3, 0);
    assert!(n.iter().any(|a| a == "SwitchAuthority { client_id: 3, owner_shard_id: 0, neighbor_shard_id: 4 }"));
    assert_eq!(s.client_shards.get(&3), Some(&4));
    assert_eq!(s.client_crossing_state.get(&3), Some(&vec![4]));
    assert!(s.handle_shard_ready(4).is_empty());
    assert!(s.handle_shard_ready(99).is_empty());
}

#[test]
fn moving_across_a_border_hands_over() {
    let mut s = SpatialService::new();
    s.handle_position_update(1, Vec2 { x: -100, y: -100 });
    s.handle_position_update(2, Vec2 { x: 100, y: 100 });
    s.handle_position_update(3, Vec2 { x: 500, y: 500 });
    for id in 1..5 {
        s.handle_shard_ready(id);
    }
    let a = s.handle_position_update(3, Vec2 { x: -500, y: 500 });
    let n = names(&a);
    assert_eq!(n[0], "CrossingAlert { client_id: 3, owner_shard_id: 4, neighbor_shard_id: 3 }");
    assert_eq!(n[1], "SwitchAuthority { client_id: 3, owner_shard_id: 4, neighbor_shard_id: 3 }");
    assert_eq!(n[2], "CrossingExit { client_id: 3, old_shard_id: 4, owner_shard_id: 3 }");
    assert_eq!(s.client_shards.get(&3), Some(&3));
}

#[test]
fn leaving_the_map_only_removes() {
    let mut s = SpatialService::new();
    s.handle_position_update(1, Vec2 { x: 0, y: 0 });
    let out = s.handle_position_update(1, Vec2 { x: 5000, y: 0 });
    assert!(out.is_empty());
    assert_eq!(s.client_shards.get(&1), Some(&0));
    s.handle_player_disconnected(1);
    assert!(s.client_shards.get(&1).is_none());
    assert!(s.client_crossing_state.get(&1).is_none());
}

#[test]
fn handoff_stages_run_in_order() {
    let mut s = SpatialService::new();
    s.player_states.push(PlayerState {
        client_id: 5,
        parent_shard_id: 0,
        neighbor_shard_id: 2,
        split_state: PlayerSplitState::EmitCrossingAlert,
    });
    let a = s.process_player_states();
    assert_eq!(names(&a), vec!["CrossingAlert { client_id: 5, owner_shard_id: 0, neighbor_shard_id: 2 }".to_string()]);
    let b = s.process_player_states();
    assert_eq!(names(&b), vec!["SwitchAuthority { client_id: 5, owner_shard_id: 0, neighbor_shard_id: 2 }".to_string()]);
    let c = s.process_player_states();
    assert_eq!(names(&c), vec!["CrossingExit { client_id: 5, old_shard_id: 0, owner_shard_id: 2 }".to_string()]);
    assert!(s.player_states.is_empty());
    assert!(s.process_player_states().is_empty());
}

#[test]
fn broker_messages_of_actions() {
    let sub = SpatialAction::Subscribe { client_id: 9, shard_id: 3 };
    match sub.to_broker_message() {
        Some(m) => {
            let bytes = m.to_bytes();
            assert_eq!(bytes[0], 0x01);
            assert_eq!(&bytes[5..12], b"shard:3");
        }
        None => panic!("subscribe has a broker message"),
    }
    let exit = SpatialAction::CrossingExit { client_id: 9, old_shard_id: 1, owner_shard_id: 2 };
    let text = format!("{:?}", exit.to_broker_message());
    assert!(text.starts_with("Some(CrossingExit"));
    assert!(SpatialAction::NewSpawnShard { new_shard_id: 1 }.to_broker_message().is_none());
}

#[test]
fn connection_state_follows_events() {
    let mut c = QuicConnection::new();
    assert!(c.reliable_target().is_none());
    c.on_connected(77);
    c.on_stream_created(5, true);
    c.on_stream_created(6, false);
    assert_eq!(c.reliable_target(), Some((77, 5)));
    c.on_stream_closed(true);
    assert!(c.reliable_target().is_none());
    assert_eq!(c.unreliable_stream, Some(6));
    assert!(!c.on_disconnected(1));
    assert!(c.on_disconnected(77));
    assert!(c.connection.is_none() && c.unreliable_stream.is_none());
}

#[test]
fn every_point_of_the_map_has_a_shard() {
    let mut s = SpatialService::new();
    s.handle_position_update(1, Vec2 { x: -100, y: -100 });
    s.handle_position_update(2, Vec2 { x: 100, y: 100 });
    s.handle_position_update(3, Vec2 { x: 500, y: 500 });
    let mut x = -2000;
    while x < 2000 {
        let mut y = -2000;
        while y < 2000 {
            assert!(s.quad_tree.shard_for(&Vec2 { x, y }).is_some());
            y += 250;
        }
        x += 250;
    }
    assert_eq!(s.quad_tree.shard_for(&Vec2 { x: -2000, y: -2000 }), Some(1));
    assert_eq!(s.quad_tree.shard_for(&Vec2 { x: 1999, y: 1999 }), Some(4));
    assert!(s.quad_tree.shard_for(&Vec2 { x: 2000, y: 0 }).is_none());
}

#[test]
fn insert_then_remove_restores_players() {
    let mut t = QuadTree::new(Rect { x: 0, y: 0, width: 100, height: 100 }, 0, 1, 4, 0);
    t.insert_player(1, Vec2 { x: 5, y: 5 });
    let before = t.players.clone();
    t.insert_player(2, Vec2 { x: 50, y: 60 });
    assert!(t.remove_player(2));
    assert_eq!(t.players, before);
}

#[test]
fn split_children_are_pending_with_the_reported_ids() {
    let mut t = QuadTree::new(Rect { x: 0, y: 0, width: 100, height: 100 }, 0, 1, 1, 0);
    t.insert_player(1, Vec2 { x: 10, y: 10 }).unwrap();
    let r = t.insert_player(2, Vec2 { x: 20, y: 70 }).unwrap();
    let split = r.trigger_orchestrator.expect("split");
    let children = t.children.as_ref().unwrap();
    for (i, child) in children.iter().enumerate() {
        assert_eq!(child.shard_id, Some(split.new_shards_ids[i]));
        assert_eq!(child.status, ShardStatus::Pending { fallback_shard_id: 0 });
    }
    assert_eq!(r.logical_shard_id, split.new_shards_ids[2]);
    assert_eq!(r.network_shard_id, 0);
    let again = t.insert_player(3, Vec2 { x: 90, y: 90 }).unwrap();
    assert_eq!((again.logical_shard_id, again.network_shard_id), (4, 0));
    assert!(again.trigger_orchestrator.is_none());
}

#[test]
fn remove_player_takes_the_first_entry_in_tree_order() {
    let mut leaf = QuadTree::new(Rect { x: 0, y: 0, width: 100, height: 100 }, 0, 0, 10, 0);
    leaf.insert_player(1, Vec2 { x: 10, y: 10 }).unwrap();
    leaf.insert_player(2, Vec2 { x: 30, y: 30 }).unwrap();
    leaf.insert_player(1, Vec2 { x: 20, y: 20 }).unwrap();
    assert!(leaf.remove_player(1));
    assert_eq!(leaf.players, vec![(2, Vec2 { x: 30, y: 30 }), (1, Vec2 { x: 20, y: 20 })]);

    let mut t = QuadTree::new(Rect { x: 0, y: 0, width: 100, height: 100 }, 0, 1, 1, 0);
    t.insert_player(5, Vec2 { x: 10, y: 80 }).unwrap();
    t.insert_player(5, Vec2 { x: 80, y: 10 }).unwrap();
    // The splitting insert leaves the new player twice in its quarter.
    assert_eq!(t.children.as_ref().unwrap()[1].players.len(), 2);
    assert!(t.remove_player(5));
    assert!(t.remove_player(5));
    let children = t.children.as_ref().unwrap();
    assert!(children[1].players.is_empty());
    assert_eq!(children[2].players, vec![(5, Vec2 { x: 10, y: 80 })]);
    assert!(t.remove_player(5));
    assert!(!t.remove_player(5));
}
