use std::collections::HashMap;

use ironring::models::{NodeInfo, NodeStatus};
use ironring::ring::HashRing;

fn create_node(id: &str, port: u16) -> NodeInfo {
    NodeInfo {
        node_id: id.to_string(),
        node_port: port,
        host: "127.0.0.1".to_string(),
        status: NodeStatus::Alive,
        last_heartbeat: None,
    }
}

fn build_ring() -> HashRing {
    let mut ring = HashRing::new();

    ring.add_node(create_node("worker-1", 8081));
    ring.add_node(create_node("worker-2", 8082));
    ring.add_node(create_node("worker-3", 8083));
    ring.add_node(create_node("worker-4", 8084));

    ring
}

#[test]
fn same_key_maps_to_same_primary() {
    let ring = build_ring();

    let first = ring.find_primary("my-key").unwrap().node_id.clone();

    for _ in 0..10 {
        let current = ring.find_primary("my-key").unwrap().node_id.clone();

        assert_eq!(first, current);
    }
}

#[test]
fn replicas_are_not_primary() {
    let ring = build_ring();

    let primary = ring.find_primary("alpha").unwrap();

    let replicas = ring.find_replicas("alpha");

    for replica in replicas {
        assert_ne!(replica.node_id, primary.node_id);
    }
}

#[test]
fn replicas_are_distinct() {
    let ring = build_ring();

    let replicas = ring.find_replicas("beta");

    assert_eq!(replicas.len(), 2);

    assert_ne!(replicas[0].node_id, replicas[1].node_id);
}

#[test]
fn removing_node_changes_only_its_keys() {
    let mut ring = build_ring();

    let mut original: HashMap<String, String> = HashMap::new();
    for i in 0..100 {
        let key = format!("key-{}", i);

        let owner = ring.find_primary(&key).unwrap().node_id.clone();

        original.insert(key, owner);
    }

    ring.remove_node("worker-2");

    for (key, old_owner) in original {
        let new_owner = ring.find_primary(&key).unwrap().node_id.clone();

        if old_owner != "worker-2" {
            assert_eq!(old_owner, new_owner);
        }
    }
}

#[test]
fn empty_ring_returns_none() {
    let ring = HashRing::new();

    let result = ring.find_primary("test-key");

    assert!(result.is_none());
}

#[test]
fn add_node_places_150_sorted_virtual_nodes() {
    let mut ring = HashRing::new();
    ring.add_node(create_node("worker-1", 8081));
    assert_eq!(ring.virtual_nodes.len(), 150);
    assert!(ring.virtual_nodes.iter().all(|v| v.node_id == "worker-1"));
    for w in ring.virtual_nodes.windows(2) {
        assert!(w[0].position <= w[1].position);
    }
    // the first virtual node of worker-1 sits at the hash of "worker-1-0"
    assert!(ring.virtual_nodes.iter().any(|v| v.position == 12959588259505807858));
    ring.add_node(create_node("worker-2", 8082));
    assert_eq!(ring.virtual_nodes.len(), 300);
    for w in ring.virtual_nodes.windows(2) {
        assert!(w[0].position <= w[1].position);
    }
    assert_eq!(ring.get_all_nodes().len(), 2);
}

#[test]
fn primary_is_owner_of_first_virtual_node_at_or_after_hash() {
    let ring = build_ring();
    // "my-key" hashes to 6807338441139796476
    let h: u64 = 6807338441139796476;
    let expected = ring
        .virtual_nodes
        .iter()
        .find(|v| v.position >= h)
        .unwrap_or(&ring.virtual_nodes[0])
        .node_id
        .clone();
    assert_eq!(ring.find_primary("my-key").unwrap().node_id, expected);
}

#[test]
fn replicas_with_two_nodes_and_one_node() {
    let mut ring = HashRing::new();
    ring.add_node(create_node("worker-1", 8081));
    assert_eq!(ring.find_replicas("k").len(), 0);
    ring.add_node(create_node("worker-2", 8082));
    let primary = ring.find_primary("k").unwrap().node_id.clone();
    let replicas = ring.find_replicas("k");
    assert_eq!(replicas.len(), 1);
    assert_ne!(replicas[0].node_id, primary);
}

#[test]
fn every_key_gets_two_distinct_replicas_with_four_nodes() {
    let ring = build_ring();
    for i in 0..200 {
        let key = format!("k{}", i);
        let primary = ring.find_primary(&key).unwrap().node_id.clone();
        let replicas = ring.find_replicas(&key);
        assert_eq!(replicas.len(), 2);
        assert_ne!(replicas[0].node_id, replicas[1].node_id);
        assert_ne!(replicas[0].node_id, primary);
        assert_ne!(replicas[1].node_id, primary);
    }
}

#[test]
fn remove_node_drops_its_virtual_nodes_and_entry() {
    let mut ring = build_ring();
    ring.remove_node("worker-3");
    assert_eq!(ring.virtual_nodes.len(), 450);
    assert!(ring.virtual_nodes.iter().all(|v| v.node_id != "worker-3"));
    assert!(ring.get_all_nodes().iter().all(|n| n.node_id != "worker-3"));
    assert_eq!(ring.get_all_nodes().len(), 3);
    // removing an unknown node changes nothing
    ring.remove_node("nobody");
    assert_eq!(ring.virtual_nodes.len(), 450);
}

#[test]
fn ring_state_round_trip_keeps_owners() {
    let ring = build_ring();
    let state = ring.to_ring_state(7);
    assert_eq!(state.ring_version, 7);
    assert_eq!(state.replication_factor, 3);
    assert_eq!(state.virtual_nodes.len(), 600);
    assert_eq!(state.nodes.len(), 4);
    let copy = HashRing::from_ring_state(state);
    assert_eq!(copy.virtual_nodes_per_physical, 150);
    for i in 0..50 {
        let key = format!("key-{}", i);
        assert_eq!(
            copy.find_primary(&key).unwrap().node_id,
            ring.find_primary(&key).unwrap().node_id
        );
        let a: Vec<String> = copy.find_replicas(&key).iter().map(|n| n.node_id.clone()).collect();
        let b: Vec<String> = ring.find_replicas(&key).iter().map(|n| n.node_id.clone()).collect();
        assert_eq!(a, b);
    }
}

#[test]
fn adding_same_node_twice_keeps_one_entry_and_150_positions() {
    let mut ring = HashRing::new();
    ring.add_node(create_node("worker-1", 8081));
    ring.add_node(create_node("worker-1", 9091));
    assert_eq!(ring.get_all_nodes().len(), 1);
    assert_eq!(ring.get_all_nodes()[0].node_port, 9091);
    assert_eq!(ring.virtual_nodes.len(), 150);
    assert!(ring.virtual_nodes.iter().all(|v| v.node_id == "worker-1"));
    for w in ring.virtual_nodes.windows(2) {
        assert!(w[0].position < w[1].position);
    }
}

#[test]
fn primary_at_positions_and_wraparound() {
    let ring = build_ring();
    let first = &ring.virtual_nodes[0];
    assert_eq!(ring.primary_at(0).unwrap().node_id, first.node_id);
    assert_eq!(ring.primary_at(first.position).unwrap().node_id, first.node_id);
    let tenth = &ring.virtual_nodes[10];
    let before = ring.virtual_nodes[9].position;
    if before < tenth.position {
        assert_eq!(ring.primary_at(before + 1).unwrap().node_id, tenth.node_id);
    }
    let last = ring.virtual_nodes.last().unwrap().position;
    if last < u64::MAX {
        assert_eq!(ring.primary_at(last + 1).unwrap().node_id, first.node_id);
    }
    assert!(HashRing::new().primary_at(42).is_none());
}

#[test]
fn replicas_at_walk_clockwise_from_primary() {
    let ring = build_ring();
    let h = ring.virtual_nodes[0].position;
    let primary = ring.primary_at(h).unwrap().node_id.clone();
    let mut expected: Vec<String> = Vec::new();
    for v in ring.virtual_nodes.iter() {
        if expected.len() == 2 {
            break;
        }
        if v.node_id != primary && !expected.contains(&v.node_id) {
            expected.push(v.node_id.clone());
        }
    }
    let got: Vec<String> = ring.replicas_at(h).iter().map(|n| n.node_id.clone()).collect();
    assert_eq!(got, expected);
    assert!(HashRing::new().replicas_at(7).is_empty());
}

#[test]
fn adding_node_moves_keys_only_to_it() {
    let mut ring = HashRing::new();
    ring.add_node(create_node("worker-1", 8081));
    ring.add_node(create_node("worker-2", 8082));
    ring.add_node(create_node("worker-3", 8083));
    let before: Vec<String> = (0..300)
        .map(|i| ring.find_primary(&format!("key-{}", i)).unwrap().node_id.clone())
        .collect();
    ring.add_node(create_node("worker-4", 8084));
    let mut moved = 0;
    for i in 0..300 {
        let now = ring.find_primary(&format!("key-{}", i)).unwrap().node_id.clone();
        if now != before[i] {
            assert_eq!(now, "worker-4");
            moved += 1;
        }
    }
    assert!(moved > 0);
}

#[test]
fn adding_then_removing_a_new_node_restores_the_ring() {
    let mut ring = build_ring();
    ring.remove_node("worker-4");
    let before_vns = ring.virtual_nodes.clone();
    let before_ids: Vec<String> = ring.get_all_nodes().into_iter().map(|n| n.node_id).collect();
    ring.add_node(create_node("worker-9", 8089));
    assert_eq!(ring.virtual_nodes.len(), before_vns.len() + 150);
    ring.remove_node("worker-9");
    assert_eq!(ring.virtual_nodes, before_vns);
    let after_ids: Vec<String> = ring.get_all_nodes().into_iter().map(|n| n.node_id).collect();
    assert_eq!(after_ids, before_ids);
}
