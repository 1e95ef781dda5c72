use ironring::controller::{seconds_between, AppState};
use ironring::models::{HeartbeatRequest, NodeRegisterRequest, NodeStatus};

/// Milliseconds as nanoseconds, the library's time unit.
fn ms(x: i64) -> i64 {
    x * 1_000_000
}

fn register(state: &mut AppState, id: &str, port: u16, now: i64) {
    let resp = state.register_node(
        NodeRegisterRequest { node_id: id.to_string(), host: "127.0.0.1".to_string(), port },
        now,
    );
    assert!(resp.success);
}

#[test]
fn registration_adds_node_and_bumps_version() {
    let mut state = AppState::new(0);
    let resp = state.register_node(
        NodeRegisterRequest { node_id: "worker-1".to_string(), host: "10.0.0.1".to_string(), port: 8081 },
        ms(1_000),
    );
    assert!(resp.success);
    assert_eq!(resp.ring_state.ring_version, 1);
    assert_eq!(resp.ring_state.replication_factor, 3);
    assert_eq!(resp.ring_state.nodes.len(), 1);
    assert_eq!(resp.ring_state.virtual_nodes.len(), 150);
    assert_eq!(resp.ring_state.nodes[0].status, NodeStatus::Alive);
    assert_eq!(resp.ring_state.nodes[0].last_heartbeat, None);
    assert_eq!(state.ring_version, 1);
    register(&mut state, "worker-2", 8082, ms(2_000));
    assert_eq!(state.ring_version, 2);
    assert_eq!(state.get_nodes().len(), 2);
    assert_eq!(state.get_ring().virtual_nodes.len(), 300);
    assert_eq!(state.get_ring().ring_version, 2);
}

#[test]
fn heartbeat_reports_ring_change() {
    let mut state = AppState::new(0);
    register(&mut state, "worker-1", 8081, 0);
    let stale = state.get_heartbeat(
        HeartbeatRequest { node_id: "worker-1".to_string(), timestamp: 5, ring_version: 0 },
        ms(3_000),
    );
    assert!(stale.acknowledged);
    assert!(stale.ring_changed);
    let fresh = state.get_heartbeat(
        HeartbeatRequest { node_id: "worker-1".to_string(), timestamp: 5, ring_version: 1 },
        ms(4_000),
    );
    assert!(!fresh.ring_changed);
    assert_eq!(state.get_nodes()[0].last_heartbeat, Some(ms(4_000)));
    // an unknown node's heartbeat is recorded but registers nothing
    let unknown = state.get_heartbeat(
        HeartbeatRequest { node_id: "ghost".to_string(), timestamp: 5, ring_version: 1 },
        ms(4_000),
    );
    assert!(unknown.acknowledged);
    assert_eq!(state.get_nodes().len(), 1);
    assert_eq!(state.last_heartbeat.get("ghost"), Some(&ms(4_000)));
}

#[test]
fn failure_detection_goes_alive_suspect_dead() {
    let mut state = AppState::new(0);
    register(&mut state, "worker-1", 8081, 0);
    register(&mut state, "worker-2", 8082, 0);
    register(&mut state, "worker-3", 8083, 0);
    // worker-1 and worker-3 keep sending heartbeats
    state.get_heartbeat(HeartbeatRequest { node_id: "worker-1".into(), timestamp: 0, ring_version: 3 }, ms(6_500));
    state.get_heartbeat(HeartbeatRequest { node_id: "worker-3".into(), timestamp: 0, ring_version: 3 }, ms(6_500));
    // 6.9 s of silence is 6 whole seconds: still alive
    let check = state.detect_failures(ms(6_999));
    assert!(check.suspected.is_empty() && check.died.is_empty());
    // 7 s: worker-2 becomes suspect, is not yet dead
    let check = state.detect_failures(ms(7_000));
    assert_eq!(check.suspected, vec!["worker-2".to_string()]);
    assert!(check.died.is_empty());
    assert_eq!(state.nodes.get("worker-2").unwrap().status, NodeStatus::Suspect);
    assert_eq!(state.ring_version, 3);
    // 12 s: suspect, not dead yet
    let check = state.detect_failures(ms(12_999));
    assert!(check.died.is_empty());
    // 13 s: dead, out of the ring, version bumped
    state.get_heartbeat(HeartbeatRequest { node_id: "worker-1".into(), timestamp: 0, ring_version: 3 }, ms(13_000));
    state.get_heartbeat(HeartbeatRequest { node_id: "worker-3".into(), timestamp: 0, ring_version: 3 }, ms(13_000));
    let check = state.detect_failures(ms(13_000));
    assert_eq!(check.died, vec!["worker-2".to_string()]);
    assert!(check.suspected.is_empty());
    assert_eq!(state.nodes.get("worker-2").unwrap().status, NodeStatus::Dead);
    assert_eq!(state.ring_version, 4);
    assert_eq!(state.get_ring().virtual_nodes.len(), 300);
    assert!(state.get_ring().virtual_nodes.iter().all(|(_, id)| id != "worker-2"));
    assert_eq!(state.get_ring().nodes.len(), 2);
    // a dead node stays dead
    let check = state.detect_failures(ms(60_000));
    assert!(check.died.iter().all(|id| id != "worker-2"));
    assert_eq!(state.nodes.get("worker-2").unwrap().status, NodeStatus::Dead);
}

#[test]
fn alive_node_is_never_killed_in_one_check() {
    let mut state = AppState::new(0);
    register(&mut state, "worker-1", 8081, 0);
    let check = state.detect_failures(ms(1_000_000));
    assert_eq!(check.suspected, vec!["worker-1".to_string()]);
    assert!(check.died.is_empty());
    let check = state.detect_failures(ms(1_000_000));
    assert_eq!(check.died, vec!["worker-1".to_string()]);
}

#[test]
fn metrics_count_nodes_by_status() {
    let mut state = AppState::new(ms(1_000));
    register(&mut state, "worker-1", 8081, 0);
    register(&mut state, "worker-2", 8082, 0);
    register(&mut state, "worker-3", 8083, ms(20_000));
    state.detect_failures(ms(10_000)); // worker-1, worker-2 suspect (worker-3 heard at 20 s)
    let m = state.get_metrics(ms(121_500));
    assert_eq!(m.total_nodes, 3);
    assert_eq!(m.alive_nodes, 1);
    assert_eq!(m.suspect_nodes, 2);
    assert_eq!(m.dead_nodes, 0);
    assert_eq!(m.ring_version, 3);
    assert_eq!(m.re_replication_count, 0);
    assert_eq!(m.uptime_seconds, 120);
    assert_eq!(m.alive_nodes + m.suspect_nodes + m.dead_nodes, m.total_nodes);
}

#[test]
fn elapsed_seconds_truncate_toward_zero() {
    assert_eq!(seconds_between(0, ms(6_999)), 6);
    assert_eq!(seconds_between(0, 999_999_999), 0);
    assert_eq!(seconds_between(1, 1_000_000_001), 1);
    assert_eq!(seconds_between(-1, 999_999_999), 1);
    assert_eq!(seconds_between(ms(7_000), 0), -7);
    assert_eq!(seconds_between(ms(6_999), 0), -6);
    assert_eq!(seconds_between(i64::MIN, i64::MAX), 18_446_744_073);
}

#[test]
fn surviving_nodes_skip_dead_ones() {
    let mut state = AppState::new(0);
    register(&mut state, "worker-1", 8081, 0);
    register(&mut state, "worker-2", 8082, ms(100_000));
    state.detect_failures(ms(50_000));
    state.detect_failures(ms(50_000));
    let survivors = state.surviving_nodes();
    assert_eq!(survivors, vec![("worker-2".to_string(), "127.0.0.1".to_string(), 8082)]);
}

#[test]
fn re_replication_runs_are_recorded() {
    let mut state = AppState::new(0);
    let before = state.get_status();
    assert_eq!(before.re_replication_count, 0);
    assert_eq!(before.last_replication_node, None);
    assert_eq!(before.last_replication_at, None);
    assert_eq!(before.last_replication_keys_success, 0);
    state.record_re_replication("worker-2".to_string(), ms(42_000), 7, 1);
    let after = state.get_status();
    assert_eq!(after.re_replication_count, 1);
    assert_eq!(after.last_replication_node, Some("worker-2".to_string()));
    assert_eq!(after.last_replication_at, Some(ms(42_000)));
    assert_eq!(after.last_replication_keys_success, 7);
    assert_eq!(after.last_replication_keys_failed, 1);
    assert_eq!(state.get_metrics(ms(43_000)).re_replication_count, 1);
}

#[test]
fn failure_check_previews_without_changing_state() {
    let mut state = AppState::new(0);
    register(&mut state, "worker-1", 8081, 0);
    let preview = state.failure_check(ms(7_000));
    assert_eq!(preview.suspected, vec!["worker-1".to_string()]);
    assert_eq!(state.nodes.get("worker-1").unwrap().status, NodeStatus::Alive);
    let check = state.detect_failures(ms(7_000));
    assert_eq!(check.suspected, preview.suspected);
}

#[test]
fn registering_again_keeps_150_positions() {
    let mut state = AppState::new(0);
    register(&mut state, "worker-1", 8081, 0);
    register(&mut state, "worker-1", 8081, ms(1_000));
    assert_eq!(state.get_ring().virtual_nodes.len(), 150);
    assert_eq!(state.ring_version, 2);
}
