use ironring::address::{http_address, key_url, registration_request};
use ironring::error::IronRingError;
use ironring::models::{NodeInfo, NodeStatus, ReplicateRequest};
use ironring::ring::HashRing;
use ironring::worker::{quorum_next, AppState, PutRoute, QuorumStep};

fn node(id: &str, port: u16) -> NodeInfo {
    NodeInfo {
        node_id: id.to_string(),
        node_port: port,
        status: NodeStatus::Alive,
        host: "127.0.0.1".to_string(),
        last_heartbeat: None,
    }
}

fn worker_with_ring(id: &str) -> AppState {
    let mut ring = HashRing::new();
    ring.add_node(node("worker-1", 8081));
    ring.add_node(node("worker-2", 8082));
    ring.add_node(node("worker-3", 8083));
    let mut state = AppState::new(
        id.to_string(),
        "http://127.0.0.1:8081".to_string(),
        "http://127.0.0.1:9090".to_string(),
    );
    state.install_ring(ring.to_ring_state(3));
    state
}

#[test]
fn put_routing() {
    let empty = AppState::new("w".into(), "http://h:1".into(), "http://c:2".into());
    assert_eq!(empty.route_put("k"), PutRoute::ClusterNotReady);

    let state = worker_with_ring("worker-1");
    assert_eq!(state.ring_version, 3);
    for i in 0..30 {
        let key = format!("key-{}", i);
        let owner = state.ring.find_primary(&key).unwrap().clone();
        let route = state.route_put(&key);
        if owner.node_id == "worker-1" {
            assert_eq!(route, PutRoute::Primary);
        } else {
            assert_eq!(
                route,
                PutRoute::Redirect(format!("http://127.0.0.1:{}/v1/keys/{}", owner.node_port, key))
            );
        }
    }
}

#[test]
fn replica_addresses_follow_the_ring() {
    let state = worker_with_ring("worker-1");
    let addrs = state.replica_addresses("alpha");
    let replicas = state.ring.find_replicas("alpha");
    assert_eq!(addrs.len(), 2);
    for (a, r) in addrs.iter().zip(replicas.iter()) {
        assert_eq!(*a, format!("http://{}:{}", r.host, r.node_port));
    }
}

#[test]
fn quorum_steps() {
    let none: Vec<String> = vec![];
    let one = vec!["http://a:1".to_string()];
    let two = vec!["http://a:1".to_string(), "http://b:2".to_string()];
    assert_eq!(quorum_next(&none, None, None), QuorumStep::Acknowledge { replicas_confirmed: 1, background: None });
    assert_eq!(quorum_next(&two, None, None), QuorumStep::Replicate("http://a:1".into()));
    assert_eq!(
        quorum_next(&two, Some(true), None),
        QuorumStep::Acknowledge { replicas_confirmed: 2, background: Some("http://b:2".into()) }
    );
    assert_eq!(
        quorum_next(&one, Some(true), None),
        QuorumStep::Acknowledge { replicas_confirmed: 2, background: None }
    );
    assert_eq!(quorum_next(&two, Some(false), None), QuorumStep::Replicate("http://b:2".into()));
    assert_eq!(quorum_next(&one, Some(false), None), QuorumStep::Fail);
    assert_eq!(
        quorum_next(&two, Some(false), Some(true)),
        QuorumStep::Acknowledge { replicas_confirmed: 2, background: Some("http://a:1".into()) }
    );
    assert_eq!(quorum_next(&two, Some(false), Some(false)), QuorumStep::Fail);
}

#[test]
fn store_read_after_write() {
    let mut state = worker_with_ring("worker-1");
    match state.get_key("username".to_string()) {
        Err(IronRingError::KeyNotFound(k)) => assert_eq!(k, "username"),
        other => panic!("unexpected {:?}", other),
    }
    state.store_put("username".to_string(), "alice".to_string());
    let resp = state.get_key("username".to_string()).unwrap();
    assert_eq!(resp.key, "username");
    assert_eq!(resp.value, Some("alice".to_string()));
    assert_eq!(resp.served_by, "worker-1");
    state.replicate(ReplicateRequest {
        key: "username".to_string(),
        value: "bob".to_string(),
        origin_node_id: "worker-2".to_string(),
    });
    assert_eq!(state.get_key("username".to_string()).unwrap().value, Some("bob".to_string()));
    assert_eq!(state.value_to_transfer("username"), Some("bob".to_string()));
    assert_eq!(state.value_to_transfer("other"), None);
}

#[test]
fn key_dump_lists_each_pair_once() {
    let mut state = worker_with_ring("worker-1");
    state.store_put("a".into(), "1".into());
    state.store_put("b".into(), "2".into());
    state.store_put("a".into(), "3".into());
    let dump = state.get_all_keys();
    assert_eq!(dump.node_id, "worker-1");
    let mut keys = dump.keys.clone();
    keys.sort();
    assert_eq!(keys, vec![("a".to_string(), "3".to_string()), ("b".to_string(), "2".to_string())]);
}

#[test]
fn addresses_and_urls() {
    assert_eq!(http_address("127.0.0.1", 8081), "http://127.0.0.1:8081");
    assert_eq!(http_address("h", 0), "http://h:0");
    assert_eq!(key_url("h", 65535, "k/1"), "http://h:65535/v1/keys/k/1");
}

#[test]
fn registration_request_reads_host_and_port() {
    let r = registration_request("worker-1", "http://127.0.0.1:8081").unwrap();
    assert_eq!(r.node_id, "worker-1");
    assert_eq!(r.host, "127.0.0.1");
    assert_eq!(r.port, 8081);
    let r = registration_request("w", "http://http://host:+80").unwrap();
    assert_eq!(r.host, "host");
    assert_eq!(r.port, 80);
    let r = registration_request("w", "8080").unwrap();
    assert_eq!(r.host, "8080");
    assert_eq!(r.port, 8080);
    let r = registration_request("w", "http://a:b:65535").unwrap();
    assert_eq!(r.host, "a");
    assert_eq!(r.port, 65535);
    assert!(registration_request("w", "http://h:65536").is_none());
    assert!(registration_request("w", "http://h:").is_none());
    assert!(registration_request("w", "http://h:+").is_none());
    assert!(registration_request("w", "http://h:-1").is_none());
    assert!(registration_request("w", "http://h:80x").is_none());
    // agrees with the standard parser
    for text in ["http://h:0080", "http://h:99999999999", "x:+", "x:+7"] {
        let port_text = text.rsplit(':').next().unwrap();
        assert_eq!(registration_request("w", text).map(|r| r.port), port_text.parse::<u16>().ok());
    }
}
