use ironring::models::{NodeInfo, NodeStatus};
use ironring::replication::{affected_keys, plan_re_replication, tally_outcomes, CopyOutcome, KeyDump};
use ironring::ring::HashRing;

fn node(id: &str, port: u16) -> NodeInfo {
    NodeInfo {
        node_id: id.to_string(),
        node_port: port,
        status: NodeStatus::Alive,
        host: "127.0.0.1".to_string(),
        last_heartbeat: None,
    }
}

fn four_node_ring() -> HashRing {
    let mut ring = HashRing::new();
    for (i, id) in ["worker-1", "worker-2", "worker-3", "worker-4"].iter().enumerate() {
        ring.add_node(node(id, 8081 + i as u16));
    }
    ring
}

#[test]
fn re_replication_plan_targets_new_owners_lacking_copies() {
    let old_ring = four_node_ring();
    let mut new_ring = old_ring.clone();
    new_ring.remove_node("worker-2");

    // each surviving node holds exactly the keys it owned in the old ring
    let survivors: Vec<(String, String, u16)> = vec![
        ("worker-1".into(), "127.0.0.1".into(), 8081),
        ("worker-3".into(), "127.0.0.1".into(), 8083),
        ("worker-4".into(), "127.0.0.1".into(), 8084),
    ];
    let keys: Vec<String> = (0..60).map(|i| format!("key-{}", i)).collect();
    let mut dumps: Vec<KeyDump> = Vec::new();
    for (id, host, port) in &survivors {
        let mut pairs = Vec::new();
        for k in &keys {
            let mut owners = vec![old_ring.find_primary(k).unwrap().node_id.clone()];
            owners.extend(old_ring.find_replicas(k).iter().map(|n| n.node_id.clone()));
            if owners.contains(id) {
                pairs.push((k.clone(), format!("v-{}", k)));
            }
        }
        dumps.push((id.clone(), format!("http://{}:{}", host, port), pairs));
    }

    let affected = affected_keys(&old_ring, "worker-2", &dumps);
    let plans = plan_re_replication(&old_ring, &new_ring, "worker-2", &survivors, &dumps);
    assert_eq!(plans.len(), affected.len());
    assert!(!plans.is_empty());
    for k in &keys {
        let mut owners = vec![old_ring.find_primary(k).unwrap().node_id.clone()];
        owners.extend(old_ring.find_replicas(k).iter().map(|n| n.node_id.clone()));
        let was_owned = owners.iter().any(|o| o == "worker-2");
        assert_eq!(plans.iter().any(|p| &p.key == k), was_owned);
    }
    for plan in &plans {
        let holders: Vec<&KeyDump> = dumps.iter().filter(|d| d.2.iter().any(|(k, _)| *k == plan.key)).collect();
        let (src_id, src_addr) = plan.source.clone().unwrap();
        assert_eq!(src_id, holders[0].0);
        assert_eq!(src_addr, holders[0].1);
        let mut new_owners = vec![new_ring.find_primary(&plan.key).unwrap().node_id.clone()];
        new_owners.extend(new_ring.find_replicas(&plan.key).iter().map(|n| n.node_id.clone()));
        let expected: Vec<String> =
            new_owners.into_iter().filter(|o| !holders.iter().any(|h| h.0 == *o)).collect();
        let got: Vec<String> = plan.targets.iter().map(|t| t.0.clone()).collect();
        assert_eq!(got, expected);
        // the key lost one copy, so exactly one new owner lacks it
        assert_eq!(got.len(), 1);
        for (id, addr) in &plan.targets {
            let (_, host, port) = survivors.iter().find(|s| s.0 == *id).unwrap();
            assert_eq!(addr.clone().unwrap(), format!("http://{}:{}", host, port));
        }
    }
}

#[test]
fn key_without_surviving_holder_has_no_source() {
    // a plan is only made for keys some survivor holds, so a holder always exists
    let old_ring = four_node_ring();
    let mut new_ring = old_ring.clone();
    new_ring.remove_node("worker-1");
    let dumps: Vec<KeyDump> = vec![];
    let plans = plan_re_replication(&old_ring, &new_ring, "worker-1", &vec![], &dumps);
    assert!(plans.is_empty());
    let plan = ironring::replication::plan_key(&"k".to_string(), &new_ring, &vec![], &dumps);
    assert!(plan.source.is_none());
    assert!(plan.targets.is_empty());
}

#[test]
fn target_without_address_is_reported() {
    let old_ring = four_node_ring();
    let mut new_ring = old_ring.clone();
    new_ring.remove_node("worker-4");
    let k = "key-7".to_string();
    // a single holder that is not among the new owners
    let dumps: Vec<KeyDump> = vec![("elsewhere".into(), "http://x:1".into(), vec![(k.clone(), "v".into())])];
    let plan = ironring::replication::plan_key(&k, &new_ring, &vec![], &dumps);
    assert_eq!(plan.source, Some(("elsewhere".to_string(), "http://x:1".to_string())));
    assert_eq!(plan.targets.len(), 3);
    assert!(plan.targets.iter().all(|t| t.1.is_none()));
}

#[test]
fn tally_counts_confirmed_copies_and_failures() {
    let outcomes = vec![
        CopyOutcome::Sent(true),
        CopyOutcome::Unrecoverable,
        CopyOutcome::Sent(false),
        CopyOutcome::TargetMissing,
        CopyOutcome::Sent(true),
    ];
    assert_eq!(tally_outcomes(&outcomes), (2, 3));
    assert_eq!(tally_outcomes(&Vec::new()), (0, 0));
}
