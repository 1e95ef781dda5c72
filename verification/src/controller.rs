//! The controller: node registry, heartbeats, ring versions and metrics.

use vstd::prelude::*;
use crate::models::{
    ControllerMetrics, HeartbeatRequest, ReplicationStatus, HeartbeatResponse, NodeInfo, NodeRegisterRequest,
    NodeRegisterResponse, NodeStatus, RingState,
};
use crate::ring::{
    HashRing, VirtualNode, lemma_filter_all, lemma_filter_filter, new_virtual_nodes, not_owned_by, owned_by, ring_pairs,
    stable_sort_of,
};
use crate::strmap::StrMap;

verus! {

/// Whole seconds from `from` to `to` (nanoseconds), truncated toward zero.
pub open spec fn elapsed_seconds(from: i64, to: i64) -> int {
    let d = to - from;
    if d >= 0 {
        d / 1_000_000_000
    } else {
        -((-d) / 1_000_000_000)
    }
}

/// Computes `elapsed_seconds`.
pub fn seconds_between(from: i64, to: i64) -> (secs: i64)
    ensures
        secs == elapsed_seconds(from, to),
{
    let d: i128 = to as i128 - from as i128;
    if d >= 0 {
        (d / 1_000_000_000) as i64
    } else {
        let neg = (0 - d) / 1_000_000_000;
        0 - (neg as i64)
    }
}

/// The number of nodes with a given status.
pub open spec fn count_status(nodes: Seq<NodeInfo>, status: NodeStatus) -> nat {
    nodes.filter(|n: NodeInfo| n.status == status).len()
}

/// The node that a registration request describes: alive, no heartbeat yet.
pub open spec fn registered_node(req: NodeRegisterRequest) -> NodeInfo {
    NodeInfo {
        node_id: req.node_id,
        node_port: req.port,
        status: NodeStatus::Alive,
        host: req.host,
        last_heartbeat: None,
    }
}

/// A node after a heartbeat at `now`: alive, with that heartbeat time.
pub open spec fn heartbeat_node(node: NodeInfo, now: i64) -> NodeInfo {
    NodeInfo { status: NodeStatus::Alive, last_heartbeat: Some(now), ..node }
}

/// Seconds without a heartbeat after which an alive node becomes suspect.
pub const SUSPECT_AFTER_SECS: i64 = 6;

/// Seconds without a heartbeat after which a suspect node is declared dead.
pub const DEAD_AFTER_SECS: i64 = 12;

/// An alive node whose last heartbeat is more than six seconds old.
pub open spec fn becomes_suspect(
    nodes: Map<Seq<char>, NodeInfo>,
    heartbeats: Map<Seq<char>, i64>,
    now: i64,
) -> spec_fn(Seq<char>) -> bool {
    |id: Seq<char>|
        heartbeats.contains_key(id) && nodes.contains_key(id) && nodes[id].status
            == NodeStatus::Alive && elapsed_seconds(heartbeats[id], now) > SUSPECT_AFTER_SECS
}

/// A suspect node whose last heartbeat is more than twelve seconds old.
pub open spec fn becomes_dead(
    nodes: Map<Seq<char>, NodeInfo>,
    heartbeats: Map<Seq<char>, i64>,
    now: i64,
) -> spec_fn(Seq<char>) -> bool {
    |id: Seq<char>|
        heartbeats.contains_key(id) && nodes.contains_key(id) && nodes[id].status
            == NodeStatus::Suspect && elapsed_seconds(heartbeats[id], now) > DEAD_AFTER_SECS
}

/// The status a node has after a failure check.
pub open spec fn status_after_check(
    nodes: Map<Seq<char>, NodeInfo>,
    heartbeats: Map<Seq<char>, i64>,
    now: i64,
    id: Seq<char>,
) -> NodeStatus {
    if becomes_suspect(nodes, heartbeats, now)(id) {
        NodeStatus::Suspect
    } else if becomes_dead(nodes, heartbeats, now)(id) {
        NodeStatus::Dead
    } else {
        nodes[id].status
    }
}

/// The texts of a sequence of strings.
pub open spec fn views(s: Seq<String>) -> Seq<Seq<char>> {
    s.map_values(|x: String| x@)
}

/// Virtual nodes whose owner is not among `ids`.
pub open spec fn not_owned_by_any(ids: Seq<Seq<char>>) -> spec_fn(VirtualNode) -> bool {
    |v: VirtualNode| !ids.contains(v.node_id@)
}

/// An alive node is never declared dead by one failure check: death comes
/// only after suspicion.
pub proof fn lemma_no_death_without_suspicion(
    nodes: Map<Seq<char>, NodeInfo>,
    heartbeats: Map<Seq<char>, i64>,
    now: i64,
    id: Seq<char>,
)
    ensures
        nodes[id].status == NodeStatus::Alive ==> status_after_check(nodes, heartbeats, now, id)
            != NodeStatus::Dead,
        status_after_check(nodes, heartbeats, now, id) == NodeStatus::Dead ==> nodes[id].status
            != NodeStatus::Alive,
{
}

/// The alive, suspect and dead counts add up to the number of nodes.
pub proof fn lemma_status_counts_add_up(nodes: Seq<NodeInfo>)
    ensures
        count_status(nodes, NodeStatus::Alive) + count_status(nodes, NodeStatus::Suspect)
            + count_status(nodes, NodeStatus::Dead) == nodes.len(),
    decreases nodes.len(),
{
    if nodes.len() > 0 {
        let rest = nodes.drop_last();
        lemma_status_counts_add_up(rest);
        assert(rest.push(nodes.last()) == nodes);
        rest.lemma_filter_push(nodes.last(), |n: NodeInfo| n.status == NodeStatus::Alive);
        rest.lemma_filter_push(nodes.last(), |n: NodeInfo| n.status == NodeStatus::Suspect);
        rest.lemma_filter_push(nodes.last(), |n: NodeInfo| n.status == NodeStatus::Dead);
    } else {
        reveal(Seq::filter);
    }
}

/// The outcome of a failure check: nodes that became suspect and nodes
/// that were declared dead, in heartbeat-table order.
pub struct FailureCheck {
    pub suspected: Vec<String>,
    pub died: Vec<String>,
}

/// The controller's state.
pub struct AppState {
    /// The ring of live nodes.
    pub ring: HashRing,
    /// Every node that ever registered, keyed by id.
    pub nodes: StrMap<NodeInfo>,
    /// Time of the last heartbeat (or registration) of each node.
    pub last_heartbeat: StrMap<i64>,
    /// Incremented on every change of the ring's membership.
    pub ring_version: u64,
    /// Number of finished re-replication runs.
    pub re_replication_count: u64,
    /// The last finished re-replication run, if any.
    pub last_replication: Option<(String, i64, u64, u64)>,
    /// Start time of the controller, in nanoseconds since the epoch.
    pub started_at: i64,
}

impl AppState {
    pub open spec fn wf(&self) -> bool {
        &&& self.ring.wf()
        &&& self.nodes.wf()
        &&& self.last_heartbeat.wf()
        &&& forall|k: Seq<char>| #[trigger] self.nodes@.contains_key(k) ==> self.nodes@[k].node_id@ == k
    }

    /// A controller with no nodes, ring version 0, started at `started_at`.
    pub fn new(started_at: i64) -> (state: Self)
        ensures
            state.wf(),
            state.ring.virtual_nodes@.len() == 0,
            state.ring.node_map@ == Map::<Seq<char>, NodeInfo>::empty(),
            state.ring.virtual_nodes_per_physical == 150,
            state.nodes@ == Map::<Seq<char>, NodeInfo>::empty(),
            state.last_heartbeat@ == Map::<Seq<char>, i64>::empty(),
            state.ring_version == 0,
            state.re_replication_count == 0,
            state.last_replication is None,
            state.started_at == started_at,
    {
        AppState {
            ring: HashRing::new(),
            nodes: StrMap::new(),
            last_heartbeat: StrMap::new(),
            ring_version: 0,
            re_replication_count: 0,
            last_replication: None,
            started_at,
        }
    }

    /// Registers a node at time `now`: it joins the ring alive, its
    /// registration counts as a heartbeat, and the ring version goes up by
    /// one. Answers with the new ring.
    pub fn register_node(&mut self, req: NodeRegisterRequest, now: i64) -> (resp: NodeRegisterResponse)
        requires
            old(self).wf(),
            old(self).ring_version < u64::MAX,
        ensures
            final(self).wf(),
            final(self).ring.node_map@ == old(self).ring.node_map@.insert(
                req.node_id@,
                registered_node(req),
            ),
            stable_sort_of(
                final(self).ring.virtual_nodes@,
                old(self).ring.virtual_nodes@.filter(not_owned_by(req.node_id@)) + new_virtual_nodes(
                    registered_node(req),
                    old(self).ring.virtual_nodes_per_physical as nat,
                ),
            ),
            final(self).ring.virtual_nodes@.filter(owned_by(req.node_id@)).len()
                == old(self).ring.virtual_nodes_per_physical,
            final(self).ring.virtual_nodes_per_physical == old(self).ring.virtual_nodes_per_physical,
            final(self).nodes@ == old(self).nodes@.insert(req.node_id@, registered_node(req)),
            final(self).last_heartbeat@ == old(self).last_heartbeat@.insert(req.node_id@, now),
            final(self).ring_version == old(self).ring_version + 1,
            final(self).re_replication_count == old(self).re_replication_count,
            final(self).last_replication == old(self).last_replication,
            final(self).started_at == old(self).started_at,
            resp.success,
            resp.ring_state.nodes@ == final(self).ring.node_map.value_seq(),
            resp.ring_state.virtual_nodes@ == ring_pairs(final(self).ring.virtual_nodes@),
            resp.ring_state.replication_factor == 3,
            resp.ring_state.ring_version == final(self).ring_version,
    {
        let node_info = NodeInfo {
            node_id: req.node_id.clone(),
            node_port: req.port,
            status: NodeStatus::Alive,
            host: req.host.clone(),
            last_heartbeat: None,
        };
        self.ring.add_node(node_info.clone());
        self.nodes.insert(req.node_id.clone(), node_info);
        self.last_heartbeat.insert(req.node_id.clone(), now);
        self.ring_version = self.ring_version + 1;
        let ring_state = self.ring.to_ring_state(self.ring_version);
        NodeRegisterResponse { success: true, ring_state }
    }

    /// Records a heartbeat at time `now`. A registered node becomes alive
    /// again (but does not rejoin the ring). The answer says whether the
    /// sender's ring version is out of date.
    pub fn get_heartbeat(&mut self, req: HeartbeatRequest, now: i64) -> (resp: HeartbeatResponse)
        requires
            old(self).wf(),
        ensures
            final(self).wf(),
            final(self).last_heartbeat@ == old(self).last_heartbeat@.insert(req.node_id@, now),
            old(self).nodes@.contains_key(req.node_id@) ==> final(self).nodes@ == old(
                self,
            ).nodes@.insert(req.node_id@, heartbeat_node(old(self).nodes@[req.node_id@], now)),
            !old(self).nodes@.contains_key(req.node_id@) ==> final(self).nodes@ == old(self).nodes@,
            old(self).nodes@.contains_key(req.node_id@) ==> {
                let before = old(self).nodes@[req.node_id@];
                let after = final(self).nodes@[req.node_id@];
                &&& final(self).nodes@.contains_key(req.node_id@)
                &&& after.status == NodeStatus::Alive
                &&& after.last_heartbeat == Some(now)
                &&& after.node_id == before.node_id
                &&& after.host == before.host
                &&& after.node_port == before.node_port
            },
            forall|k: Seq<char>|
                k != req.node_id@ ==> #[trigger] final(self).nodes@.contains_key(k) == old(self).nodes@.contains_key(k)
                    && (old(self).nodes@.contains_key(k) ==> final(self).nodes@[k] == old(self).nodes@[k]),
            final(self).nodes.key_seq() == old(self).nodes.key_seq(),
            final(self).ring == old(self).ring,
            final(self).ring_version == old(self).ring_version,
            final(self).re_replication_count == old(self).re_replication_count,
            final(self).last_replication == old(self).last_replication,
            final(self).started_at == old(self).started_at,
            resp.acknowledged,
            resp.ring_changed == (old(self).ring_version != req.ring_version),
    {
        self.last_heartbeat.insert(req.node_id.clone(), now);
        match self.nodes.get(req.node_id.as_str()) {
            Some(node) => {
                let mut updated = node.clone();
                updated.last_heartbeat = Some(now);
                updated.status = NodeStatus::Alive;
                self.nodes.insert(req.node_id.clone(), updated);
            },
            None => {},
        }
        let ring_changed = self.ring_version != req.ring_version;
        HeartbeatResponse { acknowledged: true, ring_changed }
    }

    /// Which nodes a failure check at `now` would mark: the alive nodes silent
    /// for more than six seconds, and the suspect nodes silent for more than
    /// twelve, each list in heartbeat-table order. Changes nothing.
    pub fn failure_check(&self, now: i64) -> (check: FailureCheck)
        requires
            self.wf(),
        ensures
            views(check.suspected@) == self.last_heartbeat.key_seq().filter(
                becomes_suspect(self.nodes@, self.last_heartbeat@, now),
            ),
            views(check.died@) == self.last_heartbeat.key_seq().filter(
                becomes_dead(self.nodes@, self.last_heartbeat@, now),
            ),
    {
        let ghost nodes0 = self.nodes@;
        let ghost hb = self.last_heartbeat@;
        let ghost keys = self.last_heartbeat.key_seq();
        let ghost susp = becomes_suspect(nodes0, hb, now);
        let ghost dies = becomes_dead(nodes0, hb, now);
        proof { self.last_heartbeat.lemma_wf(); }
        let mut suspected: Vec<String> = Vec::new();
        let mut died: Vec<String> = Vec::new();
        let mut i: usize = 0;
        while i < self.last_heartbeat.len()
            invariant
                self.wf(),
                self.nodes@ == nodes0,
                self.last_heartbeat@ == hb,
                self.last_heartbeat.key_seq() == keys,
                keys.len() == self.last_heartbeat.value_seq().len(),
                forall|j: int| 0 <= j < keys.len() ==> hb.contains_key(#[trigger] keys[j]) && hb[keys[j]]
                    == self.last_heartbeat.value_seq()[j],
                susp == becomes_suspect(nodes0, hb, now),
                dies == becomes_dead(nodes0, hb, now),
                i <= keys.len(),
                views(suspected@) == keys.take(i as int).filter(susp),
                views(died@) == keys.take(i as int).filter(dies),
            decreases keys.len() - i,
        {
            let node_id = self.last_heartbeat.key_at(i);
            let last_seen = *self.last_heartbeat.value_at(i);
            let elapsed = seconds_between(last_seen, now);
            let ghost k = keys[i as int];
            proof {
                assert(keys.take(i as int + 1) == keys.take(i as int).push(k));
                keys.take(i as int).lemma_filter_push(k, susp);
                keys.take(i as int).lemma_filter_push(k, dies);
                assert(hb[k] == last_seen);
            }
            let ghost s0 = suspected@;
            let ghost d0 = died@;
            match self.nodes.get(node_id.as_str()) {
                Some(node) => {
                    if node.status == NodeStatus::Alive && elapsed > SUSPECT_AFTER_SECS {
                        suspected.push(node_id.clone());
                        assert(views(suspected@) =~= views(s0).push(k));
                    } else if node.status == NodeStatus::Suspect && elapsed > DEAD_AFTER_SECS {
                        died.push(node_id.clone());
                        assert(views(died@) =~= views(d0).push(k));
                    }
                },
                None => {},
            }
            i = i + 1;
        }
        assert(keys.take(keys.len() as int) == keys);
        FailureCheck { suspected, died }
    }

    /// The failure check that runs every few seconds: an alive node silent for
    /// more than six seconds becomes suspect; a suspect node silent for more
    /// than twelve seconds is declared dead, leaves the ring, and the ring
    /// version goes up by one for each such node.
    pub fn detect_failures(&mut self, now: i64) -> (check: FailureCheck)
        requires
            old(self).wf(),
            old(self).ring_version + old(self).last_heartbeat.key_seq().filter(
                becomes_dead(old(self).nodes@, old(self).last_heartbeat@, now),
            ).len() <= u64::MAX,
        ensures
            final(self).wf(),
            ({
                let nodes = old(self).nodes@;
                let hb = old(self).last_heartbeat@;
                &&& views(check.suspected@) == old(self).last_heartbeat.key_seq().filter(
                    becomes_suspect(nodes, hb, now),
                )
                &&& views(check.died@) == old(self).last_heartbeat.key_seq().filter(
                    becomes_dead(nodes, hb, now),
                )
                &&& final(self).nodes@.dom() == nodes.dom()
                &&& forall|k: Seq<char>|
                    #[trigger] final(self).nodes@.contains_key(k) ==> final(self).nodes@[k]
                        == NodeInfo { status: status_after_check(nodes, hb, now, k), ..nodes[k] }
                &&& final(self).ring.virtual_nodes@ == old(self).ring.virtual_nodes@.filter(
                    not_owned_by_any(views(check.died@)),
                )
                &&& final(self).ring.node_map@ == old(self).ring.node_map@.remove_keys(
                    views(check.died@).to_set(),
                )
            }),
            forall|k: Seq<char>|
                #[trigger] final(self).nodes@.contains_key(k) ==> ({
                    let before = old(self).nodes@[k];
                    let after = final(self).nodes@[k];
                    let heard = old(self).last_heartbeat@.contains_key(k);
                    let silent = elapsed_seconds(old(self).last_heartbeat@[k], now);
                    &&& before.status == NodeStatus::Dead ==> after.status == NodeStatus::Dead
                    &&& before.status == NodeStatus::Alive ==> after.status != NodeStatus::Dead && (after.status
                        == NodeStatus::Suspect <==> heard && silent > 6)
                    &&& before.status == NodeStatus::Suspect ==> after.status != NodeStatus::Alive && (after.status
                        == NodeStatus::Dead <==> heard && silent > 12)
                    &&& after.node_id == before.node_id && after.host == before.host && after.node_port
                        == before.node_port && after.last_heartbeat == before.last_heartbeat
                    &&& views(check.died@).contains(k) <==> (before.status == NodeStatus::Suspect
                        && after.status == NodeStatus::Dead)
                    &&& views(check.suspected@).contains(k) <==> (before.status == NodeStatus::Alive
                        && after.status == NodeStatus::Suspect)
                }),
            forall|k: Seq<char>|
                #[trigger] final(self).ring.node_map@.contains_key(k) <==> old(self).ring.node_map@.contains_key(k)
                    && !views(check.died@).contains(k),
            final(self).nodes.key_seq() == old(self).nodes.key_seq(),
            final(self).last_heartbeat == old(self).last_heartbeat,
            final(self).ring.virtual_nodes_per_physical == old(self).ring.virtual_nodes_per_physical,
            final(self).ring_version == old(self).ring_version + check.died@.len(),
            final(self).re_replication_count == old(self).re_replication_count,
            final(self).last_replication == old(self).last_replication,
            final(self).started_at == old(self).started_at,
    {
        let ghost nodes0 = self.nodes@;
        let ghost hb = self.last_heartbeat@;
        let ghost keys = self.last_heartbeat.key_seq();
        let ghost susp = becomes_suspect(nodes0, hb, now);
        let ghost dies = becomes_dead(nodes0, hb, now);
        let ghost vns0 = self.ring.virtual_nodes@;
        let ghost map0 = self.ring.node_map@;
        let ghost version0 = self.ring_version;
        let FailureCheck { suspected, died } = self.failure_check(now);
        proof {
            self.last_heartbeat.lemma_wf();
            keys.lemma_filter_len(dies);
        }
        let ghost sv = views(suspected@);
        let ghost dv = views(died@);
        assert forall|k: Seq<char>| sv.contains(k) == susp(k) && dv.contains(k) == dies(k) by {
            if susp(k) {
                assert(keys.contains(k));
                let m = choose|m: int| 0 <= m < keys.len() && keys[m] == k;
                keys.lemma_filter_contains(susp, m);
            }
            if dies(k) {
                assert(keys.contains(k));
                let m = choose|m: int| 0 <= m < keys.len() && keys[m] == k;
                keys.lemma_filter_contains(dies, m);
            }
            if sv.contains(k) {
                let j = choose|j: int| 0 <= j < sv.len() && sv[j] == k;
                keys.lemma_filter_pred(susp, j);
            }
            if dv.contains(k) {
                let j = choose|j: int| 0 <= j < dv.len() && dv[j] == k;
                keys.lemma_filter_pred(dies, j);
            }
        }
        let mut j: usize = 0;
        while j < suspected.len()
            invariant
                self.wf(),
                sv == views(suspected@),
                self.nodes.key_seq() == old(self).nodes.key_seq(),
                self.nodes@.dom() == nodes0.dom(),
                forall|k: Seq<char>|
                    #[trigger] self.nodes@.contains_key(k) ==> self.nodes@[k] == (if sv.take(
                        j as int,
                    ).contains(k) {
                        NodeInfo { status: NodeStatus::Suspect, ..nodes0[k] }
                    } else {
                        nodes0[k]
                    }),
                self.last_heartbeat == old(self).last_heartbeat,
                self.ring == old(self).ring,
                self.ring_version == old(self).ring_version,
                self.re_replication_count == old(self).re_replication_count,
                self.last_replication == old(self).last_replication,
                self.started_at == old(self).started_at,
                j <= sv.len(),
            decreases sv.len() - j,
        {
            let id = &suspected[j];
            let ghost before = self.nodes@;
            match self.nodes.get(id.as_str()) {
                Some(node) => {
                    let mut updated = node.clone();
                    updated.status = NodeStatus::Suspect;
                    self.nodes.insert(id.clone(), updated);
                },
                None => {},
            }
            assert forall|k: Seq<char>| sv.take(j as int + 1).contains(k) == (sv.take(j as int).contains(k)
                || k == sv[j as int]) by {
                assert(sv.take(j as int + 1) == sv.take(j as int).push(sv[j as int]));
                if sv.take(j as int + 1).contains(k) && k != sv[j as int] {
                    let m = choose|m: int| 0 <= m < j + 1 && #[trigger] sv.take(j as int + 1)[m] == k;
                    assert(sv.take(j as int)[m] == k);
                }
                if sv.take(j as int).contains(k) {
                    let m = choose|m: int| 0 <= m < j && #[trigger] sv.take(j as int)[m] == k;
                    assert(sv.take(j as int + 1)[m] == k);
                }
                if k == sv[j as int] {
                    assert(sv.take(j as int + 1)[j as int] == k);
                }
            }
            assert(self.nodes@.dom() =~= nodes0.dom());
            j = j + 1;
        }
        assert(sv.take(sv.len() as int) == sv);
        proof {
            assert(dv.take(0) == Seq::<Seq<char>>::empty());
            lemma_filter_all(vns0, not_owned_by_any(dv.take(0)));
            assert(map0.remove_keys(dv.take(0).to_set()) =~= map0);
        }
        let mut d: usize = 0;
        while d < died.len()
            invariant
                self.wf(),
                sv == views(suspected@),
                dv == views(died@),
                forall|k: Seq<char>| sv.contains(k) == susp(k) && dv.contains(k) == dies(k),
                susp == becomes_suspect(nodes0, hb, now),
                dies == becomes_dead(nodes0, hb, now),
                self.nodes.key_seq() == old(self).nodes.key_seq(),
                self.nodes@.dom() == nodes0.dom(),
                forall|k: Seq<char>|
                    #[trigger] self.nodes@.contains_key(k) ==> self.nodes@[k] == (if sv.contains(k) {
                        NodeInfo { status: NodeStatus::Suspect, ..nodes0[k] }
                    } else if dv.take(d as int).contains(k) {
                        NodeInfo { status: NodeStatus::Dead, ..nodes0[k] }
                    } else {
                        nodes0[k]
                    }),
                self.last_heartbeat == old(self).last_heartbeat,
                self.ring.virtual_nodes@ == vns0.filter(not_owned_by_any(dv.take(d as int))),
                self.ring.node_map@ == map0.remove_keys(dv.take(d as int).to_set()),
                self.ring.virtual_nodes_per_physical == old(self).ring.virtual_nodes_per_physical,
                self.ring_version == version0 + d,
                version0 + dv.len() <= u64::MAX,
                self.re_replication_count == old(self).re_replication_count,
                self.last_replication == old(self).last_replication,
                self.started_at == old(self).started_at,
                d <= dv.len(),
            decreases dv.len() - d,
        {
            let id = &died[d];
            let ghost t = dv.take(d as int);
            let ghost x = dv[d as int];
            assert(dv.take(d as int + 1) == t.push(x));
            assert forall|k: Seq<char>| t.push(x).contains(k) == (t.contains(k) || k == x) by {
                if t.push(x).contains(k) && k != x {
                    let m = choose|m: int| 0 <= m < t.len() + 1 && #[trigger] t.push(x)[m] == k;
                    assert(t[m] == k);
                }
                if t.contains(k) {
                    let m = choose|m: int| 0 <= m < t.len() && #[trigger] t[m] == k;
                    assert(t.push(x)[m] == k);
                }
                if k == x {
                    assert(t.push(x)[t.len() as int] == k);
                }
            }
            self.ring.remove_node(id.as_str());
            proof {
                lemma_filter_filter(vns0, not_owned_by_any(t), not_owned_by(x), not_owned_by_any(t.push(x)));
                assert(self.ring.node_map@ =~= map0.remove_keys(t.push(x).to_set()));
            }
            match self.nodes.get(id.as_str()) {
                Some(node) => {
                    let mut updated = node.clone();
                    updated.status = NodeStatus::Dead;
                    self.nodes.insert(id.clone(), updated);
                },
                None => {},
            }
            assert(self.nodes@.dom() =~= nodes0.dom());
            assert(!sv.contains(x)) by {
                assert(dv.contains(x));
            }
            self.ring_version = self.ring_version + 1;
            d = d + 1;
        }
        assert(dv.take(dv.len() as int) == dv);
        FailureCheck { suspected, died }
    }

    /// Id, host and port of every registered node that is not dead, in
    /// registration order.
    pub fn surviving_nodes(&self) -> (survivors: Vec<(String, String, u16)>)
        requires
            self.wf(),
        ensures
            survivors@ == self.nodes.value_seq().filter(|n: NodeInfo| n.status != NodeStatus::Dead).map_values(
                |n: NodeInfo| (n.node_id, n.host, n.node_port),
            ),
    {
        proof { self.nodes.lemma_wf(); }
        let ghost vs = self.nodes.value_seq();
        let ghost alive = |n: NodeInfo| n.status != NodeStatus::Dead;
        let ghost entry = |n: NodeInfo| (n.node_id, n.host, n.node_port);
        let mut out: Vec<(String, String, u16)> = Vec::new();
        let mut i: usize = 0;
        while i < self.nodes.len()
            invariant
                self.wf(),
                vs == self.nodes.value_seq(),
                self.nodes.key_seq().len() == vs.len(),
                alive == (|n: NodeInfo| n.status != NodeStatus::Dead),
                entry == (|n: NodeInfo| (n.node_id, n.host, n.node_port)),
                i <= vs.len(),
                out@ == vs.take(i as int).filter(alive).map_values(entry),
            decreases vs.len() - i,
        {
            let node = self.nodes.value_at(i);
            proof {
                assert(vs.take(i as int + 1) == vs.take(i as int).push(vs[i as int]));
                vs.take(i as int).lemma_filter_push(vs[i as int], alive);
            }
            if node.status != NodeStatus::Dead {
                out.push((node.node_id.clone(), node.host.clone(), node.node_port));
                assert(vs.take(i as int + 1).filter(alive).map_values(entry) =~= vs.take(i as int).filter(
                    alive,
                ).map_values(entry).push(entry(vs[i as int])));
            }
            i = i + 1;
        }
        assert(vs.take(vs.len() as int) == vs);
        out
    }

    /// The current ring, stamped with the current version.
    pub fn get_ring(&self) -> (state: RingState)
        requires
            self.wf(),
        ensures
            state.nodes@ == self.ring.node_map.value_seq(),
            state.virtual_nodes@ == ring_pairs(self.ring.virtual_nodes@),
            state.replication_factor == 3,
            state.ring_version == self.ring_version,
    {
        self.ring.to_ring_state(self.ring_version)
    }

    /// Copies of every registered node, in registration order.
    pub fn get_nodes(&self) -> (nodes: Vec<NodeInfo>)
        requires
            self.wf(),
        ensures
            nodes@ == self.nodes.value_seq(),
    {
        proof { self.nodes.lemma_wf(); }
        let mut out: Vec<NodeInfo> = Vec::new();
        let mut i: usize = 0;
        while i < self.nodes.len()
            invariant
                self.wf(),
                i <= self.nodes.key_seq().len(),
                self.nodes.key_seq().len() == self.nodes.value_seq().len(),
                out@ == self.nodes.value_seq().take(i as int),
            decreases self.nodes.key_seq().len() - i,
        {
            out.push(self.nodes.value_at(i).clone());
            assert(self.nodes.value_seq().take(i as int + 1) == self.nodes.value_seq().take(
                i as int,
            ).push(self.nodes.value_seq()[i as int]));
            i = i + 1;
        }
        assert(self.nodes.value_seq().take(i as int) == self.nodes.value_seq());
        out
    }

    /// Node counts by status, the ring version, the re-replication count,
    /// and the whole seconds since the controller started (cast to `u64`).
    pub fn get_metrics(&self, now: i64) -> (metrics: ControllerMetrics)
        requires
            self.wf(),
        ensures
            metrics.total_nodes == self.nodes.value_seq().len(),
            metrics.alive_nodes == count_status(self.nodes.value_seq(), NodeStatus::Alive),
            metrics.suspect_nodes == count_status(self.nodes.value_seq(), NodeStatus::Suspect),
            metrics.dead_nodes == count_status(self.nodes.value_seq(), NodeStatus::Dead),
            metrics.ring_version == self.ring_version,
            metrics.re_replication_count == self.re_replication_count,
            metrics.uptime_seconds == elapsed_seconds(self.started_at, now) as u64,
    {
        proof { self.nodes.lemma_wf(); }
        let ghost vs = self.nodes.value_seq();
        let mut alive: u64 = 0;
        let mut suspect: u64 = 0;
        let mut dead: u64 = 0;
        let mut i: usize = 0;
        while i < self.nodes.len()
            invariant
                self.wf(),
                vs == self.nodes.value_seq(),
                i <= vs.len(),
                self.nodes.key_seq().len() == vs.len(),
                alive == count_status(vs.take(i as int), NodeStatus::Alive),
                suspect == count_status(vs.take(i as int), NodeStatus::Suspect),
                dead == count_status(vs.take(i as int), NodeStatus::Dead),
            decreases vs.len() - i,
        {
            let node = self.nodes.value_at(i);
            proof {
                assert(vs.take(i as int + 1) == vs.take(i as int).push(vs[i as int]));
                vs.take(i as int).lemma_filter_push(vs[i as int], |n: NodeInfo| n.status == NodeStatus::Alive);
                vs.take(i as int).lemma_filter_push(vs[i as int], |n: NodeInfo| n.status == NodeStatus::Suspect);
                vs.take(i as int).lemma_filter_push(vs[i as int], |n: NodeInfo| n.status == NodeStatus::Dead);
                vs.take(i as int).lemma_filter_len(|n: NodeInfo| n.status == NodeStatus::Alive);
                vs.take(i as int).lemma_filter_len(|n: NodeInfo| n.status == NodeStatus::Suspect);
                vs.take(i as int).lemma_filter_len(|n: NodeInfo| n.status == NodeStatus::Dead);
            }
            match node.status {
                NodeStatus::Alive => { alive = alive + 1; },
                NodeStatus::Suspect => { suspect = suspect + 1; },
                NodeStatus::Dead => { dead = dead + 1; },
            }
            i = i + 1;
        }
        assert(vs.take(i as int) == vs);
        let uptime = seconds_between(self.started_at, now);
        ControllerMetrics {
            total_nodes: self.nodes.len() as u64,
            alive_nodes: alive,
            suspect_nodes: suspect,
            dead_nodes: dead,
            ring_version: self.ring_version,
            re_replication_count: self.re_replication_count,
            uptime_seconds: uptime as u64,
        }
    }

    /// Records a finished re-replication run for the node `failed_node`:
    /// when it finished, the copies confirmed and the copies that failed;
    /// the run count goes up by one.
    pub fn record_re_replication(&mut self, failed_node: String, at: i64, success: u64, failed: u64)
        requires
            old(self).re_replication_count < u64::MAX,
        ensures
            final(self).re_replication_count == old(self).re_replication_count + 1,
            final(self).last_replication == Some((failed_node, at, success, failed)),
            final(self).ring == old(self).ring,
            final(self).nodes == old(self).nodes,
            final(self).last_heartbeat == old(self).last_heartbeat,
            final(self).ring_version == old(self).ring_version,
            final(self).started_at == old(self).started_at,
    {
        self.re_replication_count = self.re_replication_count + 1;
        self.last_replication = Some((failed_node, at, success, failed));
    }

    /// The last re-replication run (node, time, copies confirmed and
    /// failed; zeros and `None` before the first run) and the run count.
    pub fn get_status(&self) -> (status: ReplicationStatus)
        ensures
            status.re_replication_count == self.re_replication_count,
            match self.last_replication {
                Some((node, at, success, failed)) => status.last_replication_node == Some(node)
                    && status.last_replication_at == Some(at)
                    && status.last_replication_keys_success == success
                    && status.last_replication_keys_failed == failed,
                None => status.last_replication_node is None && status.last_replication_at is None
                    && status.last_replication_keys_success == 0
                    && status.last_replication_keys_failed == 0,
            },
    {
        match &self.last_replication {
            Some((node, at, success, failed)) => ReplicationStatus {
                last_replication_node: Some(node.clone()),
                last_replication_at: Some(*at),
                last_replication_keys_success: *success,
                last_replication_keys_failed: *failed,
                re_replication_count: self.re_replication_count,
            },
            None => ReplicationStatus {
                last_replication_node: None,
                last_replication_at: None,
                last_replication_keys_success: 0,
                last_replication_keys_failed: 0,
                re_replication_count: self.re_replication_count,
            },
        }
    }
}

} // verus!
