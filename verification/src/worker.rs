//! A worker: its key-value store, its copy of the ring, and the decisions of
//! the write protocol (routing a write, and the quorum of replicas).

use vstd::prelude::*;
use crate::address::{http_address, http_address_text, key_url, key_url_text};
use crate::error::IronRingError;
use crate::models::{GetResponse, KeyDumpResponse, NodeInfo, ReplicateRequest, RingState};
use crate::ring::{HashRing, node_map_of, virtual_nodes_of};
use crate::store::Store;
use crate::strmap::str_eq;

verus! {

/// Where a write of a key goes.
#[derive(Debug, PartialEq, Eq)]
pub enum PutRoute {
    /// The ring has no owner for the key yet.
    ClusterNotReady,
    /// Another node owns the key; the write belongs at this URL.
    Redirect(String),
    /// This node owns the key.
    Primary,
}

/// The next move of a quorum write.
#[derive(Debug, PartialEq, Eq)]
pub enum QuorumStep {
    /// Copy the value to the replica at this address and report the result.
    Replicate(String),
    /// The write stands: report this many confirmed copies, and copy the
    /// value in the background to this address, if any.
    Acknowledge { replicas_confirmed: u8, background: Option<String> },
    /// No replica confirmed the write.
    Fail,
}

/// The quorum decision after the results reported so far (`first`, then
/// `second`) for a key with the given replica addresses.
pub open spec fn quorum_spec(
    replicas: Seq<String>,
    first: Option<bool>,
    second: Option<bool>,
) -> QuorumStep {
    match first {
        None => if replicas.len() == 0 {
            QuorumStep::Acknowledge { replicas_confirmed: 1, background: None }
        } else {
            QuorumStep::Replicate(replicas[0])
        },
        Some(true) => QuorumStep::Acknowledge {
            replicas_confirmed: 2,
            background: if replicas.len() > 1 { Some(replicas[1]) } else { None },
        },
        Some(false) => match second {
            None => if replicas.len() > 1 {
                QuorumStep::Replicate(replicas[1])
            } else {
                QuorumStep::Fail
            },
            Some(true) => QuorumStep::Acknowledge {
                replicas_confirmed: 2,
                background: Some(replicas[0]),
            },
            Some(false) => QuorumStep::Fail,
        },
    }
}

/// Decides the next move of a quorum write. The local copy counts as one;
/// the write stands once one replica confirms (the first, or failing that
/// the second), and the replica not yet written is then updated in the
/// background. A key without replicas is acknowledged with one copy.
/// `first` and `second` are the results of the copies this function asked
/// for, in order.
pub fn quorum_next(replicas: &Vec<String>, first: Option<bool>, second: Option<bool>) -> (step: QuorumStep)
    requires
        first is Some ==> replicas@.len() >= 1,
        second is Some ==> first == Some(false) && replicas@.len() >= 2,
    ensures
        step == quorum_spec(replicas@, first, second),
        first is None && replicas@.len() == 0 ==> step == (QuorumStep::Acknowledge {
            replicas_confirmed: 1,
            background: None,
        }),
        first is None && replicas@.len() >= 1 ==> step == QuorumStep::Replicate(replicas@[0]),
        first == Some(true) ==> step == (QuorumStep::Acknowledge {
            replicas_confirmed: 2,
            background: if replicas@.len() > 1 { Some(replicas@[1]) } else { None },
        }),
        first == Some(false) && second is None && replicas@.len() >= 2 ==> step == QuorumStep::Replicate(
            replicas@[1],
        ),
        first == Some(false) && second is None && replicas@.len() == 1 ==> step == QuorumStep::Fail,
        second == Some(true) ==> step == (QuorumStep::Acknowledge {
            replicas_confirmed: 2,
            background: Some(replicas@[0]),
        }),
        second == Some(false) ==> step == QuorumStep::Fail,
{
    match first {
        None => {
            if replicas.len() == 0 {
                QuorumStep::Acknowledge { replicas_confirmed: 1, background: None }
            } else {
                QuorumStep::Replicate(replicas[0].clone())
            }
        },
        Some(true) => {
            let background = if replicas.len() > 1 {
                Some(replicas[1].clone())
            } else {
                None
            };
            QuorumStep::Acknowledge { replicas_confirmed: 2, background }
        },
        Some(false) => match second {
            None => {
                if replicas.len() > 1 {
                    QuorumStep::Replicate(replicas[1].clone())
                } else {
                    QuorumStep::Fail
                }
            },
            Some(true) => QuorumStep::Acknowledge {
                replicas_confirmed: 2,
                background: Some(replicas[0].clone()),
            },
            Some(false) => QuorumStep::Fail,
        },
    }
}

/// What the quorum protocol guarantees: a write is acknowledged with two
/// copies exactly when a replica confirmed it, with one copy exactly when the
/// key has no replicas; it fails only when every replica asked refused; at
/// most two replicas are asked, first the first one, then the second; and
/// the background copy goes to a replica other than the one that confirmed.
pub proof fn lemma_quorum_guarantees(replicas: Seq<String>, first: Option<bool>, second: Option<bool>)
    requires
        first is Some ==> replicas.len() >= 1,
        second is Some ==> first == Some(false) && replicas.len() >= 2,
    ensures
        first is None && replicas.len() >= 1 ==> quorum_spec(replicas, first, second)
            == QuorumStep::Replicate(replicas[0]),
        match quorum_spec(replicas, first, second) {
            QuorumStep::Acknowledge { replicas_confirmed, background } => {
                &&& (replicas_confirmed == 2 && (first == Some(true) || second == Some(true))) || (
                replicas_confirmed == 1 && replicas.len() == 0 && first is None)
                &&& (replicas_confirmed == 2) == (first == Some(true) || second == Some(true))
                &&& (replicas_confirmed == 1) == (replicas.len() == 0)
                &&& (first == Some(true) ==> background == (if replicas.len() > 1 {
                    Some(replicas[1])
                } else {
                    None
                }))
                &&& (second == Some(true) ==> background == Some(replicas[0]))
            },
            QuorumStep::Fail => first == Some(false) && (second == Some(false) || (second is None
                && replicas.len() == 1)),
            QuorumStep::Replicate(addr) => second is None && ((first is None && addr == replicas[0]) || (
            first == Some(false) && addr == replicas[1])),
        },
{
}

/// A read after a write of a key gives the written value, and a write
/// leaves every other key as it was: `before` and `after` are a worker's
/// state before and after `store_put` (or `replicate`) of `key` and `value`.
pub proof fn lemma_read_after_write(
    before: &AppState,
    after: &AppState,
    key: String,
    value: String,
    other: Seq<char>,
)
    requires
        after.contents() == before.contents().insert(key@, value@),
    ensures
        after.contents().contains_key(key@),
        after.contents()[key@] == value@,
        other != key@ ==> after.contents().contains_key(other) == before.contents().contains_key(other),
        other != key@ && before.contents().contains_key(other) ==> after.contents()[other] == before.contents()[other],
{
}

/// A worker's state.
pub struct AppState {
    /// This worker's keys and values.
    pub store: Store,
    /// This worker's copy of the ring.
    pub ring: HashRing,
    pub node_id: String,
    /// Where this worker listens, `http://host:port`.
    pub node_addr: String,
    pub controller_addr: String,
    /// Version of the ring copy.
    pub ring_version: u64,
}

impl AppState {
    /// The keys and values this worker holds.
    pub open spec fn contents(&self) -> Map<Seq<char>, Seq<char>> {
        self.store@
    }

    /// A worker with an empty store and an empty ring at version 0.
    pub fn new(node_id: String, node_addr: String, controller_addr: String) -> (state: Self)
        ensures
            state.ring.wf(),
            state.ring.virtual_nodes@.len() == 0,
            state.ring.node_map@ == Map::<Seq<char>, NodeInfo>::empty(),
            state.contents().dom() == Set::<Seq<char>>::empty(),
            state.node_id == node_id,
            state.node_addr == node_addr,
            state.controller_addr == controller_addr,
            state.ring_version == 0,
    {
        AppState {
            store: Store::new(),
            ring: HashRing::new(),
            node_id,
            node_addr,
            controller_addr,
            ring_version: 0,
        }
    }

    /// Replaces the ring copy with a snapshot from the controller, and takes
    /// its version.
    pub fn install_ring(&mut self, ring_state: RingState)
        ensures
            final(self).ring.wf(),
            final(self).ring.node_map@ == node_map_of(ring_state.nodes@),
            final(self).ring.virtual_nodes@ == virtual_nodes_of(ring_state.virtual_nodes@),
            final(self).ring.virtual_nodes_per_physical == 150,
            final(self).ring_version == ring_state.ring_version,
            final(self).contents() == old(self).contents(),
            final(self).node_id == old(self).node_id,
            final(self).node_addr == old(self).node_addr,
            final(self).controller_addr == old(self).controller_addr,
    {
        let version = ring_state.ring_version;
        self.ring = HashRing::from_ring_state(ring_state);
        self.ring_version = version;
    }

    /// Where a write of `key` goes: nowhere yet when the ring has no owner
    /// for it, here when this worker owns it, else to
    /// `http://<owner host>:<owner port>/v1/keys/<key>`.
    pub fn route_put(&self, key: &str) -> (route: PutRoute)
        requires
            self.ring.wf(),
        ensures
            match self.ring.primary(key@) {
                None => route == PutRoute::ClusterNotReady,
                Some(p) => if p.node_id@ == self.node_id@ {
                    route == PutRoute::Primary
                } else {
                    route matches PutRoute::Redirect(url) && url@ == key_url_text(
                        http_address_text(p.host@, p.node_port),
                        key@,
                    )
                },
            },
    {
        match self.ring.find_primary(key) {
            None => PutRoute::ClusterNotReady,
            Some(primary) => {
                if str_eq(primary.node_id.as_str(), self.node_id.as_str()) {
                    PutRoute::Primary
                } else {
                    PutRoute::Redirect(key_url(primary.host.as_str(), primary.node_port, key))
                }
            },
        }
    }

    /// The addresses `http://host:port` of the replicas of `key`, in the
    /// ring's replica order.
    pub fn replica_addresses(&self, key: &str) -> (addrs: Vec<String>)
        requires
            self.ring.wf(),
        ensures
            addrs@.len() == self.ring.replicas(key@).len(),
            forall|i: int|
                0 <= i < addrs@.len() ==> #[trigger] addrs@[i]@ == http_address_text(
                    self.ring.replicas(key@)[i].host@,
                    self.ring.replicas(key@)[i].node_port,
                ),
    {
        let replicas = self.ring.find_replicas(key);
        let ghost rs = self.ring.replicas(key@);
        let mut addrs: Vec<String> = Vec::new();
        let mut i: usize = 0;
        while i < replicas.len()
            invariant
                rs == self.ring.replicas(key@),
                crate::ring::deref_all(replicas@) == rs,
                i <= replicas@.len(),
                addrs@.len() == i,
                forall|j: int|
                    0 <= j < i ==> #[trigger] addrs@[j]@ == http_address_text(rs[j].host@, rs[j].node_port),
            decreases replicas@.len() - i,
        {
            let node = replicas[i];
            assert(*node == rs[i as int]);
            addrs.push(http_address(node.host.as_str(), node.node_port));
            i = i + 1;
        }
        addrs
    }

    /// Stores a value under a key on this worker.
    pub fn store_put(&mut self, key: String, value: String)
        ensures
            final(self).contents() == old(self).contents().insert(key@, value@),
            final(self).ring == old(self).ring,
            final(self).ring_version == old(self).ring_version,
            final(self).node_id == old(self).node_id,
            final(self).node_addr == old(self).node_addr,
            final(self).controller_addr == old(self).controller_addr,
    {
        self.store.insert(key, value);
    }

    /// Stores a copy sent by the primary of a key.
    pub fn replicate(&mut self, req: ReplicateRequest)
        ensures
            final(self).contents() == old(self).contents().insert(
                req.key@,
                req.value@,
            ),
            final(self).ring == old(self).ring,
            final(self).ring_version == old(self).ring_version,
            final(self).node_id == old(self).node_id,
            final(self).node_addr == old(self).node_addr,
            final(self).controller_addr == old(self).controller_addr,
    {
        self.store_put(req.key, req.value);
    }

    /// Reads a key from this worker's store.
    pub fn get_key(&self, key: String) -> (resp: Result<GetResponse, IronRingError>)
        ensures
            self.contents().contains_key(key@) ==> (resp matches Ok(r) && r.key == key
                && r.value is Some && r.value.unwrap()@ == self.contents()[key@]
                && r.served_by == self.node_id),
            !self.contents().contains_key(key@) ==> resp == Err::<GetResponse, IronRingError>(
                IronRingError::KeyNotFound(key),
            ),
    {
        match self.store.get(key.as_str()) {
            Some(value) => Ok(GetResponse { key, value: Some(value), served_by: self.node_id.clone() }),
            None => Err(IronRingError::KeyNotFound(key)),
        }
    }

    /// The value of a key that another node should receive a copy of.
    pub fn value_to_transfer(&self, key: &str) -> (value: Option<String>)
        ensures
            match value {
                Some(v) => self.contents().contains_key(key@) && v@ == self.contents()[key@],
                None => !self.contents().contains_key(key@),
            },
    {
        self.store.get(key)
    }

    /// Every key and value this worker holds, each key once.
    pub fn get_all_keys(&self) -> (dump: KeyDumpResponse)
        ensures
            dump.node_id == self.node_id,
            forall|i: int|
                0 <= i < dump.keys@.len() ==> self.contents().contains_key(
                    #[trigger] dump.keys@[i].0@,
                ) && self.contents()[dump.keys@[i].0@] == dump.keys@[i].1@,
            forall|i: int, j: int|
                0 <= i < j < dump.keys@.len() ==> #[trigger] dump.keys@[i].0@ != #[trigger] dump.keys@[j].0@,
            forall|k: Seq<char>|
                #[trigger] self.contents().contains_key(k) ==> exists|i: int|
                    0 <= i < dump.keys@.len() && dump.keys@[i].0@ == k,
    {
        let keys = self.store.entries();
        assert forall|k: Seq<char>| #[trigger] self.contents().contains_key(k) implies exists|i: int|
            0 <= i < keys@.len() && keys@[i].0@ == k by {
            assert(self.store@.contains_key(k));
        }
        KeyDumpResponse { node_id: self.node_id.clone(), keys }
    }
}

} // verus!
