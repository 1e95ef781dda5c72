//! The consistent hash ring: physical nodes placed at many virtual positions.

use vstd::prelude::*;
use crate::hashing::{ring_hash, ring_position, virtual_node_label, make_virtual_node_label};
use crate::models::{NodeInfo, RingState};
use crate::strmap::{StrMap, str_eq};

verus! {

broadcast use vstd::seq_lib::group_seq_properties;

/// One position on the ring, owned by a physical node.
#[derive(Debug, PartialEq)]
pub struct VirtualNode {
    pub position: u64,
    pub node_id: String,
}

impl Clone for VirtualNode {
    fn clone(&self) -> (copy: Self)
        ensures
            copy == *self,
    {
        VirtualNode { position: self.position, node_id: self.node_id.clone() }
    }
}

/// Index of the first virtual node whose position is at or after `h`, or the
/// length of the sequence when there is none.
pub open spec fn first_at_or_after(vns: Seq<VirtualNode>, h: u64) -> int
    decreases vns.len(),
{
    if vns.len() == 0 {
        0
    } else if vns[0].position >= h {
        0
    } else {
        1 + first_at_or_after(vns.drop_first(), h)
    }
}

/// The virtual node that owns hash `h`: the first one at or after `h`,
/// wrapping around to the first virtual node.
pub open spec fn primary_slot(vns: Seq<VirtualNode>, h: u64) -> int {
    let i = first_at_or_after(vns, h);
    if i < vns.len() {
        i
    } else {
        0
    }
}

/// The node that owns hash `h`, looked up by the owning virtual node's id.
pub open spec fn primary_of(
    vns: Seq<VirtualNode>,
    nodes: Map<Seq<char>, NodeInfo>,
    h: u64,
) -> Option<NodeInfo> {
    if vns.len() == 0 {
        None
    } else {
        let id = vns[primary_slot(vns, h)].node_id@;
        if nodes.contains_key(id) {
            Some(nodes[id])
        } else {
            None
        }
    }
}

/// One step of the replica walk: the node owning `vn` joins the replicas
/// when fewer than two were found, it is not the primary, it is in the node
/// map, and no replica with its id was found yet.
pub open spec fn replica_step(
    prev: Seq<NodeInfo>,
    vn: VirtualNode,
    nodes: Map<Seq<char>, NodeInfo>,
    primary_id: Seq<char>,
) -> Seq<NodeInfo> {
    if prev.len() < 2 && vn.node_id@ != primary_id && nodes.contains_key(vn.node_id@) && !(exists|
        k: int,
    | 0 <= k < prev.len() && #[trigger] prev[k].node_id@ == nodes[vn.node_id@].node_id@) {
        prev.push(nodes[vn.node_id@])
    } else {
        prev
    }
}

/// The replicas found after visiting the `n` virtual nodes that follow
/// `start` clockwise.
pub open spec fn replica_walk(
    vns: Seq<VirtualNode>,
    nodes: Map<Seq<char>, NodeInfo>,
    start: int,
    primary_id: Seq<char>,
    n: nat,
) -> Seq<NodeInfo>
    decreases n,
{
    if n == 0 {
        Seq::empty()
    } else {
        replica_step(
            replica_walk(vns, nodes, start, primary_id, (n - 1) as nat),
            vns[(start + n) % (vns.len() as int)],
            nodes,
            primary_id,
        )
    }
}

/// The replicas of hash `h`: walking once around the ring from the primary's
/// virtual node, the first two distinct nodes other than the primary.
pub open spec fn replicas_of(
    vns: Seq<VirtualNode>,
    nodes: Map<Seq<char>, NodeInfo>,
    h: u64,
) -> Seq<NodeInfo> {
    match primary_of(vns, nodes, h) {
        Some(p) => replica_walk(vns, nodes, primary_slot(vns, h), p.node_id@, vns.len()),
        None => Seq::empty(),
    }
}

/// The nodes behind a sequence of references.
pub open spec fn deref_all(s: Seq<&NodeInfo>) -> Seq<NodeInfo> {
    s.map_values(|r: &NodeInfo| *r)
}

/// Virtual nodes owned by `id`.
pub open spec fn owned_by(id: Seq<char>) -> spec_fn(VirtualNode) -> bool {
    |v: VirtualNode| v.node_id@ == id
}

/// Virtual nodes not owned by `id`.
pub open spec fn not_owned_by(id: Seq<char>) -> spec_fn(VirtualNode) -> bool {
    |v: VirtualNode| v.node_id@ != id
}

/// Virtual nodes at position `p`.
pub open spec fn at_position(p: u64) -> spec_fn(VirtualNode) -> bool {
    |v: VirtualNode| v.position == p
}

/// Positions never decrease along the sequence.
pub open spec fn sorted_by_position(s: Seq<VirtualNode>) -> bool {
    forall|i: int, j: int| 0 <= i <= j < s.len() ==> s[i].position <= s[j].position
}

/// `sorted` is `original` sorted by position, with virtual nodes of equal
/// position kept in their original order (a stable sort).
pub open spec fn stable_sort_of(sorted: Seq<VirtualNode>, original: Seq<VirtualNode>) -> bool {
    &&& sorted_by_position(sorted)
    &&& forall|p: u64| #[trigger] sorted.filter(at_position(p)) == original.filter(at_position(p))
}

/// The `count` virtual nodes of a physical node: the `i`-th sits at the ring
/// hash of the label `"<node id>-<i>"`.
pub open spec fn new_virtual_nodes(node: NodeInfo, count: nat) -> Seq<VirtualNode> {
    Seq::new(
        count,
        |i: int|
            VirtualNode {
                position: ring_hash(virtual_node_label(node.node_id@, i as nat)),
                node_id: node.node_id,
            },
    )
}

/// The nodes of a list keyed by id; a later entry replaces an earlier one
/// with the same id.
pub open spec fn node_map_of(nodes: Seq<NodeInfo>) -> Map<Seq<char>, NodeInfo>
    decreases nodes.len(),
{
    if nodes.len() == 0 {
        Map::empty()
    } else {
        node_map_of(nodes.drop_last()).insert(nodes.last().node_id@, nodes.last())
    }
}

/// The virtual nodes described by `(position, node id)` pairs.
pub open spec fn virtual_nodes_of(pairs: Seq<(u64, String)>) -> Seq<VirtualNode> {
    pairs.map_values(|t: (u64, String)| VirtualNode { position: t.0, node_id: t.1 })
}

/// Virtual nodes as `(position, node id)` pairs.
pub open spec fn ring_pairs(vns: Seq<VirtualNode>) -> Seq<(u64, String)> {
    vns.map_values(|v: VirtualNode| (v.position, v.node_id))
}

/// The consistent hash ring.
#[derive(Clone)]
pub struct HashRing {
    /// Virtual nodes, normally sorted by position.
    pub virtual_nodes: Vec<VirtualNode>,
    pub virtual_nodes_per_physical: u32,
    /// Physical nodes keyed by their id.
    pub node_map: StrMap<NodeInfo>,
}

impl HashRing {
    /// The node map is well formed and each node is filed under its own id.
    pub open spec fn wf(&self) -> bool {
        &&& self.node_map.wf()
        &&& forall|k: Seq<char>| #[trigger] self.node_map@.contains_key(k) ==> self.node_map@[k].node_id@ == k
    }

    /// Every virtual node belongs to a node in the node map.
    pub open spec fn owners_registered(&self) -> bool {
        forall|i: int|
            0 <= i < self.virtual_nodes@.len() ==> self.node_map@.contains_key(
                #[trigger] self.virtual_nodes@[i].node_id@,
            )
    }

    /// The node that owns `key`.
    pub open spec fn primary(&self, key: Seq<char>) -> Option<NodeInfo> {
        primary_of(self.virtual_nodes@, self.node_map@, ring_hash(key))
    }

    /// The replicas of `key`.
    pub open spec fn replicas(&self, key: Seq<char>) -> Seq<NodeInfo> {
        replicas_of(self.virtual_nodes@, self.node_map@, ring_hash(key))
    }

    pub fn new() -> (ring: Self)
        ensures
            ring.wf(),
            ring.virtual_nodes@ == Seq::<VirtualNode>::empty(),
            ring.virtual_nodes_per_physical == 150,
            ring.node_map@ == Map::<Seq<char>, NodeInfo>::empty(),
            ring.owners_registered(),
    {
        HashRing {
            virtual_nodes: Vec::new(),
            virtual_nodes_per_physical: 150,
            node_map: StrMap::new(),
        }
    }

    /// The ring position of a text.
    fn hash(input: &str) -> (position: u64)
        ensures
            position == ring_hash(input@),
    {
        ring_position(input)
    }

    /// Index of the first virtual node at or after `h`, or the length.
    fn scan_at_or_after(&self, h: u64) -> (i: usize)
        ensures
            i == first_at_or_after(self.virtual_nodes@, h),
    {
        let mut i: usize = 0;
        while i < self.virtual_nodes.len()
            invariant
                i <= self.virtual_nodes@.len(),
                forall|j: int| 0 <= j < i ==> self.virtual_nodes@[j].position < h,
            decreases self.virtual_nodes@.len() - i,
        {
            if self.virtual_nodes[i].position >= h {
                proof { lemma_first_at_or_after(self.virtual_nodes@, h, i as int); }
                return i;
            }
            i = i + 1;
        }
        proof { lemma_first_at_or_after(self.virtual_nodes@, h, i as int); }
        i
    }

    /// The node that owns ring position `h`: the owner of the first virtual
    /// node at or after `h`, wrapping around to the first virtual node;
    /// `None` on an empty ring or when the owner is not in the node map.
    pub fn primary_at(&self, h: u64) -> (primary: Option<&NodeInfo>)
        requires
            self.wf(),
        ensures
            match primary {
                Some(n) => primary_of(self.virtual_nodes@, self.node_map@, h) == Some(*n),
                None => primary_of(self.virtual_nodes@, self.node_map@, h) is None,
            },
            self.virtual_nodes@.len() == 0 ==> primary is None,
    {
        if self.virtual_nodes.len() == 0 {
            return None;
        }
        let i = self.scan_at_or_after(h);
        let slot = if i < self.virtual_nodes.len() { i } else { 0 };
        self.node_map.get(self.virtual_nodes[slot].node_id.as_str())
    }

    /// The node that owns `key`: the primary of the key's ring position.
    pub fn find_primary(&self, key: &str) -> (primary: Option<&NodeInfo>)
        requires
            self.wf(),
        ensures
            match primary {
                Some(n) => self.primary(key@) == Some(*n),
                None => self.primary(key@) is None,
            },
            self.virtual_nodes@.len() == 0 ==> primary is None,
    {
        let hash_key = Self::hash(key);
        self.primary_at(hash_key)
    }

    /// Adds a node: files it under its id, drops any virtual nodes that
    /// already carry its id (a node that registers again), places its
    /// virtual nodes, then sorts all virtual nodes by position (stably).
    /// Afterwards exactly `virtual_nodes_per_physical` virtual nodes carry
    /// its id, and every other node keeps its virtual nodes.
    pub fn add_node(&mut self, node_info: NodeInfo)
        requires
            old(self).wf(),
        ensures
            final(self).wf(),
            final(self).node_map@ == old(self).node_map@.insert(node_info.node_id@, node_info),
            stable_sort_of(
                final(self).virtual_nodes@,
                old(self).virtual_nodes@.filter(not_owned_by(node_info.node_id@)) + new_virtual_nodes(
                    node_info,
                    old(self).virtual_nodes_per_physical as nat,
                ),
            ),
            final(self).virtual_nodes@.filter(owned_by(node_info.node_id@)).len()
                == old(self).virtual_nodes_per_physical,
            forall|id: Seq<char>|
                id != node_info.node_id@ ==> #[trigger] final(self).virtual_nodes@.filter(owned_by(id)).len()
                    == old(self).virtual_nodes@.filter(owned_by(id)).len(),
            final(self).virtual_nodes_per_physical == old(self).virtual_nodes_per_physical,
            old(self).owners_registered() ==> final(self).owners_registered(),
    {
        self.node_map.insert(node_info.node_id.clone(), node_info.clone());
        let ghost id = node_info.node_id@;
        let ghost vns0 = self.virtual_nodes@;
        self.virtual_nodes = without_owner(&self.virtual_nodes, node_info.node_id.as_str());
        let ghost start = self.virtual_nodes@;
        let mut i: u32 = 0;
        while i < self.virtual_nodes_per_physical
            invariant
                self.wf(),
                self.node_map@ == old(self).node_map@.insert(node_info.node_id@, node_info),
                self.virtual_nodes_per_physical == old(self).virtual_nodes_per_physical,
                start == vns0.filter(not_owned_by(id)),
                id == node_info.node_id@,
                i <= self.virtual_nodes_per_physical,
                self.virtual_nodes@ == start + new_virtual_nodes(node_info, i as nat),
            decreases self.virtual_nodes_per_physical - i,
        {
            let virtual_node_id = make_virtual_node_label(node_info.node_id.as_str(), i);
            let position = Self::hash(virtual_node_id.as_str());
            self.virtual_nodes.push(VirtualNode { position, node_id: node_info.node_id.clone() });
            assert(new_virtual_nodes(node_info, (i + 1) as nat) =~= new_virtual_nodes(
                node_info,
                i as nat,
            ).push(VirtualNode { position, node_id: node_info.node_id }));
            i = i + 1;
        }
        let ghost unsorted = self.virtual_nodes@;
        let ghost fresh = new_virtual_nodes(node_info, i as nat);
        sort_by_position(&mut self.virtual_nodes);
        proof {
            assert forall|k: int| 0 <= k < start.len() implies not_owned_by(id)(#[trigger] start[k]) by {
                vns0.lemma_filter_pred(not_owned_by(id), k);
            }
            Seq::filter_distributes_over_add(start, fresh, owned_by(id));
            lemma_filter_none(start, owned_by(id));
            lemma_filter_all(fresh, owned_by(id));
            assert(self.virtual_nodes@.filter(owned_by(id)).len() == unsorted.filter(owned_by(id)).len());
            assert forall|other: Seq<char>|
                other != id implies #[trigger] self.virtual_nodes@.filter(owned_by(other)).len()
                    == vns0.filter(owned_by(other)).len() by {
                assert(self.virtual_nodes@.filter(owned_by(other)).len() == unsorted.filter(owned_by(other)).len());
                Seq::filter_distributes_over_add(start, fresh, owned_by(other));
                lemma_filter_none(fresh, owned_by(other));
                lemma_filter_filter(vns0, not_owned_by(id), owned_by(other), owned_by(other));
            }
            if old(self).owners_registered() {
                assert forall|j: int| 0 <= j < self.virtual_nodes@.len() implies self.node_map@.contains_key(
                    #[trigger] self.virtual_nodes@[j].node_id@,
                ) by {
                    lemma_sorted_member(self.virtual_nodes@, unsorted, j);
                    let v = self.virtual_nodes@[j];
                    let k = choose|k: int| 0 <= k < unsorted.len() && unsorted[k] == v;
                    if k < start.len() {
                        assert(unsorted[k] == start[k]);
                        assert(start.contains(start[k]));
                        vns0.lemma_filter_contains_rev(not_owned_by(id), start[k]);
                        let m = choose|m: int| 0 <= m < vns0.len() && vns0[m] == start[k];
                        assert(old(self).node_map@.contains_key(vns0[m].node_id@));
                    } else {
                        assert(unsorted[k] == fresh[k - start.len()]);
                    }
                }
            }
        }
    }

    /// Copies of all registered nodes, in the node map's order.
    pub fn get_all_nodes(&self) -> (nodes: Vec<NodeInfo>)
        requires
            self.wf(),
        ensures
            nodes@ == self.node_map.value_seq(),
    {
        proof { self.node_map.lemma_wf(); }
        let mut ans: Vec<NodeInfo> = Vec::new();
        let mut i: usize = 0;
        while i < self.node_map.len()
            invariant
                self.wf(),
                i <= self.node_map.key_seq().len(),
                self.node_map.key_seq().len() == self.node_map.value_seq().len(),
                ans@ == self.node_map.value_seq().take(i as int),
            decreases self.node_map.key_seq().len() - i,
        {
            ans.push(self.node_map.value_at(i).clone());
            assert(self.node_map.value_seq().take(i as int + 1) == self.node_map.value_seq().take(
                i as int,
            ).push(self.node_map.value_seq()[i as int]));
            i = i + 1;
        }
        assert(self.node_map.value_seq().take(i as int) == self.node_map.value_seq());
        ans
    }

    /// A snapshot of the ring: the nodes in the node map's order, the
    /// virtual nodes as `(position, node id)` pairs, replication factor 3,
    /// and the given version.
    pub fn to_ring_state(&self, ring_version: u64) -> (state: RingState)
        requires
            self.wf(),
        ensures
            state.nodes@ == self.node_map.value_seq(),
            state.virtual_nodes@ == ring_pairs(self.virtual_nodes@),
            state.replication_factor == 3,
            state.ring_version == ring_version,
    {
        let nodes = self.get_all_nodes();
        let mut pairs: Vec<(u64, String)> = Vec::new();
        let mut i: usize = 0;
        let ghost vns = self.virtual_nodes@;
        while i < self.virtual_nodes.len()
            invariant
                vns == self.virtual_nodes@,
                i <= vns.len(),
                pairs@ == ring_pairs(vns.take(i as int)),
            decreases vns.len() - i,
        {
            let vn = &self.virtual_nodes[i];
            pairs.push((vn.position, vn.node_id.clone()));
            assert(ring_pairs(vns.take(i as int + 1)) =~= ring_pairs(vns.take(i as int)).push(
                (vns[i as int].position, vns[i as int].node_id),
            ));
            i = i + 1;
        }
        assert(vns.take(vns.len() as int) == vns);
        RingState { nodes, virtual_nodes: pairs, replication_factor: 3, ring_version }
    }

    /// Rebuilds a ring from a snapshot: nodes keyed by id (a later node
    /// replaces an earlier one with the same id), virtual nodes in the
    /// snapshot's order, 150 virtual nodes per node.
    pub fn from_ring_state(ring_state: RingState) -> (ring: Self)
        ensures
            ring.wf(),
            ring.node_map@ == node_map_of(ring_state.nodes@),
            ring.virtual_nodes@ == virtual_nodes_of(ring_state.virtual_nodes@),
            ring.virtual_nodes_per_physical == 150,
    {
        let mut node_map: StrMap<NodeInfo> = StrMap::new();
        let ghost nodes = ring_state.nodes@;
        let mut i: usize = 0;
        while i < ring_state.nodes.len()
            invariant
                nodes == ring_state.nodes@,
                i <= nodes.len(),
                node_map.wf(),
                node_map@ == node_map_of(nodes.take(i as int)),
                forall|k: Seq<char>| #[trigger] node_map@.contains_key(k) ==> node_map@[k].node_id@ == k,
            decreases nodes.len() - i,
        {
            let node = &ring_state.nodes[i];
            node_map.insert(node.node_id.clone(), node.clone());
            assert(nodes.take(i as int + 1).drop_last() == nodes.take(i as int));
            i = i + 1;
        }
        assert(nodes.take(nodes.len() as int) == nodes);
        let mut virtual_nodes: Vec<VirtualNode> = Vec::new();
        let ghost pairs = ring_state.virtual_nodes@;
        let mut j: usize = 0;
        while j < ring_state.virtual_nodes.len()
            invariant
                pairs == ring_state.virtual_nodes@,
                j <= pairs.len(),
                virtual_nodes@ == virtual_nodes_of(pairs.take(j as int)),
            decreases pairs.len() - j,
        {
            let pair = &ring_state.virtual_nodes[j];
            virtual_nodes.push(VirtualNode { position: pair.0, node_id: pair.1.clone() });
            assert(virtual_nodes_of(pairs.take(j as int + 1)) =~= virtual_nodes_of(
                pairs.take(j as int),
            ).push(VirtualNode { position: pairs[j as int].0, node_id: pairs[j as int].1 }));
            j = j + 1;
        }
        assert(pairs.take(pairs.len() as int) == pairs);
        HashRing { virtual_nodes, node_map, virtual_nodes_per_physical: 150 }
    }

    /// Up to two replica nodes for ring position `h`: walking clockwise once
    /// around the ring from the primary's virtual node, the first distinct
    /// nodes other than the primary.
    pub fn replicas_at(&self, h: u64) -> (replicas: Vec<&NodeInfo>)
        requires
            self.wf(),
        ensures
            deref_all(replicas@) == replicas_of(self.virtual_nodes@, self.node_map@, h),
            replicas@.len() <= 2,
            forall|a: int, b: int|
                0 <= a < b < replicas@.len() ==> replicas@[a].node_id@ != replicas@[b].node_id@,
            forall|a: int|
                0 <= a < replicas@.len() ==> (primary_of(self.virtual_nodes@, self.node_map@, h) matches Some(p)
                    && #[trigger] replicas@[a].node_id@ != p.node_id@),
    {
        let mut replicas: Vec<&NodeInfo> = Vec::new();
        let primary = match self.primary_at(h) {
            Some(node) => node,
            None => {
                assert(deref_all(replicas@) =~= replicas_of(self.virtual_nodes@, self.node_map@, h));
                return replicas;
            },
        };
        let first = self.scan_at_or_after(h);
        let len = self.virtual_nodes.len();
        let start_index = if first < len { first } else { 0 };
        let ghost vns = self.virtual_nodes@;
        let ghost nodes = self.node_map@;
        let ghost pid = primary.node_id@;
        proof {
            lemma_walk_properties(vns, nodes, start_index as int, pid, 0);
        }
        let mut i: usize = 0;
        while i < len
            invariant
                self.wf(),
                vns == self.virtual_nodes@,
                nodes == self.node_map@,
                len == vns.len(),
                len > 0,
                start_index < len,
                pid == primary.node_id@,
                i <= len,
                deref_all(replicas@) == replica_walk(vns, nodes, start_index as int, pid, i as nat),
                replicas@.len() < 2 || i == len,
            decreases len - i,
        {
            let step = i + 1;
            let index = if step < len - start_index {
                start_index + step
            } else {
                step - (len - start_index)
            };
            proof {
                lemma_wrap_index(start_index as int, step as int, len as int, index as int);
            }
            let vnode = &self.virtual_nodes[index];
            let ghost prev = deref_all(replicas@);
            if !str_eq(vnode.node_id.as_str(), primary.node_id.as_str()) {
                if let Some(node) = self.node_map.get(vnode.node_id.as_str()) {
                    let mut already_exists = false;
                    let mut k: usize = 0;
                    while k < replicas.len()
                        invariant
                            k <= replicas@.len(),
                            already_exists == (exists|j: int|
                                0 <= j < k && #[trigger] replicas@[j].node_id@ == node.node_id@),
                        decreases replicas@.len() - k,
                    {
                        if str_eq(replicas[k].node_id.as_str(), node.node_id.as_str()) {
                            already_exists = true;
                        }
                        k = k + 1;
                    }
                    proof {
                        assert(already_exists == (exists|j: int|
                            0 <= j < prev.len() && #[trigger] prev[j].node_id@ == node.node_id@)) by {
                            if already_exists {
                                let j = choose|j: int|
                                    0 <= j < replicas@.len() && #[trigger] replicas@[j].node_id@
                                        == node.node_id@;
                                assert(prev[j].node_id@ == node.node_id@);
                            }
                            if exists|j: int| 0 <= j < prev.len() && #[trigger] prev[j].node_id@ == node.node_id@ {
                                let j = choose|j: int|
                                    0 <= j < prev.len() && #[trigger] prev[j].node_id@ == node.node_id@;
                                assert(replicas@[j].node_id@ == node.node_id@);
                            }
                        }
                    }
                    if !already_exists {
                        replicas.push(node);
                    }
                }
            }
            proof {
                assert(deref_all(replicas@) =~= replica_step(prev, vns[index as int], nodes, pid));
                lemma_walk_properties(vns, nodes, start_index as int, pid, step as nat);
            }
            i = step;
            if replicas.len() == 2 {
                proof {
                    lemma_walk_saturated(vns, nodes, start_index as int, pid, i as nat, len as nat);
                }
                i = len;
            }
        }
        proof {
            lemma_walk_properties(vns, nodes, start_index as int, pid, len as nat);
            assert(primary_slot(vns, h) == start_index);
            assert(primary_of(self.virtual_nodes@, self.node_map@, h) == Some(*primary));
            let r = deref_all(replicas@);
            assert forall|a: int| 0 <= a < replicas@.len() implies #[trigger] replicas@[a].node_id@
                == r[a].node_id@ by {}
            assert forall|a: int, b: int|
                0 <= a < b < replicas@.len() implies replicas@[a].node_id@ != replicas@[b].node_id@ by {
                assert(replicas@[a].node_id@ == r[a].node_id@);
                assert(replicas@[b].node_id@ == r[b].node_id@);
            }
        }
        replicas
    }

    /// Up to two replica nodes for `key`: the replicas of the key's ring
    /// position.
    pub fn find_replicas(&self, key: &str) -> (replicas: Vec<&NodeInfo>)
        requires
            self.wf(),
        ensures
            deref_all(replicas@) == self.replicas(key@),
            replicas@.len() <= 2,
            forall|a: int, b: int|
                0 <= a < b < replicas@.len() ==> replicas@[a].node_id@ != replicas@[b].node_id@,
            forall|a: int|
                0 <= a < replicas@.len() ==> (self.primary(key@) matches Some(p)
                    && #[trigger] replicas@[a].node_id@ != p.node_id@),
    {
        let hash_key = Self::hash(key);
        let replicas = self.replicas_at(hash_key);
        assert(replicas@.len() > 0 ==> replicas@[0].node_id@ == replicas@[0].node_id@);
        assert(replicas@.len() > 0 ==> primary_of(self.virtual_nodes@, self.node_map@, hash_key) is Some);
        replicas
    }

    /// Removes a node and all of its virtual nodes.
    pub fn remove_node(&mut self, node_id: &str)
        requires
            old(self).wf(),
        ensures
            final(self).wf(),
            final(self).node_map@ == old(self).node_map@.remove(node_id@),
            final(self).virtual_nodes@ == old(self).virtual_nodes@.filter(not_owned_by(node_id@)),
            final(self).virtual_nodes_per_physical == old(self).virtual_nodes_per_physical,
            old(self).owners_registered() ==> final(self).owners_registered(),
            sorted_by_position(old(self).virtual_nodes@) ==> sorted_by_position(final(self).virtual_nodes@),
    {
        self.node_map.remove(node_id);
        let ghost vns = self.virtual_nodes@;
        let ghost pred = not_owned_by(node_id@);
        let kept = without_owner(&self.virtual_nodes, node_id);
        self.virtual_nodes = kept;
        proof {
            if old(self).owners_registered() {
                assert forall|j: int| 0 <= j < self.virtual_nodes@.len() implies self.node_map@.contains_key(
                    #[trigger] self.virtual_nodes@[j].node_id@,
                ) by {
                    let v = self.virtual_nodes@[j];
                    vns.lemma_filter_pred(pred, j);
                    assert(self.virtual_nodes@.contains(v));
                    vns.lemma_filter_contains_rev(pred, v);
                    let k = choose|k: int| 0 <= k < vns.len() && vns[k] == v;
                    assert(old(self).node_map@.contains_key(vns[k].node_id@));
                }
            }
            if sorted_by_position(vns) {
                lemma_filter_sorted(vns, pred);
            }
        }
    }
}

/// The virtual nodes not owned by `node_id`, in order.
fn without_owner(vns: &Vec<VirtualNode>, node_id: &str) -> (kept: Vec<VirtualNode>)
    ensures
        kept@ == vns@.filter(not_owned_by(node_id@)),
{
    let mut kept: Vec<VirtualNode> = Vec::new();
    let mut i: usize = 0;
    let ghost pred = not_owned_by(node_id@);
    while i < vns.len()
        invariant
            pred == not_owned_by(node_id@),
            i <= vns@.len(),
            kept@ == vns@.take(i as int).filter(pred),
        decreases vns@.len() - i,
    {
        proof {
            assert(vns@.take(i as int + 1) == vns@.take(i as int).push(vns@[i as int]));
            vns@.take(i as int).lemma_filter_push(vns@[i as int], pred);
        }
        if !str_eq(vns[i].node_id.as_str(), node_id) {
            kept.push(vns[i].clone());
            assert(pred(vns@[i as int]));
        } else {
            assert(!pred(vns@[i as int]));
        }
        i = i + 1;
    }
    assert(vns@.take(vns@.len() as int) == vns@);
    kept
}

/// Sorts virtual nodes by position, keeping equal positions in order.
fn sort_by_position(v: &mut Vec<VirtualNode>)
    ensures
        stable_sort_of(final(v)@, old(v)@),
        forall|pred: spec_fn(VirtualNode) -> bool|
            #[trigger] final(v)@.filter(pred).len() == old(v)@.filter(pred).len(),
{
    let mut out: Vec<VirtualNode> = Vec::new();
    let mut k: usize = 0;
    let ghost input = v@;
    while k < v.len()
        invariant
            v@ == input,
            k <= input.len(),
            stable_sort_of(out@, input.take(k as int)),
            forall|pred: spec_fn(VirtualNode) -> bool|
                #[trigger] out@.filter(pred).len() == input.take(k as int).filter(pred).len(),
        decreases input.len() - k,
    {
        let x = v[k].clone();
        let mut j: usize = out.len();
        while j > 0 && out[j - 1].position > x.position
            invariant
                j <= out@.len(),
                forall|m: int| j <= m < out@.len() ==> out@[m].position > x.position,
            decreases j,
        {
            j = j - 1;
        }
        let ghost o = out@;
        proof {
            lemma_insert_sorted(o, j as int, x, input.take(k as int));
            assert(input.take(k as int + 1) == input.take(k as int).push(x));
            assert forall|pred: spec_fn(VirtualNode) -> bool|
                #[trigger] o.insert(j as int, x).filter(pred).len() == input.take(k as int + 1).filter(pred).len() by {
                lemma_insert_count(o, j as int, x, pred);
                input.take(k as int).lemma_filter_push(x, pred);
            }
        }
        out.insert(j, x);
        k = k + 1;
    }
    assert(input.take(input.len() as int) == input);
    *v = out;
}

/// Filtering twice is filtering once by both conditions.
pub(crate) proof fn lemma_filter_filter(
    s: Seq<VirtualNode>,
    p: spec_fn(VirtualNode) -> bool,
    q: spec_fn(VirtualNode) -> bool,
    r: spec_fn(VirtualNode) -> bool,
)
    requires
        forall|v: VirtualNode| #[trigger] r(v) == (p(v) && q(v)),
    ensures
        s.filter(p).filter(q) == s.filter(r),
    decreases s.len(),
{
    reveal(Seq::filter);
    if s.len() > 0 {
        lemma_filter_filter(s.drop_last(), p, q, r);
        s.drop_last().lemma_filter_push(s.last(), p);
        s.drop_last().filter(p).lemma_filter_push(s.last(), q);
        assert(s.drop_last().push(s.last()) == s);
    }
}

/// Filtering by a condition that every element meets changes nothing.
pub(crate) proof fn lemma_filter_all(s: Seq<VirtualNode>, p: spec_fn(VirtualNode) -> bool)
    requires
        forall|i: int| 0 <= i < s.len() ==> #[trigger] p(s[i]),
    ensures
        s.filter(p) == s,
    decreases s.len(),
{
    reveal(Seq::filter);
    if s.len() > 0 {
        assert forall|i: int| 0 <= i < s.drop_last().len() implies #[trigger] p(s.drop_last()[i]) by {
            assert(s.drop_last()[i] == s[i]);
        }
        lemma_filter_all(s.drop_last(), p);
        assert(p(s[s.len() - 1]));
        assert(s.drop_last().push(s.last()) == s);
    }
}

/// Every element of a stable sort comes from the original sequence.
proof fn lemma_sorted_member(sorted: Seq<VirtualNode>, original: Seq<VirtualNode>, i: int)
    requires
        stable_sort_of(sorted, original),
        0 <= i < sorted.len(),
    ensures
        original.contains(sorted[i]),
{
    let v = sorted[i];
    let pred = at_position(v.position);
    sorted.lemma_filter_contains(pred, i);
    assert(sorted.filter(pred) == original.filter(pred));
    original.lemma_filter_contains_rev(pred, v);
}

proof fn lemma_filter_none(s: Seq<VirtualNode>, pred: spec_fn(VirtualNode) -> bool)
    requires
        forall|i: int| 0 <= i < s.len() ==> !pred(s[i]),
    ensures
        s.filter(pred) == Seq::<VirtualNode>::empty(),
    decreases s.len(),
{
    reveal(Seq::filter);
    if s.len() > 0 {
        lemma_filter_none(s.drop_last(), pred);
    }
}

/// Inserting `x` after the last element not above it keeps a stable sort.
proof fn lemma_insert_sorted(o: Seq<VirtualNode>, j: int, x: VirtualNode, orig: Seq<VirtualNode>)
    requires
        stable_sort_of(o, orig),
        0 <= j <= o.len(),
        j > 0 ==> o[j - 1].position <= x.position,
        forall|m: int| j <= m < o.len() ==> o[m].position > x.position,
    ensures
        stable_sort_of(o.insert(j, x), orig.push(x)),
{
    let n = o.insert(j, x);
    assert(n == o.take(j) + seq![x] + o.skip(j));
    assert(o == o.take(j) + o.skip(j));
    assert forall|a: int, b: int| 0 <= a <= b < n.len() implies n[a].position <= n[b].position by {
        if a < j && b < j {
        } else if a < j {
            assert(o[a].position <= o[j - 1].position);
        } else if a == j {
        } else {
        }
    }
    assert forall|p: u64| #[trigger] n.filter(at_position(p)) == orig.push(x).filter(at_position(p)) by {
        let pred = at_position(p);
        Seq::filter_distributes_over_add(o.take(j) + seq![x], o.skip(j), pred);
        Seq::filter_distributes_over_add(o.take(j), seq![x], pred);
        Seq::filter_distributes_over_add(o.take(j), o.skip(j), pred);
        orig.lemma_filter_push(x, pred);
        reveal(Seq::filter);
        assert(seq![x].drop_last() == Seq::<VirtualNode>::empty());
        if p == x.position {
            lemma_filter_none(o.skip(j), pred);
            assert(seq![x].filter(pred) == seq![x]);
            assert(o.take(j).filter(pred) + seq![x] == o.take(j).filter(pred).push(x));
        } else {
            assert(seq![x].filter(pred) == Seq::<VirtualNode>::empty());
        }
        assert(o.filter(pred) == orig.filter(pred));
    }
}

/// Inserting an element adds one to the count of elements meeting a
/// condition exactly when it meets it.
proof fn lemma_insert_count(o: Seq<VirtualNode>, j: int, x: VirtualNode, pred: spec_fn(VirtualNode) -> bool)
    requires
        0 <= j <= o.len(),
    ensures
        o.insert(j, x).filter(pred).len() == o.filter(pred).len() + (if pred(x) { 1int } else { 0int }),
{
    let n = o.insert(j, x);
    assert(n == o.take(j) + seq![x] + o.skip(j));
    assert(o == o.take(j) + o.skip(j));
    Seq::filter_distributes_over_add(o.take(j) + seq![x], o.skip(j), pred);
    Seq::filter_distributes_over_add(o.take(j), seq![x], pred);
    Seq::filter_distributes_over_add(o.take(j), o.skip(j), pred);
    reveal(Seq::filter);
    assert(seq![x].drop_last() == Seq::<VirtualNode>::empty());
}

proof fn lemma_wrap_index(start: int, step: int, len: int, index: int)
    requires
        0 <= start < len,
        1 <= step <= len,
        step < len - start ==> index == start + step,
        step >= len - start ==> index == step - (len - start),
    ensures
        index == (start + step) % len,
        0 <= index < len,
{
    if step < len - start {
        vstd::arithmetic::div_mod::lemma_small_mod((start + step) as nat, len as nat);
    } else {
        vstd::arithmetic::div_mod::lemma_small_mod((start + step - len) as nat, len as nat);
        vstd::arithmetic::div_mod::lemma_mod_sub_multiples_vanish(start + step, len);
    }
}

/// What every prefix of the replica walk satisfies: at most two replicas,
/// distinct ids, none with the primary's id, each one the node map's entry.
proof fn lemma_walk_properties(
    vns: Seq<VirtualNode>,
    nodes: Map<Seq<char>, NodeInfo>,
    start: int,
    primary_id: Seq<char>,
    n: nat,
)
    requires
        forall|k: Seq<char>| #[trigger] nodes.contains_key(k) ==> nodes[k].node_id@ == k,
    ensures
        ({
            let r = replica_walk(vns, nodes, start, primary_id, n);
            &&& r.len() <= 2
            &&& forall|a: int, b: int| 0 <= a < b < r.len() ==> r[a].node_id@ != r[b].node_id@
            &&& forall|a: int| 0 <= a < r.len() ==> r[a].node_id@ != primary_id
            &&& forall|a: int| 0 <= a < r.len() ==> nodes.contains_key(#[trigger] r[a].node_id@)
                && nodes[r[a].node_id@] == r[a]
        }),
    decreases n,
{
    if n > 0 {
        lemma_walk_properties(vns, nodes, start, primary_id, (n - 1) as nat);
        let prev = replica_walk(vns, nodes, start, primary_id, (n - 1) as nat);
        let r = replica_walk(vns, nodes, start, primary_id, n);
        let vn = vns[(start + n) % (vns.len() as int)];
        if r != prev {
            assert(r == prev.push(nodes[vn.node_id@]));
            assert forall|a: int, b: int| 0 <= a < b < r.len() implies r[a].node_id@ != r[b].node_id@ by {
                if b == prev.len() {
                    assert(r[a] == prev[a]);
                }
            }
        }
    }
}

/// Once two replicas are found, the walk adds no more.
proof fn lemma_walk_saturated(
    vns: Seq<VirtualNode>,
    nodes: Map<Seq<char>, NodeInfo>,
    start: int,
    primary_id: Seq<char>,
    m: nat,
    n: nat,
)
    requires
        m <= n,
        replica_walk(vns, nodes, start, primary_id, m).len() >= 2,
    ensures
        replica_walk(vns, nodes, start, primary_id, n) == replica_walk(vns, nodes, start, primary_id, m),
    decreases n - m,
{
    if m < n {
        lemma_walk_saturated(vns, nodes, start, primary_id, m, (n - 1) as nat);
    }
}

proof fn lemma_first_bound(vns: Seq<VirtualNode>, h: u64)
    ensures
        0 <= first_at_or_after(vns, h) <= vns.len(),
    decreases vns.len(),
{
    if vns.len() > 0 {
        lemma_first_bound(vns.drop_first(), h);
    }
}

/// `i` is the first index at or after `h` when everything before it is below
/// `h` and it is at or after `h` (or is the end).
proof fn lemma_first_at_or_after(vns: Seq<VirtualNode>, h: u64, i: int)
    requires
        0 <= i <= vns.len(),
        forall|j: int| 0 <= j < i ==> vns[j].position < h,
        i < vns.len() ==> vns[i].position >= h,
    ensures
        first_at_or_after(vns, h) == i,
    decreases i,
{
    if i > 0 {
        lemma_first_at_or_after(vns.drop_first(), h, i - 1);
    }
}

/// Removing a node's virtual nodes keeps, for every hash, the owning virtual
/// node when that one belongs to another node.
proof fn lemma_first_kept(vns: Seq<VirtualNode>, h: u64, id: Seq<char>)
    ensures
        ({
            let w = vns.filter(not_owned_by(id));
            let i = first_at_or_after(vns, h);
            let j = first_at_or_after(w, h);
            &&& 0 <= i < vns.len() && vns[i].node_id@ != id ==> 0 <= j < w.len() && w[j] == vns[i]
            &&& i == vns.len() ==> j == w.len()
        }),
    decreases vns.len(),
{
    let pred = not_owned_by(id);
    let w = vns.filter(pred);
    lemma_first_bound(vns, h);
    lemma_first_bound(w, h);
    if vns.len() > 0 {
        let rest = vns.drop_first();
        let wr = rest.filter(pred);
        lemma_first_kept(rest, h, id);
        lemma_first_bound(rest, h);
        lemma_first_bound(wr, h);
        assert(vns == seq![vns[0]] + rest);
        rest.lemma_filter_prepend(vns[0], pred);
        let i = first_at_or_after(vns, h);
        if pred(vns[0]) {
            assert(w == seq![vns[0]] + wr);
            assert(w.drop_first() == wr);
            assert(w[0] == vns[0]);
            if vns[0].position >= h {
                assert(i == 0);
            } else {
                assert(i == 1 + first_at_or_after(rest, h));
                assert(first_at_or_after(w, h) == 1 + first_at_or_after(wr, h));
                if 0 <= i < vns.len() {
                    assert(vns[i] == rest[i - 1]);
                }
            }
        } else {
            assert(w == wr);
            if vns[0].position >= h {
                assert(i == 0);
            } else {
                assert(i == 1 + first_at_or_after(rest, h));
                if 0 <= i < vns.len() {
                    assert(vns[i] == rest[i - 1]);
                }
            }
        }
    } else {
        reveal(Seq::filter);
        assert(w.len() == 0);
    }
}

proof fn lemma_node_map_of_prefix(ring: HashRing, n: int)
    requires
        ring.wf(),
        0 <= n <= ring.node_map.key_seq().len(),
    ensures
        node_map_of(ring.node_map.value_seq().take(n)) =~= Map::new(
            |k: Seq<char>| ring.node_map.key_seq().take(n).contains(k),
            |k: Seq<char>| ring.node_map@[k],
        ),
    decreases n,
{
    ring.node_map.lemma_wf();
    let ks = ring.node_map.key_seq();
    let vs = ring.node_map.value_seq();
    if n > 0 {
        lemma_node_map_of_prefix(ring, n - 1);
        assert(vs.take(n).drop_last() == vs.take(n - 1));
        assert(vs.take(n).last() == vs[n - 1]);
        assert(ks.take(n) == ks.take(n - 1).push(ks[n - 1]));
        assert(ring.node_map@.contains_key(ks[n - 1]));
        assert(vs[n - 1].node_id@ == ks[n - 1]);
        assert forall|k: Seq<char>| ks.take(n).contains(k) == (ks.take(n - 1).contains(k) || k
            == ks[n - 1]) by {
            if ks.take(n).contains(k) {
                let i = choose|i: int| 0 <= i < n && #[trigger] ks.take(n)[i] == k;
                if i < n - 1 {
                    assert(ks.take(n - 1)[i] == k);
                }
            }
            if ks.take(n - 1).contains(k) {
                let i = choose|i: int| 0 <= i < n - 1 && #[trigger] ks.take(n - 1)[i] == k;
                assert(ks.take(n)[i] == k);
            }
            if k == ks[n - 1] {
                assert(ks.take(n)[n - 1] == k);
            }
        }
    }
}

/// A snapshot taken with `to_ring_state` and rebuilt with `from_ring_state`
/// holds the same nodes and virtual nodes, so every key has the same
/// primary and the same replicas in the rebuilt ring.
pub proof fn lemma_ring_state_round_trip(ring: HashRing)
    requires
        ring.wf(),
    ensures
        node_map_of(ring.node_map.value_seq()) == ring.node_map@,
        virtual_nodes_of(ring_pairs(ring.virtual_nodes@)) == ring.virtual_nodes@,
        forall|key: Seq<char>|
            primary_of(
                virtual_nodes_of(ring_pairs(ring.virtual_nodes@)),
                node_map_of(ring.node_map.value_seq()),
                ring_hash(key),
            ) == #[trigger] ring.primary(key),
        forall|key: Seq<char>|
            replicas_of(
                virtual_nodes_of(ring_pairs(ring.virtual_nodes@)),
                node_map_of(ring.node_map.value_seq()),
                ring_hash(key),
            ) == #[trigger] ring.replicas(key),
{
    ring.node_map.lemma_wf();
    let ks = ring.node_map.key_seq();
    lemma_node_map_of_prefix(ring, ks.len() as int);
    assert(ks.take(ks.len() as int) == ks);
    assert(ring.node_map.value_seq().take(ks.len() as int) == ring.node_map.value_seq());
    assert forall|k: Seq<char>| ks.contains(k) == ring.node_map@.contains_key(k) by {
        if ks.contains(k) {
            let i = choose|i: int| 0 <= i < ks.len() && #[trigger] ks[i] == k;
        }
    }
    assert(node_map_of(ring.node_map.value_seq()) =~= ring.node_map@);
    assert(virtual_nodes_of(ring_pairs(ring.virtual_nodes@)) =~= ring.virtual_nodes@);
}

/// While fewer than two replicas are found, every registered owner other
/// than the primary among the visited virtual nodes is among them.
proof fn lemma_walk_covers(
    vns: Seq<VirtualNode>,
    nodes: Map<Seq<char>, NodeInfo>,
    start: int,
    primary_id: Seq<char>,
    n: nat,
)
    requires
        forall|k: Seq<char>| #[trigger] nodes.contains_key(k) ==> nodes[k].node_id@ == k,
        replica_walk(vns, nodes, start, primary_id, n).len() < 2,
    ensures
        forall|m: int|
            1 <= m <= n ==> ({
                let o = #[trigger] vns[(start + m) % (vns.len() as int)].node_id@;
                o != primary_id && nodes.contains_key(o) ==> exists|a: int|
                    0 <= a < replica_walk(vns, nodes, start, primary_id, n).len()
                        && replica_walk(vns, nodes, start, primary_id, n)[a].node_id@ == o
            }),
    decreases n,
{
    if n > 0 {
        let prev = replica_walk(vns, nodes, start, primary_id, (n - 1) as nat);
        let r = replica_walk(vns, nodes, start, primary_id, n);
        assert(prev.len() <= r.len());
        lemma_walk_covers(vns, nodes, start, primary_id, (n - 1) as nat);
        assert forall|m: int| 1 <= m <= n implies ({
            let o = #[trigger] vns[(start + m) % (vns.len() as int)].node_id@;
            o != primary_id && nodes.contains_key(o) ==> exists|a: int|
                0 <= a < r.len() && r[a].node_id@ == o
        }) by {
            let o = vns[(start + m) % (vns.len() as int)].node_id@;
            if o != primary_id && nodes.contains_key(o) {
                if m < n {
                    let a = choose|a: int| 0 <= a < prev.len() && prev[a].node_id@ == o;
                    assert(r[a] == prev[a]);
                } else {
                    if exists|k: int| 0 <= k < prev.len() && #[trigger] prev[k].node_id@ == nodes[o].node_id@ {
                        let a = choose|k: int| 0 <= k < prev.len() && #[trigger] prev[k].node_id@ == nodes[o].node_id@;
                        assert(r[a] == prev[a]);
                    } else {
                        assert(r == prev.push(nodes[o]));
                        assert(r[prev.len() as int].node_id@ == o);
                    }
                }
            }
        }
    }
}

/// Every key gets two replicas when the ring holds virtual nodes of at least
/// three distinct registered nodes.
pub proof fn lemma_two_replicas_with_three_nodes(ring: HashRing, key: Seq<char>)
    requires
        ring.wf(),
        forall|i: int|
            0 <= i < ring.virtual_nodes@.len() ==> ring.node_map@.contains_key(
                #[trigger] ring.virtual_nodes@[i].node_id@,
            ),
        exists|a: int, b: int, c: int|
            0 <= a < ring.virtual_nodes@.len() && 0 <= b < ring.virtual_nodes@.len() && 0 <= c
                < ring.virtual_nodes@.len() && #[trigger] ring.virtual_nodes@[a].node_id@
                != #[trigger] ring.virtual_nodes@[b].node_id@ && ring.virtual_nodes@[a].node_id@
                != #[trigger] ring.virtual_nodes@[c].node_id@ && ring.virtual_nodes@[b].node_id@
                != ring.virtual_nodes@[c].node_id@,
    ensures
        ring.primary(key) is Some,
        ring.replicas(key).len() == 2,
{
    let vns = ring.virtual_nodes@;
    let nodes = ring.node_map@;
    let h = ring_hash(key);
    let len = vns.len() as int;
    let (a, b, c) = choose|a: int, b: int, c: int|
        0 <= a < vns.len() && 0 <= b < vns.len() && 0 <= c < vns.len()
            && #[trigger] vns[a].node_id@ != #[trigger] vns[b].node_id@ && vns[a].node_id@
            != #[trigger] vns[c].node_id@ && vns[b].node_id@ != vns[c].node_id@;
    lemma_first_bound(vns, h);
    let start = primary_slot(vns, h);
    assert(0 <= start < len);
    assert(nodes.contains_key(vns[start].node_id@));
    let pid = nodes[vns[start].node_id@].node_id@;
    lemma_walk_properties(vns, nodes, start, pid, len as nat);
    let r = replica_walk(vns, nodes, start, pid, len as nat);
    if r.len() < 2 {
        lemma_walk_covers(vns, nodes, start, pid, len as nat);
        // the step that visits index `idx`
        let step_of = |idx: int| if idx > start { idx - start } else { idx - start + len };
        assert forall|idx: int| 0 <= idx < len implies (start + #[trigger] step_of(idx)) % len == idx
            && 1 <= step_of(idx) <= len by {
            if idx > start {
                vstd::arithmetic::div_mod::lemma_small_mod(idx as nat, len as nat);
            } else {
                vstd::arithmetic::div_mod::lemma_mod_sub_multiples_vanish(idx + len, len);
                vstd::arithmetic::div_mod::lemma_small_mod(idx as nat, len as nat);
            }
        }
        // two of the three owners differ from the primary's id
        let (x, y) = if vns[a].node_id@ == pid {
            (b, c)
        } else if vns[b].node_id@ == pid {
            (a, c)
        } else {
            (a, b)
        };
        assert(vns[x].node_id@ != pid && vns[y].node_id@ != pid && vns[x].node_id@ != vns[y].node_id@);
        assert((start + step_of(x)) % len == x);
        assert((start + step_of(y)) % len == y);
        assert(vns[(start + step_of(x)) % len].node_id@ == vns[x].node_id@);
        assert(vns[(start + step_of(y)) % len].node_id@ == vns[y].node_id@);
        let ax = choose|i: int| 0 <= i < r.len() && r[i].node_id@ == vns[x].node_id@;
        let ay = choose|i: int| 0 <= i < r.len() && r[i].node_id@ == vns[y].node_id@;
        assert(ax != ay);
        assert(false);
    }
}

/// The ids that own at least one virtual node.
pub open spec fn owner_ids(vns: Seq<VirtualNode>) -> Set<Seq<char>> {
    vns.map_values(|v: VirtualNode| v.node_id@).to_set()
}

/// Every replica found by the walk owns a virtual node of the ring.
proof fn lemma_walk_from_ring(
    vns: Seq<VirtualNode>,
    nodes: Map<Seq<char>, NodeInfo>,
    start: int,
    primary_id: Seq<char>,
    n: nat,
)
    requires
        vns.len() > 0,
        forall|k: Seq<char>| #[trigger] nodes.contains_key(k) ==> nodes[k].node_id@ == k,
    ensures
        forall|a: int|
            0 <= a < replica_walk(vns, nodes, start, primary_id, n).len() ==> owner_ids(vns).contains(
                #[trigger] replica_walk(vns, nodes, start, primary_id, n)[a].node_id@,
            ),
    decreases n,
{
    if n > 0 {
        lemma_walk_from_ring(vns, nodes, start, primary_id, (n - 1) as nat);
        let prev = replica_walk(vns, nodes, start, primary_id, (n - 1) as nat);
        let r = replica_walk(vns, nodes, start, primary_id, n);
        let idx = (start + n) % (vns.len() as int);
        let vn = vns[idx];
        let ids = vns.map_values(|v: VirtualNode| v.node_id@);
        assert(ids[idx] == vn.node_id@);
        assert(ids.contains(vn.node_id@));
        assert forall|a: int| 0 <= a < r.len() implies owner_ids(vns).contains(#[trigger] r[a].node_id@) by {
            if a < prev.len() {
                assert(r[a] == prev[a]);
            } else {
                assert(r == prev.push(nodes[vn.node_id@]));
            }
        }
    }
}

/// How many replicas a key gets: two when at least three nodes own virtual
/// nodes, otherwise every owner but the primary (one with two nodes, none
/// with one).
pub proof fn lemma_replica_count(ring: HashRing, key: Seq<char>)
    requires
        ring.wf(),
        ring.owners_registered(),
        ring.virtual_nodes@.len() > 0,
    ensures
        ring.primary(key) is Some,
        owner_ids(ring.virtual_nodes@).len() >= 1,
        ring.replicas(key).len() == (if owner_ids(ring.virtual_nodes@).len() - 1 < 2 {
            owner_ids(ring.virtual_nodes@).len() - 1
        } else {
            2
        }),
{
    broadcast use vstd::set::group_set_axioms;
    let vns = ring.virtual_nodes@;
    let nodes = ring.node_map@;
    let h = ring_hash(key);
    let len = vns.len() as int;
    lemma_first_bound(vns, h);
    let start = primary_slot(vns, h);
    assert(nodes.contains_key(vns[start].node_id@));
    let pid = nodes[vns[start].node_id@].node_id@;
    lemma_walk_properties(vns, nodes, start, pid, len as nat);
    lemma_walk_from_ring(vns, nodes, start, pid, len as nat);
    let r = replica_walk(vns, nodes, start, pid, len as nat);
    let all = owner_ids(vns);
    let vids = vns.map_values(|v: VirtualNode| v.node_id@);
    vstd::seq_lib::seq_to_set_is_finite(vids);
    assert(vids[start] == pid);
    assert(all.contains(pid));
    let others = all.remove(pid);
    assert(others.len() == all.len() - 1);
    let ids = r.map_values(|n: NodeInfo| n.node_id@);
    assert(ids.no_duplicates()) by {
        assert forall|a: int, b: int| 0 <= a < ids.len() && 0 <= b < ids.len() && a != b implies ids[a]
            != ids[b] by {
            if a < b {
                assert(r[a].node_id@ != r[b].node_id@);
            } else {
                assert(r[b].node_id@ != r[a].node_id@);
            }
        }
    }
    ids.unique_seq_to_set();
    let found = ids.to_set();
    vstd::seq_lib::seq_to_set_is_finite(ids);
    assert forall|id: Seq<char>| found.contains(id) implies others.contains(id) by {
        assert(ids.contains(id));
        let a = choose|a: int| 0 <= a < ids.len() && ids[a] == id;
        assert(ids[a] == r[a].node_id@);
    }
    vstd::set_lib::lemma_len_subset(found, others);
    if r.len() < 2 {
        lemma_walk_covers(vns, nodes, start, pid, len as nat);
        let step_of = |idx: int| if idx > start { idx - start } else { idx - start + len };
        assert forall|idx: int| 0 <= idx < len implies (start + #[trigger] step_of(idx)) % len == idx
            && 1 <= step_of(idx) <= len by {
            if idx > start {
                vstd::arithmetic::div_mod::lemma_small_mod(idx as nat, len as nat);
            } else {
                vstd::arithmetic::div_mod::lemma_mod_sub_multiples_vanish(idx + len, len);
                vstd::arithmetic::div_mod::lemma_small_mod(idx as nat, len as nat);
            }
        }
        assert forall|id: Seq<char>| others.contains(id) implies found.contains(id) by {
            assert(vids.contains(id));
            let x = choose|x: int| 0 <= x < vids.len() && vids[x] == id;
            assert(vns[x].node_id@ == id);
            assert((start + step_of(x)) % len == x);
            assert(vns[(start + step_of(x)) % len].node_id@ == id);
            let a = choose|a: int| 0 <= a < r.len() && r[a].node_id@ == id;
            assert(ids[a] == id);
        }
        assert(found =~= others);
    }
}

/// Two sorted sequences with the same virtual nodes at every position, in
/// the same order, are equal.
proof fn lemma_sorted_same_groups(s: Seq<VirtualNode>, t: Seq<VirtualNode>)
    requires
        sorted_by_position(s),
        sorted_by_position(t),
        forall|p: u64| #[trigger] s.filter(at_position(p)) == t.filter(at_position(p)),
    ensures
        s == t,
    decreases s.len(),
{
    reveal(Seq::filter);
    if s.len() == 0 {
        if t.len() > 0 {
            let y = t.last();
            assert(t.filter(at_position(y.position)) == t.drop_last().filter(at_position(y.position)).push(y));
            assert(s.filter(at_position(y.position)).len() == 0);
        }
    } else {
        let x = s.last();
        let q = x.position;
        assert(s.filter(at_position(q)) == s.drop_last().filter(at_position(q)).push(x));
        assert(s.filter(at_position(q)).contains(x));
        t.lemma_filter_contains_rev(at_position(q), x);
        assert(t.len() > 0);
        let y = t.last();
        assert(t.filter(at_position(y.position)) == t.drop_last().filter(at_position(y.position)).push(y));
        assert(t.filter(at_position(y.position)).contains(y));
        s.lemma_filter_contains_rev(at_position(y.position), y);
        let i = choose|i: int| 0 <= i < t.len() && t[i] == x;
        let j = choose|j: int| 0 <= j < s.len() && s[j] == y;
        assert(x.position <= y.position);
        assert(y.position <= x.position);
        assert(y.position == q);
        assert(at_position(q)(y));
        assert(t.filter(at_position(q)) == t.drop_last().filter(at_position(q)).push(y));
        assert(s.filter(at_position(q)) == t.filter(at_position(q)));
        assert(s.filter(at_position(q)).last() == x);
        assert(t.filter(at_position(q)).last() == y);
        assert(x == y);
        let s0 = s.drop_last();
        let t0 = t.drop_last();
        assert forall|p: u64| #[trigger] s0.filter(at_position(p)) == t0.filter(at_position(p)) by {
            if p == q {
                assert(s0.filter(at_position(p)) == s.filter(at_position(p)).drop_last());
                assert(t0.filter(at_position(p)) == t.filter(at_position(p)).drop_last());
            } else {
                assert(s0.filter(at_position(p)) == s.filter(at_position(p)));
                assert(t0.filter(at_position(p)) == t.filter(at_position(p)));
            }
        }
        lemma_sorted_same_groups(s0, t0);
        assert(s == s0.push(x));
        assert(t == t0.push(y));
    }
}

/// Adding a new node and removing it again gives back the ring: the same
/// virtual nodes in the same order and the same nodes. `before`, `mid` and
/// `after` are the ring before `add_node(node_info)`, after it, and after
/// `remove_node` of the node's id; the node was not in `before`, and the
/// virtual nodes of `before` are sorted.
pub proof fn lemma_add_then_remove_restores(
    before: HashRing,
    mid: HashRing,
    after: HashRing,
    node_info: NodeInfo,
)
    requires
        sorted_by_position(before.virtual_nodes@),
        !before.node_map@.contains_key(node_info.node_id@),
        forall|i: int|
            0 <= i < before.virtual_nodes@.len() ==> #[trigger] before.virtual_nodes@[i].node_id@
                != node_info.node_id@,
        mid.node_map@ == before.node_map@.insert(node_info.node_id@, node_info),
        stable_sort_of(
            mid.virtual_nodes@,
            before.virtual_nodes@.filter(not_owned_by(node_info.node_id@)) + new_virtual_nodes(
                node_info,
                before.virtual_nodes_per_physical as nat,
            ),
        ),
        after.node_map@ == mid.node_map@.remove(node_info.node_id@),
        after.virtual_nodes@ == mid.virtual_nodes@.filter(not_owned_by(node_info.node_id@)),
    ensures
        after.virtual_nodes@ == before.virtual_nodes@,
        after.node_map@ == before.node_map@,
{
    let id = node_info.node_id@;
    let old = before.virtual_nodes@;
    let extra = new_virtual_nodes(node_info, before.virtual_nodes_per_physical as nat);
    let sorted = mid.virtual_nodes@;
    let keep = not_owned_by(id);
    lemma_filter_all(old, keep);
    lemma_filter_sorted(sorted, keep);
    let back = sorted.filter(keep);
    assert forall|p: u64| #[trigger] back.filter(at_position(p)) == old.filter(at_position(p)) by {
        let at = at_position(p);
        let both = |v: VirtualNode| keep(v) && at(v);
        lemma_filter_filter(sorted, keep, at, both);
        lemma_filter_filter(sorted, at, keep, both);
        Seq::filter_distributes_over_add(old, extra, at);
        Seq::filter_distributes_over_add(old.filter(at), extra.filter(at), keep);
        assert forall|i: int| 0 <= i < old.filter(at).len() implies #[trigger] keep(old.filter(at)[i]) by {
            let v = old.filter(at)[i];
            assert(old.filter(at).contains(v));
            old.lemma_filter_contains_rev(at, v);
        }
        lemma_filter_all(old.filter(at), keep);
        assert forall|i: int| 0 <= i < extra.filter(at).len() implies !keep(#[trigger] extra.filter(at)[i]) by {
            let v = extra.filter(at)[i];
            assert(extra.filter(at).contains(v));
            extra.lemma_filter_contains_rev(at, v);
        }
        lemma_filter_none(extra.filter(at), keep);
    }
    lemma_sorted_same_groups(back, old);
    assert(after.node_map@ =~= before.node_map@);
}

/// Slot `s` holds the virtual node that owns hash `h`: the first one at or
/// after `h`, or the first of all when every position is below `h`.
pub open spec fn owns_hash(vns: Seq<VirtualNode>, h: u64, s: int) -> bool {
    &&& 0 <= s < vns.len()
    &&& forall|k: int| 0 <= k < s ==> #[trigger] vns[k].position < h
    &&& (vns[s].position >= h || (s == 0 && forall|k: int| 0 <= k < vns.len() ==> #[trigger] vns[k].position < h))
}

/// The owner of the virtual node `m` steps clockwise from slot `s`.
pub open spec fn clockwise_owner(vns: Seq<VirtualNode>, s: int, m: int) -> Seq<char> {
    vns[(s + m) % (vns.len() as int)].node_id@
}

/// The order in which the walk finds replicas: the first one is the first
/// registered non-primary owner met, the second the next different one,
/// and while fewer than two are found, every such owner met is among them.
proof fn lemma_walk_order(
    vns: Seq<VirtualNode>,
    nodes: Map<Seq<char>, NodeInfo>,
    start: int,
    pid: Seq<char>,
    n: nat,
)
    requires
        forall|k: Seq<char>| #[trigger] nodes.contains_key(k) ==> nodes[k].node_id@ == k,
    ensures
        ({
            let r = replica_walk(vns, nodes, start, pid, n);
            &&& r.len() >= 1 ==> exists|m1: int|
                1 <= m1 <= n && clockwise_owner(vns, start, m1) == r[0].node_id@ && forall|m: int|
                    1 <= m < m1 ==> #[trigger] clockwise_owner(vns, start, m) == pid
                        || !nodes.contains_key(clockwise_owner(vns, start, m))
            &&& r.len() >= 2 ==> exists|m1: int, m2: int|
                1 <= m1 < m2 <= n && clockwise_owner(vns, start, m1) == r[0].node_id@
                    && clockwise_owner(vns, start, m2) == r[1].node_id@ && forall|m: int|
                    1 <= m < m2 ==> #[trigger] clockwise_owner(vns, start, m) == pid
                        || !nodes.contains_key(clockwise_owner(vns, start, m))
                        || clockwise_owner(vns, start, m) == r[0].node_id@
        }),
    decreases n,
{
    if n > 0 {
        lemma_walk_order(vns, nodes, start, pid, (n - 1) as nat);
        let prev = replica_walk(vns, nodes, start, pid, (n - 1) as nat);
        let r = replica_walk(vns, nodes, start, pid, n);
        lemma_walk_properties(vns, nodes, start, pid, (n - 1) as nat);
        let o = clockwise_owner(vns, start, n as int);
        if r == prev {
            if prev.len() >= 1 {
                let m1 = choose|m1: int|
                    1 <= m1 <= n - 1 && clockwise_owner(vns, start, m1) == prev[0].node_id@ && forall|m: int|
                        1 <= m < m1 ==> #[trigger] clockwise_owner(vns, start, m) == pid
                            || !nodes.contains_key(clockwise_owner(vns, start, m));
                assert(1 <= m1 <= n);
            }
            if prev.len() >= 2 {
                let (m1, m2) = choose|m1: int, m2: int|
                    1 <= m1 < m2 <= n - 1 && clockwise_owner(vns, start, m1) == prev[0].node_id@
                        && clockwise_owner(vns, start, m2) == prev[1].node_id@ && forall|m: int|
                        1 <= m < m2 ==> #[trigger] clockwise_owner(vns, start, m) == pid
                            || !nodes.contains_key(clockwise_owner(vns, start, m))
                            || clockwise_owner(vns, start, m) == prev[0].node_id@;
                assert(1 <= m1 < m2 <= n);
            }
        } else {
            assert(r == prev.push(nodes[o]));
            assert(nodes.contains_key(o) && o != pid);
            assert(nodes[o].node_id@ == o);
            lemma_walk_covers(vns, nodes, start, pid, (n - 1) as nat);
            if prev.len() == 0 {
                assert(r[0].node_id@ == o);
                assert forall|m: int| 1 <= m < n implies #[trigger] clockwise_owner(vns, start, m) == pid
                    || !nodes.contains_key(clockwise_owner(vns, start, m)) by {
                    let om = vns[(start + m) % (vns.len() as int)].node_id@;
                    if om != pid && nodes.contains_key(om) {
                        assert(exists|a: int| 0 <= a < prev.len() && prev[a].node_id@ == om);
                    }
                }
                assert(clockwise_owner(vns, start, n as int) == r[0].node_id@);
            } else {
                assert(prev.len() == 1);
                assert(r[0] == prev[0]);
                assert(r[1].node_id@ == o);
                let m1 = choose|m1: int|
                    1 <= m1 <= n - 1 && clockwise_owner(vns, start, m1) == prev[0].node_id@ && forall|m: int|
                        1 <= m < m1 ==> #[trigger] clockwise_owner(vns, start, m) == pid
                            || !nodes.contains_key(clockwise_owner(vns, start, m));
                assert forall|m: int| 1 <= m < n implies #[trigger] clockwise_owner(vns, start, m) == pid
                    || !nodes.contains_key(clockwise_owner(vns, start, m))
                    || clockwise_owner(vns, start, m) == r[0].node_id@ by {
                    let om = vns[(start + m) % (vns.len() as int)].node_id@;
                    if om != pid && nodes.contains_key(om) {
                        let a = choose|a: int| 0 <= a < prev.len() && prev[a].node_id@ == om;
                        assert(a == 0);
                    }
                }
                assert(clockwise_owner(vns, start, m1) == r[0].node_id@);
                assert(clockwise_owner(vns, start, n as int) == r[1].node_id@);
            }
        }
    }
}

/// Replicas are chosen clockwise from the key's own virtual node: with `s`
/// the slot of the virtual node that owns the key's hash, the primary is
/// that virtual node's registered owner; the first replica is the first
/// registered owner other than the primary met walking clockwise from `s`;
/// the second is the next registered owner other than both; and when fewer
/// than two are found, no other registered owner exists on the ring. Each
/// replica is the node map's entry for its id.
pub proof fn lemma_replicas_clockwise(ring: HashRing, key: Seq<char>, s: int)
    requires
        ring.wf(),
        owns_hash(ring.virtual_nodes@, ring_hash(key), s),
    ensures
        ({
            let vns = ring.virtual_nodes@;
            let nodes = ring.node_map@;
            let pid = vns[s].node_id@;
            let r = ring.replicas(key);
            let len = vns.len() as int;
            &&& ring.primary(key) == (if nodes.contains_key(pid) { Some(nodes[pid]) } else { None })
            &&& !nodes.contains_key(pid) ==> r.len() == 0
            &&& r.len() <= 2
            &&& forall|a: int|
                0 <= a < r.len() ==> #[trigger] r[a].node_id@ != pid && nodes.contains_key(r[a].node_id@)
                    && nodes[r[a].node_id@] == r[a]
            &&& r.len() == 2 ==> r[0].node_id@ != r[1].node_id@
            &&& r.len() >= 1 ==> exists|m1: int|
                1 <= m1 <= len && clockwise_owner(vns, s, m1) == r[0].node_id@ && forall|m: int|
                    1 <= m < m1 ==> #[trigger] clockwise_owner(vns, s, m) == pid
                        || !nodes.contains_key(clockwise_owner(vns, s, m))
            &&& r.len() >= 2 ==> exists|m1: int, m2: int|
                1 <= m1 < m2 <= len && clockwise_owner(vns, s, m1) == r[0].node_id@
                    && clockwise_owner(vns, s, m2) == r[1].node_id@ && forall|m: int|
                    1 <= m < m2 ==> #[trigger] clockwise_owner(vns, s, m) == pid
                        || !nodes.contains_key(clockwise_owner(vns, s, m))
                        || clockwise_owner(vns, s, m) == r[0].node_id@
            &&& r.len() < 2 && nodes.contains_key(pid) ==> forall|m: int|
                1 <= m <= len && #[trigger] clockwise_owner(vns, s, m) != pid && nodes.contains_key(
                    clockwise_owner(vns, s, m),
                ) ==> exists|a: int| 0 <= a < r.len() && r[a].node_id@ == clockwise_owner(vns, s, m)
        }),
{
    let vns = ring.virtual_nodes@;
    let nodes = ring.node_map@;
    let h = ring_hash(key);
    let len = vns.len() as int;
    let pid = vns[s].node_id@;
    lemma_first_properties(vns, h);
    let i = first_at_or_after(vns, h);
    if i < len {
        if s < i {
            assert(vns[s].position < h);
            assert(forall|k: int| 0 <= k < len ==> #[trigger] vns[k].position < h);
            assert(vns[i].position < h);
        }
        if s > i {
            assert(vns[i].position < h);
        }
        assert(s == i);
    } else {
        if vns[s].position >= h {
            assert(s < i);
            assert(vns[s].position < h);
        }
        assert(s == 0);
    }
    assert(primary_slot(vns, h) == s);
    if nodes.contains_key(pid) {
        assert(nodes[pid].node_id@ == pid);
        lemma_walk_properties(vns, nodes, s, pid, len as nat);
        lemma_walk_order(vns, nodes, s, pid, len as nat);
        let r = replica_walk(vns, nodes, s, pid, len as nat);
        if r.len() < 2 {
            lemma_walk_covers(vns, nodes, s, pid, len as nat);
        }
    }
}

/// Removing a node changes the owner of no key that another node owned.
pub proof fn lemma_remove_node_keeps_other_owners(
    vns: Seq<VirtualNode>,
    nodes: Map<Seq<char>, NodeInfo>,
    removed: Seq<char>,
    key: Seq<char>,
)
    requires
        forall|k: Seq<char>| #[trigger] nodes.contains_key(k) ==> nodes[k].node_id@ == k,
    ensures
        primary_of(vns, nodes, ring_hash(key)) matches Some(owner) && owner.node_id@ != removed
            ==> primary_of(vns.filter(not_owned_by(removed)), nodes.remove(removed), ring_hash(key))
            == primary_of(vns, nodes, ring_hash(key)),
{
    let h = ring_hash(key);
    let w = vns.filter(not_owned_by(removed));
    if primary_of(vns, nodes, h) matches Some(owner) && owner.node_id@ != removed {
        let slot = primary_slot(vns, h);
        let id = vns[slot].node_id@;
        assert(nodes.contains_key(id));
        assert(id != removed);
        lemma_first_kept(vns, h, removed);
        let i = first_at_or_after(vns, h);
        assert(vns.len() > 0);
        let j = first_at_or_after(w, h);
        lemma_first_bound(vns, h);
        lemma_first_bound(w, h);
        if i < vns.len() {
            assert(slot == i);
            assert(j < w.len() && w[j] == vns[i]);
            assert(primary_slot(w, h) == j);
        } else {
            assert(slot == 0);
            assert(vns == seq![vns[0]] + vns.drop_first());
            vns.drop_first().lemma_filter_prepend(vns[0], not_owned_by(removed));
            assert(not_owned_by(removed)(vns[0]));
            assert(w == seq![vns[0]] + vns.drop_first().filter(not_owned_by(removed)));
            assert(w.len() > 0 && w[0] == vns[0]);
            assert(j == w.len());
            assert(primary_slot(w, h) == 0);
        }
        assert(nodes.remove(removed).contains_key(id));
    }
}

/// What `first_at_or_after` finds: everything before it is below `h`, and
/// it is at or after `h` unless it is the end.
proof fn lemma_first_properties(vns: Seq<VirtualNode>, h: u64)
    ensures
        0 <= first_at_or_after(vns, h) <= vns.len(),
        forall|k: int| 0 <= k < first_at_or_after(vns, h) ==> vns[k].position < h,
        first_at_or_after(vns, h) < vns.len() ==> vns[first_at_or_after(vns, h)].position >= h,
    decreases vns.len(),
{
    if vns.len() > 0 && vns[0].position < h {
        let rest = vns.drop_first();
        lemma_first_properties(rest, h);
        assert forall|k: int| 0 <= k < first_at_or_after(vns, h) implies vns[k].position < h by {
            if k > 0 {
                assert(vns[k] == rest[k - 1]);
            }
        }
    }
}

/// The first element of a filter is the first element that meets the
/// condition.
proof fn lemma_filter_first(s: Seq<VirtualNode>, pred: spec_fn(VirtualNode) -> bool, j: int)
    requires
        0 <= j < s.len(),
        pred(s[j]),
        forall|k: int| 0 <= k < j ==> !pred(#[trigger] s[k]),
    ensures
        s.filter(pred).len() > 0,
        s.filter(pred)[0] == s[j],
    decreases s.len(),
{
    reveal(Seq::filter);
    let rest = s.drop_last();
    if j == s.len() - 1 {
        lemma_filter_none(rest, pred);
        assert(s.filter(pred) == Seq::<VirtualNode>::empty().push(s.last()));
    } else {
        assert forall|k: int| 0 <= k < j implies !pred(#[trigger] rest[k]) by {
            assert(rest[k] == s[k]);
        }
        lemma_filter_first(rest, pred, j);
    }
}

/// A stable sort holds every element of the original sequence.
proof fn lemma_sort_keeps(sorted: Seq<VirtualNode>, original: Seq<VirtualNode>, m: int)
    requires
        stable_sort_of(sorted, original),
        0 <= m < original.len(),
    ensures
        sorted.contains(original[m]),
{
    let pred = at_position(original[m].position);
    original.lemma_filter_contains(pred, m);
    assert(sorted.filter(pred) == original.filter(pred));
    sorted.lemma_filter_contains_rev(pred, original[m]);
}

/// Sorting extra virtual nodes into a sorted sequence: the virtual node that
/// owns `h` afterwards is the one that owned it before, or one of the extra
/// ones.
proof fn lemma_owner_after_insert(
    old: Seq<VirtualNode>,
    extra: Seq<VirtualNode>,
    sorted: Seq<VirtualNode>,
    h: u64,
)
    requires
        sorted_by_position(old),
        stable_sort_of(sorted, old + extra),
    ensures
        old.len() > 0 ==> sorted.len() > 0,
        sorted.len() > 0 ==> (old.len() > 0 && sorted[primary_slot(sorted, h)] == old[primary_slot(
            old,
            h,
        )]) || extra.contains(sorted[primary_slot(sorted, h)]),
{
    let all = old + extra;
    assert forall|m: int| 0 <= m < old.len() implies sorted.contains(#[trigger] old[m]) by {
        assert(all[m] == old[m]);
        lemma_sort_keeps(sorted, all, m);
    }
    if old.len() > 0 {
        assert(sorted.contains(old[0]));
    }
    if sorted.len() > 0 {
        lemma_first_properties(sorted, h);
        lemma_first_properties(old, h);
        let j = primary_slot(sorted, h);
        let y = sorted[j];
        let q = y.position;
        let pred = at_position(q);
        assert forall|k: int| 0 <= k < j implies !pred(#[trigger] sorted[k]) by {}
        lemma_filter_first(sorted, pred, j);
        Seq::filter_distributes_over_add(old, extra, pred);
        assert(sorted.filter(pred) == old.filter(pred) + extra.filter(pred));
        if old.filter(pred).len() == 0 {
            assert(y == extra.filter(pred)[0]);
            assert(extra.filter(pred).contains(y));
            extra.lemma_filter_contains_rev(pred, y);
        } else {
            let x = old.filter(pred)[0];
            assert(y == x);
            old.lemma_filter_pred(pred, 0);
            assert(old.filter(pred).contains(x));
            old.lemma_filter_contains_rev(pred, x);
            let m = choose|m: int| 0 <= m < old.len() && old[m] == x;
            let i = first_at_or_after(old, h);
            if i < old.len() {
                assert(sorted.contains(old[i]));
                let t = choose|t: int| 0 <= t < sorted.len() && sorted[t] == old[i];
                assert(first_at_or_after(sorted, h) < sorted.len());
                assert(j <= t);
                assert(q <= old[i].position);
                assert(i <= m);
                assert(old[i].position <= q);
                assert forall|k: int| 0 <= k < i implies !pred(#[trigger] old[k]) by {}
                lemma_filter_first(old, pred, i);
            } else {
                assert(q < h);
                assert(j == 0);
                assert(sorted.contains(old[0]));
                let t = choose|t: int| 0 <= t < sorted.len() && sorted[t] == old[0];
                assert(q <= old[0].position);
                assert(old[0].position <= q);
                lemma_filter_first(old, pred, 0);
            }
        }
    }
}

/// Adding a new node moves no key between the other nodes: afterwards every
/// key has the primary it had before, or the added node. `before` and
/// `after` are the ring before and after `add_node(node_info)`; no virtual
/// node of `before` carries the new node's id, and the virtual nodes before
/// are sorted, as they are in every ring built by `new`, `add_node` and
/// `remove_node`.
pub proof fn lemma_add_node_moves_keys_only_to_it(
    before: HashRing,
    after: HashRing,
    node_info: NodeInfo,
    key: Seq<char>,
)
    requires
        sorted_by_position(before.virtual_nodes@),
        forall|i: int|
            0 <= i < before.virtual_nodes@.len() ==> #[trigger] before.virtual_nodes@[i].node_id@
                != node_info.node_id@,
        after.node_map@ == before.node_map@.insert(node_info.node_id@, node_info),
        stable_sort_of(
            after.virtual_nodes@,
            before.virtual_nodes@.filter(not_owned_by(node_info.node_id@)) + new_virtual_nodes(
                node_info,
                before.virtual_nodes_per_physical as nat,
            ),
        ),
    ensures
        after.primary(key) == before.primary(key) || after.primary(key) == Some(node_info),
{
    let h = ring_hash(key);
    let old = before.virtual_nodes@;
    let extra = new_virtual_nodes(node_info, before.virtual_nodes_per_physical as nat);
    let sorted = after.virtual_nodes@;
    lemma_filter_all(old, not_owned_by(node_info.node_id@));
    lemma_owner_after_insert(old, extra, sorted, h);
    if sorted.len() > 0 {
        let y = sorted[primary_slot(sorted, h)];
        if extra.contains(y) {
            let e = choose|e: int| 0 <= e < extra.len() && extra[e] == y;
            assert(y.node_id@ == node_info.node_id@);
            assert(after.node_map@.contains_key(node_info.node_id@));
        } else {
            assert(old.len() > 0);
            if y.node_id@ == node_info.node_id@ {
                assert(after.primary(key) == Some(node_info));
            } else {
                assert(after.node_map@.contains_key(y.node_id@) == before.node_map@.contains_key(y.node_id@));
            }
        }
    }
}

/// Filtering a sorted sequence keeps it sorted.
proof fn lemma_filter_sorted(s: Seq<VirtualNode>, pred: spec_fn(VirtualNode) -> bool)
    requires
        sorted_by_position(s),
    ensures
        sorted_by_position(s.filter(pred)),
    decreases s.len(),
{
    reveal(Seq::filter);
    if s.len() > 0 {
        let rest = s.drop_last();
        lemma_filter_sorted(rest, pred);
        let sub = rest.filter(pred);
        if pred(s.last()) {
            assert forall|a: int| 0 <= a < sub.len() implies #[trigger] sub[a].position <= s.last().position by {
                assert(sub.contains(sub[a]));
                rest.lemma_filter_contains_rev(pred, sub[a]);
                let m = choose|m: int| 0 <= m < rest.len() && rest[m] == sub[a];
                assert(s[m] == rest[m]);
            }
            let out = sub.push(s.last());
            assert forall|a: int, b: int| 0 <= a <= b < out.len() implies out[a].position <= out[b].position by {
                if b == out.len() - 1 && a < b {
                    assert(out[a] == sub[a]);
                }
            }
        }
    }
}

} // verus!
