//! Planning re-replication after a node failure: which keys lost a copy,
//! which surviving node can send each of them, and which nodes of the new
//! ring still lack them.

use vstd::prelude::*;
use crate::address::{http_address, http_address_text};
use crate::controller::views;
use crate::models::NodeInfo;
use crate::ring::{HashRing, deref_all};
use crate::strmap::str_eq;

verus! {

/// A surviving worker's key dump: its id, its address, and its pairs.
pub type KeyDump = (String, String, Vec<(String, String)>);

/// A dump holds a key.
pub open spec fn dump_has_key(d: KeyDump, k: Seq<char>) -> bool {
    exists|i: int| 0 <= i < d.2@.len() && #[trigger] d.2@[i].0@ == k
}

/// The failed node was the key's primary or one of its replicas in the ring
/// before the failure.
pub open spec fn was_owner(old_ring: HashRing, failed: Seq<char>, k: Seq<char>) -> bool {
    (old_ring.primary(k) matches Some(p) && p.node_id@ == failed) || exists|i: int|
        0 <= i < old_ring.replicas(k).len() && #[trigger] old_ring.replicas(k)[i].node_id@ == failed
}

/// The dumps that hold a key, in dump order.
pub open spec fn holders(dumps: Seq<KeyDump>, k: Seq<char>) -> Seq<KeyDump> {
    dumps.filter(|d: KeyDump| dump_has_key(d, k))
}

/// The ids of the key's owners in the new ring: its primary, then its
/// replicas.
pub open spec fn new_owner_ids(new_ring: HashRing, k: Seq<char>) -> Seq<Seq<char>> {
    (match new_ring.primary(k) {
        Some(p) => seq![p.node_id@],
        None => Seq::empty(),
    }) + new_ring.replicas(k).map_values(|n: NodeInfo| n.node_id@)
}

/// The new owners that hold no copy of the key.
pub open spec fn missing_owner_ids(
    new_ring: HashRing,
    dumps: Seq<KeyDump>,
    k: Seq<char>,
) -> Seq<Seq<char>> {
    new_owner_ids(new_ring, k).filter(
        |id: Seq<char>| !holders(dumps, k).map_values(|d: KeyDump| d.0@).contains(id),
    )
}

/// The address `http://host:port` of the first surviving node with this id.
pub open spec fn survivor_address(survivors: Seq<(String, String, u16)>, id: Seq<char>) -> Option<
    Seq<char>,
>
    decreases survivors.len(),
{
    if survivors.len() == 0 {
        None
    } else if survivors[0].0@ == id {
        Some(http_address_text(survivors[0].1@, survivors[0].2))
    } else {
        survivor_address(survivors.drop_first(), id)
    }
}

/// What to do for one affected key.
pub struct KeyPlan {
    pub key: String,
    /// The first surviving holder (id and address), which sends the copies;
    /// `None` when no surviving node holds the key.
    pub source: Option<(String, String)>,
    /// The new owners lacking the key, each with its address (`None` when
    /// it is not among the surviving nodes).
    pub targets: Vec<(String, Option<String>)>,
}

/// The keys of a list of plans.
pub open spec fn plan_keys(plans: Seq<KeyPlan>) -> Seq<Seq<char>> {
    plans.map_values(|p: KeyPlan| p.key@)
}

/// The plan for key `k` is as described.
pub open spec fn key_plan_spec(
    plan: KeyPlan,
    k: Seq<char>,
    new_ring: HashRing,
    survivors: Seq<(String, String, u16)>,
    dumps: Seq<KeyDump>,
) -> bool {
    &&& plan.key@ == k
    &&& holders(dumps, k).len() == 0 ==> plan.source is None && plan.targets@.len() == 0
    &&& holders(dumps, k).len() > 0 ==> {
        &&& plan.source matches Some(src) && src.0@ == holders(dumps, k)[0].0@ && src.1@ == holders(
            dumps,
            k,
        )[0].1@
        &&& plan.targets@.len() == missing_owner_ids(new_ring, dumps, k).len()
        &&& forall|t: int|
            0 <= t < plan.targets@.len() ==> #[trigger] plan.targets@[t].0@ == missing_owner_ids(
                new_ring,
                dumps,
                k,
            )[t] && match plan.targets@[t].1 {
                Some(a) => survivor_address(survivors, plan.targets@[t].0@) == Some(a@),
                None => survivor_address(survivors, plan.targets@[t].0@) is None,
            }
    }
}

fn dump_contains(d: &KeyDump, key: &str) -> (found: bool)
    ensures
        found == dump_has_key(*d, key@),
{
    let mut i: usize = 0;
    while i < d.2.len()
        invariant
            i <= d.2@.len(),
            forall|j: int| 0 <= j < i ==> d.2@[j].0@ != key@,
        decreases d.2@.len() - i,
    {
        if str_eq(d.2[i].0.as_str(), key) {
            assert(d.2@[i as int].0@ == key@);
            return true;
        }
        i = i + 1;
    }
    false
}

fn contains_text(list: &Vec<String>, text: &str) -> (found: bool)
    ensures
        found == views(list@).contains(text@),
{
    let mut i: usize = 0;
    while i < list.len()
        invariant
            i <= list@.len(),
            forall|j: int| 0 <= j < i ==> list@[j]@ != text@,
        decreases list@.len() - i,
    {
        if str_eq(list[i].as_str(), text) {
            assert(views(list@)[i as int] == text@);
            return true;
        }
        i = i + 1;
    }
    proof {
        if views(list@).contains(text@) {
            let j = choose|j: int| 0 <= j < views(list@).len() && views(list@)[j] == text@;
            assert(list@[j]@ == text@);
        }
    }
    false
}

/// Whether the failed node owned the key in the old ring.
fn owned_by_failed(old_ring: &HashRing, failed: &str, key: &str) -> (owned: bool)
    requires
        old_ring.wf(),
    ensures
        owned == was_owner(*old_ring, failed@, key@),
{
    let was_primary = match old_ring.find_primary(key) {
        Some(p) => str_eq(p.node_id.as_str(), failed),
        None => false,
    };
    let replicas = old_ring.find_replicas(key);
    let ghost rs = old_ring.replicas(key@);
    let mut was_replica = false;
    let mut i: usize = 0;
    while i < replicas.len()
        invariant
            rs == old_ring.replicas(key@),
            deref_all(replicas@) == rs,
            i <= replicas@.len(),
            was_replica == exists|j: int| 0 <= j < i && #[trigger] rs[j].node_id@ == failed@,
        decreases replicas@.len() - i,
    {
        assert(*replicas@[i as int] == rs[i as int]);
        if str_eq(replicas[i].node_id.as_str(), failed) {
            was_replica = true;
        }
        i = i + 1;
    }
    was_primary || was_replica
}

/// The keys held by the surviving nodes that the failed node owned in the
/// old ring, each once.
pub fn affected_keys(old_ring: &HashRing, failed: &str, dumps: &Vec<KeyDump>) -> (keys: Vec<String>)
    requires
        old_ring.wf(),
    ensures
        views(keys@).no_duplicates(),
        forall|k: Seq<char>|
            #[trigger] views(keys@).contains(k) == ((exists|d: int|
                0 <= d < dumps@.len() && dump_has_key(#[trigger] dumps@[d], k)) && was_owner(
                *old_ring,
                failed@,
                k,
            )),
{
    let mut keys: Vec<String> = Vec::new();
    let mut d: usize = 0;
    while d < dumps.len()
        invariant
            old_ring.wf(),
            d <= dumps@.len(),
            views(keys@).no_duplicates(),
            forall|k: Seq<char>|
                #[trigger] views(keys@).contains(k) == ((exists|e: int|
                    0 <= e < d && dump_has_key(#[trigger] dumps@[e], k)) && was_owner(*old_ring, failed@, k)),
        decreases dumps@.len() - d,
    {
        let dump = &dumps[d];
        let mut j: usize = 0;
        while j < dump.2.len()
            invariant
                old_ring.wf(),
                d < dumps@.len(),
                *dump == dumps@[d as int],
                j <= dump.2@.len(),
                views(keys@).no_duplicates(),
                forall|k: Seq<char>|
                    #[trigger] views(keys@).contains(k) == (((exists|e: int|
                        0 <= e < d && dump_has_key(#[trigger] dumps@[e], k)) || (exists|m: int|
                        0 <= m < j && #[trigger] dump.2@[m].0@ == k)) && was_owner(*old_ring, failed@, k)),
            decreases dump.2@.len() - j,
        {
            let key = &dump.2[j].0;
            let ghost before = views(keys@);
            let owned = owned_by_failed(old_ring, failed, key.as_str());
            let present = contains_text(&keys, key.as_str());
            if owned && !present {
                keys.push(key.clone());
                proof {
                    assert(views(keys@) =~= before.push(key@));
                    assert forall|a: int, b: int| 0 <= a < b < views(keys@).len() implies views(keys@)[a]
                        != views(keys@)[b] by {
                        if b == before.len() {
                            assert(before.contains(before[a]));
                        }
                    }
                }
            }
            proof {
                let now = views(keys@);
                assert(now == if owned && !present { before.push(key@) } else { before });
                assert(dump.2@[j as int].0@ == key@);
                assert forall|k: Seq<char>| #[trigger] views(keys@).contains(k) == (((exists|e: int|
                    0 <= e < d && dump_has_key(#[trigger] dumps@[e], k)) || (exists|m: int|
                    0 <= m < j + 1 && #[trigger] dump.2@[m].0@ == k)) && was_owner(*old_ring, failed@, k)) by {
                    if k == key@ {
                        if owned && !present {
                            assert(now[before.len() as int] == k);
                        }
                        assert(dump.2@[j as int].0@ == k);
                        if views(keys@).contains(k) && !before.contains(k) {
                            assert(views(keys@) == before.push(key@));
                        }
                        if !views(keys@).contains(k) {
                            assert(before.len() <= views(keys@).len());
                        }
                    }
                    if (exists|m: int| 0 <= m < j + 1 && #[trigger] dump.2@[m].0@ == k) && k != key@ {
                        let m = choose|m: int| 0 <= m < j + 1 && #[trigger] dump.2@[m].0@ == k;
                        assert(m < j);
                    }
                    if views(keys@).contains(k) && k != key@ {
                        let a = choose|a: int| 0 <= a < views(keys@).len() && views(keys@)[a] == k;
                        assert(a < before.len());
                        assert(before[a] == k);
                    }
                    if before.contains(k) {
                        let a = choose|a: int| 0 <= a < before.len() && before[a] == k;
                        assert(views(keys@)[a] == k);
                    }
                }
            }
            j = j + 1;
        }
        proof {
            assert forall|k: Seq<char>| #[trigger] views(keys@).contains(k) == ((exists|e: int|
                0 <= e < d + 1 && dump_has_key(#[trigger] dumps@[e], k)) && was_owner(*old_ring, failed@, k)) by {
                if dump_has_key(dumps@[d as int], k) {
                    let m = choose|m: int| 0 <= m < dump.2@.len() && #[trigger] dump.2@[m].0@ == k;
                }
                if exists|m: int| 0 <= m < j && #[trigger] dump.2@[m].0@ == k {
                    let m = choose|m: int| 0 <= m < j && #[trigger] dump.2@[m].0@ == k;
                    assert(dump_has_key(dumps@[d as int], k));
                }
            }
        }
        d = d + 1;
    }
    keys
}

/// The ids and addresses of the dumps that hold `key`, in dump order.
fn holders_of(dumps: &Vec<KeyDump>, key: &str) -> (found: Vec<(String, String)>)
    ensures
        found@.len() == holders(dumps@, key@).len(),
        forall|i: int|
            0 <= i < found@.len() ==> #[trigger] found@[i].0@ == holders(dumps@, key@)[i].0@
                && found@[i].1@ == holders(dumps@, key@)[i].1@,
{
    let ghost pred = |d: KeyDump| dump_has_key(d, key@);
    let mut found: Vec<(String, String)> = Vec::new();
    let mut i: usize = 0;
    while i < dumps.len()
        invariant
            pred == (|d: KeyDump| dump_has_key(d, key@)),
            i <= dumps@.len(),
            found@.len() == dumps@.take(i as int).filter(pred).len(),
            forall|j: int|
                0 <= j < found@.len() ==> #[trigger] found@[j].0@ == dumps@.take(i as int).filter(
                    pred,
                )[j].0@ && found@[j].1@ == dumps@.take(i as int).filter(pred)[j].1@,
        decreases dumps@.len() - i,
    {
        let ghost prev = dumps@.take(i as int).filter(pred);
        proof {
            assert(dumps@.take(i as int + 1) == dumps@.take(i as int).push(dumps@[i as int]));
            dumps@.take(i as int).lemma_filter_push(dumps@[i as int], pred);
        }
        if dump_contains(&dumps[i], key) {
            found.push((dumps[i].0.clone(), dumps[i].1.clone()));
            assert(dumps@.take(i as int + 1).filter(pred) == prev.push(dumps@[i as int]));
        }
        i = i + 1;
    }
    assert(dumps@.take(dumps@.len() as int) == dumps@);
    found
}

/// The ids of the key's owners in the new ring: primary, then replicas.
fn owner_ids(new_ring: &HashRing, key: &str) -> (ids: Vec<String>)
    requires
        new_ring.wf(),
    ensures
        views(ids@) == new_owner_ids(*new_ring, key@),
{
    let mut ids: Vec<String> = Vec::new();
    match new_ring.find_primary(key) {
        Some(p) => { ids.push(p.node_id.clone()); },
        None => {},
    }
    let ghost first = views(ids@);
    let replicas = new_ring.find_replicas(key);
    let ghost rs = new_ring.replicas(key@);
    let mut i: usize = 0;
    while i < replicas.len()
        invariant
            rs == new_ring.replicas(key@),
            deref_all(replicas@) == rs,
            i <= replicas@.len(),
            views(ids@) == first + rs.take(i as int).map_values(|n: NodeInfo| n.node_id@),
        decreases replicas@.len() - i,
    {
        assert(*replicas@[i as int] == rs[i as int]);
        let ghost before = ids@;
        ids.push(replicas[i].node_id.clone());
        assert(views(ids@) =~= views(before).push(rs[i as int].node_id@));
        assert(rs.take(i as int + 1).map_values(|n: NodeInfo| n.node_id@) == rs.take(i as int).map_values(
            |n: NodeInfo| n.node_id@,
        ).push(rs[i as int].node_id@));
        assert(views(ids@) =~= first + rs.take(i as int + 1).map_values(|n: NodeInfo| n.node_id@));
        i = i + 1;
    }
    assert(rs.take(rs.len() as int) == rs);
    proof {
        match new_ring.primary(key@) {
            Some(p) => { assert(first =~= seq![p.node_id@]); },
            None => { assert(first =~= Seq::<Seq<char>>::empty()); },
        }
    }
    ids
}

/// The address of the first surviving node with id `id`.
fn address_of_survivor(survivors: &Vec<(String, String, u16)>, id: &str) -> (addr: Option<String>)
    ensures
        match addr {
            Some(a) => survivor_address(survivors@, id@) == Some(a@),
            None => survivor_address(survivors@, id@) is None,
        },
{
    let mut i: usize = 0;
    assert(survivors@.skip(0) == survivors@);
    while i < survivors.len()
        invariant
            i <= survivors@.len(),
            survivor_address(survivors@, id@) == survivor_address(survivors@.skip(i as int), id@),
        decreases survivors@.len() - i,
    {
        assert(survivors@.skip(i as int)[0] == survivors@[i as int]);
        if str_eq(survivors[i].0.as_str(), id) {
            return Some(http_address(survivors[i].1.as_str(), survivors[i].2));
        }
        assert(survivors@.skip(i as int).drop_first() == survivors@.skip(i as int + 1));
        i = i + 1;
    }
    None
}

/// The plan for one key: its first surviving holder sends it to each new
/// owner that lacks it.
pub fn plan_key(
    key: &String,
    new_ring: &HashRing,
    survivors: &Vec<(String, String, u16)>,
    dumps: &Vec<KeyDump>,
) -> (plan: KeyPlan)
    requires
        new_ring.wf(),
    ensures
        key_plan_spec(plan, key@, *new_ring, survivors@, dumps@),
{
    let found = holders_of(dumps, key.as_str());
    if found.len() == 0 {
        return KeyPlan { key: key.clone(), source: None, targets: Vec::new() };
    }
    let ghost hs = holders(dumps@, key@);
    let ghost holder_ids = hs.map_values(|d: KeyDump| d.0@);
    let mut found_ids: Vec<String> = Vec::new();
    let mut h: usize = 0;
    while h < found.len()
        invariant
            hs == holders(dumps@, key@),
            holder_ids == hs.map_values(|d: KeyDump| d.0@),
            found@.len() == hs.len(),
            forall|i: int| 0 <= i < found@.len() ==> #[trigger] found@[i].0@ == hs[i].0@,
            h <= found@.len(),
            views(found_ids@) == holder_ids.take(h as int),
        decreases found@.len() - h,
    {
        let ghost before = found_ids@;
        found_ids.push(found[h].0.clone());
        assert(views(found_ids@) =~= views(before).push(hs[h as int].0@));
        assert(holder_ids.take(h as int + 1) =~= holder_ids.take(h as int).push(hs[h as int].0@));
        h = h + 1;
    }
    assert(holder_ids.take(h as int) == holder_ids);
    let owners = owner_ids(new_ring, key.as_str());
    let ghost pred = |id: Seq<char>| !holder_ids.contains(id);
    let ghost ow = views(owners@);
    let mut targets: Vec<(String, Option<String>)> = Vec::new();
    let mut o: usize = 0;
    while o < owners.len()
        invariant
            ow == views(owners@),
            ow == new_owner_ids(*new_ring, key@),
            views(found_ids@) == holder_ids,
            holder_ids == holders(dumps@, key@).map_values(|d: KeyDump| d.0@),
            pred == (|id: Seq<char>| !holder_ids.contains(id)),
            o <= owners@.len(),
            targets@.len() == ow.take(o as int).filter(pred).len(),
            forall|t: int|
                0 <= t < targets@.len() ==> #[trigger] targets@[t].0@ == ow.take(o as int).filter(pred)[t]
                    && match targets@[t].1 {
                    Some(a) => survivor_address(survivors@, targets@[t].0@) == Some(a@),
                    None => survivor_address(survivors@, targets@[t].0@) is None,
                },
        decreases owners@.len() - o,
    {
        let ghost prev = ow.take(o as int).filter(pred);
        proof {
            assert(ow.take(o as int + 1) == ow.take(o as int).push(ow[o as int]));
            ow.take(o as int).lemma_filter_push(ow[o as int], pred);
        }
        if !contains_text(&found_ids, owners[o].as_str()) {
            let addr = address_of_survivor(survivors, owners[o].as_str());
            targets.push((owners[o].clone(), addr));
            assert(ow.take(o as int + 1).filter(pred) == prev.push(ow[o as int]));
        }
        o = o + 1;
    }
    assert(ow.take(ow.len() as int) == ow);
    assert(pred =~= (|id: Seq<char>| !holders(dumps@, key@).map_values(|d: KeyDump| d.0@).contains(id)));
    assert(ow.filter(pred) == missing_owner_ids(*new_ring, dumps@, key@));
    let plan = KeyPlan {
        key: key.clone(),
        source: Some((found[0].0.clone(), found[0].1.clone())),
        targets,
    };
    let ghost mo = missing_owner_ids(*new_ring, dumps@, key@);
    assert(plan.key@ == key@);
    assert(hs.len() > 0);
    assert(plan.targets@.len() == mo.len());
    assert(forall|t: int| 0 <= t < plan.targets@.len() ==> #[trigger] plan.targets@[t].0@ == mo[t]);
    plan
}

/// Plans re-replication after `failed` died: one plan per key that a
/// surviving node holds and that the failed node owned (as primary or
/// replica) in the old ring.
pub fn plan_re_replication(
    old_ring: &HashRing,
    new_ring: &HashRing,
    failed: &str,
    survivors: &Vec<(String, String, u16)>,
    dumps: &Vec<KeyDump>,
) -> (plans: Vec<KeyPlan>)
    requires
        old_ring.wf(),
        new_ring.wf(),
    ensures
        plan_keys(plans@).no_duplicates(),
        forall|k: Seq<char>|
            #[trigger] plan_keys(plans@).contains(k) == ((exists|d: int|
                0 <= d < dumps@.len() && dump_has_key(#[trigger] dumps@[d], k)) && was_owner(
                *old_ring,
                failed@,
                k,
            )),
        forall|i: int|
            0 <= i < plans@.len() ==> key_plan_spec(
                #[trigger] plans@[i],
                plans@[i].key@,
                *new_ring,
                survivors@,
                dumps@,
            ),
{
    let keys = affected_keys(old_ring, failed, dumps);
    let mut plans: Vec<KeyPlan> = Vec::new();
    let mut i: usize = 0;
    while i < keys.len()
        invariant
            new_ring.wf(),
            i <= keys@.len(),
            plans@.len() == i,
            forall|j: int| 0 <= j < i ==> #[trigger] plans@[j].key@ == keys@[j]@,
            forall|j: int|
                0 <= j < i ==> key_plan_spec(#[trigger] plans@[j], plans@[j].key@, *new_ring, survivors@, dumps@),
        decreases keys@.len() - i,
    {
        plans.push(plan_key(&keys[i], new_ring, survivors, dumps));
        i = i + 1;
    }
    assert(plan_keys(plans@) =~= views(keys@));
    plans
}

/// Once a plan's copies are made, every owner of the key in the new ring
/// holds it: each new owner is a surviving holder or one of the plan's
/// targets (the key is held somewhere).
pub proof fn lemma_plan_covers_new_owners(
    plan: KeyPlan,
    k: Seq<char>,
    new_ring: HashRing,
    survivors: Seq<(String, String, u16)>,
    dumps: Seq<KeyDump>,
    id: Seq<char>,
)
    requires
        key_plan_spec(plan, k, new_ring, survivors, dumps),
        holders(dumps, k).len() > 0,
        new_owner_ids(new_ring, k).contains(id),
    ensures
        holders(dumps, k).map_values(|d: KeyDump| d.0@).contains(id) || exists|t: int|
            0 <= t < plan.targets@.len() && #[trigger] plan.targets@[t].0@ == id,
{
    let held = |i: Seq<char>| !holders(dumps, k).map_values(|d: KeyDump| d.0@).contains(i);
    let owners = new_owner_ids(new_ring, k);
    if !holders(dumps, k).map_values(|d: KeyDump| d.0@).contains(id) {
        let m = choose|m: int| 0 <= m < owners.len() && owners[m] == id;
        owners.lemma_filter_contains(held, m);
        assert(missing_owner_ids(new_ring, dumps, k) == owners.filter(held));
        let t = choose|t: int|
            0 <= t < missing_owner_ids(new_ring, dumps, k).len() && missing_owner_ids(new_ring, dumps, k)[t]
                == id;
        assert(plan.targets@[t].0@ == id);
    }
}

/// What became of one copy that a plan called for, or of a key that no
/// surviving node held.
#[derive(Clone, Copy, Debug, PartialEq, Eq, Structural)]
pub enum CopyOutcome {
    /// No surviving node held the key.
    Unrecoverable,
    /// The new owner is not among the surviving nodes.
    TargetMissing,
    /// The source was asked to send the copy; `true` when it confirmed.
    Sent(bool),
}

/// The number of copies that were confirmed.
pub open spec fn confirmed_count(outcomes: Seq<CopyOutcome>) -> nat {
    outcomes.filter(|o: CopyOutcome| o == CopyOutcome::Sent(true)).len()
}

/// Totals of a re-replication run: copies confirmed, and everything else
/// (unrecoverable keys, missing targets and refused copies) as failures.
pub fn tally_outcomes(outcomes: &Vec<CopyOutcome>) -> (totals: (u64, u64))
    ensures
        totals.0 == confirmed_count(outcomes@),
        totals.0 + totals.1 == outcomes@.len(),
{
    let ghost sent = |o: CopyOutcome| o == CopyOutcome::Sent(true);
    let mut confirmed: u64 = 0;
    let mut failed: u64 = 0;
    let mut i: usize = 0;
    while i < outcomes.len()
        invariant
            i <= outcomes@.len(),
            sent == (|o: CopyOutcome| o == CopyOutcome::Sent(true)),
            confirmed == outcomes@.take(i as int).filter(sent).len(),
            confirmed + failed == i,
        decreases outcomes@.len() - i,
    {
        proof {
            assert(outcomes@.take(i as int + 1) == outcomes@.take(i as int).push(outcomes@[i as int]));
            outcomes@.take(i as int).lemma_filter_push(outcomes@[i as int], sent);
        }
        if outcomes[i] == CopyOutcome::Sent(true) {
            confirmed = confirmed + 1;
        } else {
            failed = failed + 1;
        }
        i = i + 1;
    }
    assert(outcomes@.take(i as int) == outcomes@);
    (confirmed, failed)
}

} // verus!
