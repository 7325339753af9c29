use crate::consistent_hashing::{
    graft, keeps_other, lemma_graft, spec_add, spec_admitted, spec_distribute, spec_remove,
    spec_rounds, vnode_seq, RingModel,
};
use crate::hash::vnode_hash;
use crate::ring_order::{
    lemma_filter_props, lemma_successor, lemma_successor_after_insertion,
    lemma_successor_after_removal, sorted_strict, spec_successor,
};
use vstd::prelude::*;
use vstd::set_lib::lemma_len_subset;

verus! {

/// A lookup changes no budget: placement rounds without consumed resources
/// return the budgets they were given.
proof fn lemma_rounds_lookup(
    owner: Map<u64, Seq<char>>,
    budgets: Map<Seq<char>, i64>,
    working: Seq<u64>,
    entity: Seq<char>,
    r: nat,
    replica: nat,
    acc: Seq<Seq<char>>,
)
    ensures
        spec_rounds(owner, budgets, working, entity, None, r, replica, acc).1 == budgets,
    decreases replica - r,
{
    if r >= replica || working.len() == 0 {
    } else {
        let h = spec_successor(working, vnode_hash(entity, r));
        let n = owner[h];
        lemma_rounds_lookup(
            owner,
            budgets,
            working.filter(keeps_other(owner, n)),
            entity,
            r + 1,
            replica,
            acc.push(n),
        );
    }
}

/// Law (determinism): for a fixed ring state, a lookup — a placement call
/// without consumed resources — changes no budget, and a second identical
/// lookup on the state it leaves behind returns the same nodes.
pub proof fn lemma_distribute_deterministic(
    m: RingModel,
    entity: Seq<char>,
    replica: Option<u16>,
)
    ensures
        spec_distribute(m, entity, replica, None).1 == m.budgets,
        ({
            let first = spec_distribute(m, entity, replica, None);
            let after = RingModel { budgets: first.1, ..m };
            spec_distribute(after, entity, replica, None).0 == first.0
        }),
{
    if !(m.ring.len() == 0 || replica is None) {
        lemma_rounds_lookup(
            m.owner,
            m.budgets,
            spec_admitted(m, None),
            entity,
            0,
            replica.unwrap() as nat,
            Seq::empty(),
        );
    }
    let first = spec_distribute(m, entity, replica, None);
    let after = RingModel { budgets: first.1, ..m };
    assert(after =~= m);
}

/// What every placement round preserves: the chosen nodes extend the
/// accumulator one registered, admitted, not-yet-chosen node at a time.
proof fn lemma_rounds_props(
    m: RingModel,
    budgets: Map<Seq<char>, i64>,
    working: Seq<u64>,
    entity: Seq<char>,
    consumed: Option<i64>,
    r: nat,
    replica: nat,
    acc: Seq<Seq<char>>,
)
    requires
        m.inv(),
        sorted_strict(working),
        forall|k: int| 0 <= k < working.len() ==> m.ring.contains(#[trigger] working[k]),
        forall|k: int| 0 <= k < working.len() ==> !acc.contains(m.owner[#[trigger] working[k]]),
        consumed matches Some(c) ==> forall|k: int|
            0 <= k < working.len() ==> m.budgets[m.owner[#[trigger] working[k]]] >= c,
        acc.no_duplicates(),
    ensures
        ({
            let out = spec_rounds(m.owner, budgets, working, entity, consumed, r, replica, acc).0;
            &&& out.len() <= acc.len() + (if replica >= r {
                replica - r
            } else {
                0
            })
            &&& out.no_duplicates()
            &&& acc.is_prefix_of(out)
            &&& (forall|j: int|
                acc.len() <= j < out.len() ==> m.budgets.contains_key(#[trigger] out[j]) && (
                consumed matches Some(c) ==> m.budgets[out[j]] >= c))
        }),
    decreases replica - r,
{
    let out = spec_rounds(m.owner, budgets, working, entity, consumed, r, replica, acc).0;
    if r >= replica || working.len() == 0 {
        assert(acc.is_prefix_of(out));
    } else {
        let t = vnode_hash(entity, r);
        lemma_successor(working, t);
        let h = spec_successor(working, t);
        let n = m.owner[h];
        let hk = choose|hk: int| 0 <= hk < working.len() && working[hk] == h;
        assert(m.ring.contains(h));
        assert(m.ring.to_set().contains(h));
        assert(m.budgets.contains_key(n));
        assert(!acc.contains(n));
        let acc2 = acc.push(n);
        assert forall|a: int, b: int| 0 <= a < b < acc2.len() implies acc2[a] != acc2[b] by {
            if b == acc2.len() - 1 {
                assert(acc.contains(acc[a]));
            }
        }
        let w2 = working.filter(keeps_other(m.owner, n));
        lemma_filter_props(working, keeps_other(m.owner, n));
        assert forall|k: int| 0 <= k < w2.len() implies m.ring.contains(#[trigger] w2[k])
            && !acc2.contains(m.owner[w2[k]]) && (consumed matches Some(c)
            ==> m.budgets[m.owner[w2[k]]] >= c) by {
            assert(w2.contains(w2[k]));
            let j = choose|j: int| 0 <= j < working.len() && working[j] == w2[k];
            if acc2.contains(m.owner[w2[k]]) {
                let a = choose|a: int| 0 <= a < acc2.len() && acc2[a] == m.owner[w2[k]];
                assert(a < acc.len());
                assert(acc.contains(m.owner[working[j]]));
            }
        }
        let b2 = match consumed {
            Some(c) => budgets.insert(n, crate::consistent_hashing::spec_debit(budgets[n], c)),
            None => budgets,
        };
        lemma_rounds_props(m, b2, w2, entity, consumed, r + 1, replica, acc2);
        assert(acc.is_prefix_of(acc2));
        assert(acc.is_prefix_of(out));
        assert forall|j: int| acc.len() <= j < out.len() implies m.budgets.contains_key(
            #[trigger] out[j],
        ) && (consumed matches Some(c) ==> m.budgets[out[j]] >= c) by {
            if j == acc.len() {
                assert(out[j] == acc2[j]);
            }
        }
    }
}

/// The nodes the admission filter passes for a call: every registered node,
/// or, with consumed resources given, those whose budget covers them.
pub open spec fn spec_admitted_nodes(m: RingModel, consumed: Option<i64>) -> Set<Seq<char>> {
    match consumed {
        Some(c) => m.budgets.dom().filter(|n: Seq<char>| m.budgets[n] >= c),
        None => m.budgets.dom(),
    }
}

/// Law (replica bound): a placement returns pairwise distinct nodes, never
/// more than the requested replica count, and never more than the number of
/// nodes that pass the admission filter.
pub proof fn lemma_replica_bound(
    m: RingModel,
    entity: Seq<char>,
    replica: u16,
    consumed: Option<i64>,
)
    requires
        m.inv(),
    ensures
        ({
            let out = spec_distribute(m, entity, Some(replica), consumed).0;
            &&& out.len() <= replica
            &&& out.no_duplicates()
            &&& out.len() <= spec_admitted_nodes(m, consumed).len()
        }),
{
    let out = spec_distribute(m, entity, Some(replica), consumed).0;
    if m.ring.len() == 0 {
    } else {
        let working = spec_admitted(m, consumed);
        proof_admitted_working(m, consumed);
        lemma_rounds_props(
            m,
            m.budgets,
            working,
            entity,
            consumed,
            0,
            replica as nat,
            Seq::empty(),
        );
        assert(out.len() <= replica);
        out.unique_seq_to_set();
        let chosen = out.to_set();
        assert forall|n: Seq<char>| chosen.contains(n) implies spec_admitted_nodes(
            m,
            consumed,
        ).contains(n) by {
            let j = choose|j: int| 0 <= j < out.len() && out[j] == n;
        }
        lemma_len_subset(chosen, spec_admitted_nodes(m, consumed));
    }
}

/// The admitted working ring holds only positions of registered, admitted
/// nodes.
proof fn proof_admitted_working(m: RingModel, consumed: Option<i64>)
    requires
        m.inv(),
    ensures
        sorted_strict(spec_admitted(m, consumed)),
        forall|k: int|
            0 <= k < spec_admitted(m, consumed).len() ==> m.ring.contains(
                #[trigger] spec_admitted(m, consumed)[k],
            ),
        consumed matches Some(c) ==> forall|k: int|
            0 <= k < spec_admitted(m, consumed).len() ==> m.budgets[m.owner[#[trigger] spec_admitted(
                m,
                consumed,
            )[k]]] >= c,
        spec_admitted_nodes(m, consumed).finite(),
{
    let w = spec_admitted(m, consumed);
    if consumed is Some {
        let c = consumed->Some_0;
        lemma_filter_props(m.ring, |h: u64| m.budgets[m.owner[h]] >= c);
        assert forall|k: int| 0 <= k < w.len() implies m.ring.contains(#[trigger] w[k])
            && m.budgets[m.owner[w[k]]] >= c by {
            assert(w.contains(w[k]));
        }
        assert(spec_admitted_nodes(m, consumed) =~= m.budgets.dom().filter(
            |n: Seq<char>| m.budgets[n] >= c,
        ));
        lemma_len_subset(spec_admitted_nodes(m, consumed), m.budgets.dom());
    } else {
        assert forall|k: int| 0 <= k < w.len() implies m.ring.contains(#[trigger] w[k]) by {
            assert(w[k] == m.ring[k]);
        }
    }
}

/// Law (resource exclusion): a node whose available resources lie below the
/// consumed resources of a call never appears in that call's result.
pub proof fn lemma_resource_exclusion(
    m: RingModel,
    entity: Seq<char>,
    replica: Option<u16>,
    c: i64,
    node: Seq<char>,
)
    requires
        m.inv(),
        m.budgets.contains_key(node),
        m.budgets[node] < c,
    ensures
        !spec_distribute(m, entity, replica, Some(c)).0.contains(node),
{
    let out = spec_distribute(m, entity, replica, Some(c)).0;
    if m.ring.len() == 0 || replica is None {
    } else {
        proof_admitted_working(m, Some(c));
        lemma_rounds_props(
            m,
            m.budgets,
            spec_admitted(m, Some(c)),
            entity,
            Some(c),
            0,
            replica.unwrap() as nat,
            Seq::empty(),
        );
        if out.contains(node) {
            let j = choose|j: int| 0 <= j < out.len() && out[j] == node;
            assert(m.budgets[out[j]] >= c);
        }
    }
}

/// Law (idempotent removal): removing a node twice leaves the state a single
/// removal leaves.
pub proof fn lemma_remove_idempotent(m: RingModel, id: Seq<char>)
    ensures
        spec_remove(spec_remove(m, id), id) == spec_remove(m, id),
{
    let m1 = spec_remove(m, id);
    assert(!m1.budgets.contains_key(id));
}

/// Law (minimal disruption, removal): an entity whose owning ring entry does
/// not belong to the removed node keeps both its entry and its owning node.
pub proof fn lemma_remove_minimal_disruption(m: RingModel, id: Seq<char>, t: u64)
    requires
        m.inv(),
        m.ring.len() > 0,
        m.owner[spec_successor(m.ring, t)] != id,
    ensures
        ({
            let m2 = spec_remove(m, id);
            &&& m2.ring.len() > 0
            &&& spec_successor(m2.ring, t) == spec_successor(m.ring, t)
            &&& m2.owner[spec_successor(m2.ring, t)] == m.owner[spec_successor(m.ring, t)]
        }),
{
    if m.budgets.contains_key(id) {
        lemma_successor(m.ring, t);
        let s = spec_successor(m.ring, t);
        assert(m.ring.to_set().contains(s));
        let keep = keeps_other(m.owner, id);
        lemma_successor_after_removal(m.ring, keep, t);
        let m2 = spec_remove(m, id);
        assert(m2.ring == m.ring.filter(keep));
        assert(m2.ring.len() > 0);
        assert(spec_successor(m2.ring, t) == s);
        assert(m2.owner.contains_key(s));
        assert(m2.owner[s] == m.owner[s]);
    }
}

/// Law (minimal disruption, addition): after a fresh node is added, an
/// entity whose owning ring entry is not one of the new node's positions was
/// owned by that same entry, and the same node, before the addition.
pub proof fn lemma_add_minimal_disruption(m: RingModel, id: Seq<char>, avail: i64, t: u64)
    requires
        m.inv(),
        !m.budgets.contains_key(id),
        m.ring.len() > 0,
        ({
            let m2 = spec_add(m, id, avail);
            m2.owner[spec_successor(m2.ring, t)] != id
        }),
    ensures
        ({
            let m2 = spec_add(m, id, avail);
            &&& spec_successor(m2.ring, t) == spec_successor(m.ring, t)
            &&& m2.owner[spec_successor(m2.ring, t)] == m.owner[spec_successor(m.ring, t)]
        }),
{
    let m2 = spec_add(m, id, avail);
    assert(spec_remove(m, id) == m);
    assert forall|h: u64| #[trigger] m.owner.contains_key(h) implies (m.owner[h] == id
        <==> Seq::<u64>::empty().contains(h)) by {
        assert(m.budgets.contains_key(m.owner[h]));
    }
    lemma_graft(m.ring, m.owner, Seq::empty(), id, vnode_seq(id, m.replicas as nat));
    let g = graft(m.ring, m.owner, Seq::empty(), id, vnode_seq(id, m.replicas as nat));
    assert(m2.ring == g.0 && m2.owner == g.1);
    assert(g.0.contains(m.ring[0]));
    assert(g.0.len() > 0);
    lemma_successor(g.0, t);
    let s = spec_successor(g.0, t);
    assert(g.0.to_set().contains(s));
    assert(g.1.contains_key(s));
    assert(m.owner.contains_key(s) && g.1[s] == m.owner[s]);
    assert(m.ring.to_set().contains(s));
    assert(m.ring.contains(s));
    lemma_successor_after_insertion(m.ring, g.0, t);
}

} // verus!
