use crate::hash::{hash, make_label, vnode_hash};
use crate::node_index::{
    alist_map, alist_unique, budget_get, budget_set, contains_hash, copy_hashes, hashes_get,
    lemma_alist_filter, lemma_alist_map, owner_get,
};
use crate::ring_order::{
    first_geq, lemma_filter_equiv, lemma_filter_props, lemma_filter_push, lemma_first_geq,
    lemma_ring_insert, lemma_successor, lower_bound, ring_insert, search_node, sorted_strict,
    spec_successor,
};
use vstd::prelude::*;

verus! {

/// The abstract state of the ring engine: the node registry with its
/// resource budgets, the sorted ring of virtual-node positions, the reverse
/// index from position to owning node, the per-node position lists, and the
/// replica count fixed at construction.
#[verifier::ext_equal]
pub struct RingModel {
    pub budgets: Map<Seq<char>, i64>,
    pub ring: Seq<u64>,
    pub owner: Map<u64, Seq<char>>,
    pub owned: Map<Seq<char>, Seq<u64>>,
    pub replicas: u16,
}

impl RingModel {
    /// Structural consistency: the ring is strictly sorted; the reverse index
    /// covers exactly the ring; every indexed owner is a registered node; the
    /// per-node lists partition the ring.
    pub open spec fn inv(self) -> bool {
        &&& sorted_strict(self.ring)
        &&& self.budgets.dom().finite()
        &&& self.owner.dom() == self.ring.to_set()
        &&& (forall|h: u64|
            #[trigger] self.owner.contains_key(h) ==> self.budgets.contains_key(self.owner[h]))
        &&& self.owned.dom() == self.budgets.dom()
        &&& (forall|n: Seq<char>, k: int|
            self.owned.contains_key(n) && 0 <= k < self.owned[n].len()
                ==> self.owner.contains_key(#[trigger] self.owned[n][k])
                && self.owner[self.owned[n][k]] == n)
        &&& (forall|h: u64|
            #[trigger] self.owner.contains_key(h) ==> self.owned.contains_key(self.owner[h])
                && self.owned[self.owner[h]].contains(h))
        &&& (forall|n: Seq<char>|
            #[trigger] self.owned.contains_key(n) ==> self.owned[n].no_duplicates())
    }
}

/// The ring positions derived for node `id`: one per replica index.
pub open spec fn vnode_seq(id: Seq<char>, n: nat) -> Seq<u64> {
    Seq::new(n, |r: int| vnode_hash(id, r as nat))
}

/// Fold the positions `hs` of node `id` into the ring and the reverse index,
/// in order, collecting the freshly inserted positions; a position already
/// on the ring is skipped, so the indices never contradict each other.
pub open spec fn graft(
    ring: Seq<u64>,
    owner: Map<u64, Seq<char>>,
    mine: Seq<u64>,
    id: Seq<char>,
    hs: Seq<u64>,
) -> (Seq<u64>, Map<u64, Seq<char>>, Seq<u64>)
    decreases hs.len(),
{
    if hs.len() == 0 {
        (ring, owner, mine)
    } else {
        let h = hs[0];
        if ring.contains(h) {
            graft(ring, owner, mine, id, hs.drop_first())
        } else {
            graft(ring_insert(ring, h), owner.insert(h, id), mine.push(h), id, hs.drop_first())
        }
    }
}

/// Admits the ring positions that some other node than `id` owns.
pub open spec fn keeps_other(owner: Map<u64, Seq<char>>, id: Seq<char>) -> spec_fn(u64) -> bool {
    |h: u64| owner[h] != id
}

/// Removing a node: a no-op for an unknown identifier; otherwise the node's
/// positions leave the ring and the reverse index, and the node leaves the
/// registry and the per-node index.
pub open spec fn spec_remove(m: RingModel, id: Seq<char>) -> RingModel {
    if m.budgets.contains_key(id) {
        RingModel {
            budgets: m.budgets.remove(id),
            ring: m.ring.filter(keeps_other(m.owner, id)),
            owner: Map::new(
                |h: u64| m.owner.contains_key(h) && m.owner[h] != id,
                |h: u64| m.owner[h],
            ),
            owned: m.owned.remove(id),
            replicas: m.replicas,
        }
    } else {
        m
    }
}

/// Adding a node: any previous state of the same identifier is removed
/// first, then the node's derived positions are folded into the ring and the
/// indices and its budget is recorded.
pub open spec fn spec_add(m: RingModel, id: Seq<char>, avail: i64) -> RingModel {
    let m0 = spec_remove(m, id);
    let g = graft(m0.ring, m0.owner, Seq::empty(), id, vnode_seq(id, m.replicas as nat));
    RingModel {
        budgets: m0.budgets.insert(id, avail),
        ring: g.0,
        owner: g.1,
        owned: m0.owned.insert(id, g.2),
        replicas: m.replicas,
    }
}

/// Updating a budget: overwrite for a known node, a no-op otherwise; the
/// ring and the indices are untouched.
pub open spec fn spec_update(m: RingModel, id: Seq<char>, avail: i64) -> RingModel {
    if m.budgets.contains_key(id) {
        RingModel { budgets: m.budgets.insert(id, avail), ..m }
    } else {
        m
    }
}

/// The engine of an empty registry.
pub open spec fn spec_empty(replicas: u16) -> RingModel {
    RingModel {
        budgets: Map::empty(),
        ring: Seq::empty(),
        owner: Map::empty(),
        owned: Map::empty(),
        replicas,
    }
}

/// Construction folds `spec_add` over the listed nodes in order; a repeated
/// identifier ends up with its last listed budget.
pub open spec fn spec_new_from(m: RingModel, pairs: Seq<(String, i64)>) -> RingModel
    decreases pairs.len(),
{
    if pairs.len() == 0 {
        m
    } else {
        spec_new_from(spec_add(m, pairs[0].0@, pairs[0].1), pairs.drop_first())
    }
}

pub open spec fn spec_new(pairs: Seq<(String, i64)>, replicas: u16) -> RingModel {
    spec_new_from(spec_empty(replicas), pairs)
}

/// The budget left after a placement consumes `c`, clamped to the
/// representable range.
pub open spec fn spec_debit(avail: i64, c: i64) -> i64 {
    if avail - c < i64::MIN {
        i64::MIN
    } else if avail - c > i64::MAX {
        i64::MAX
    } else {
        (avail - c) as i64
    }
}

/// The admission filter: with a consumed-resources bound, positions of nodes
/// whose budget is below the bound leave the working ring before placement.
pub open spec fn spec_admitted(m: RingModel, consumed: Option<i64>) -> Seq<u64> {
    match consumed {
        Some(c) => m.ring.filter(|h: u64| m.budgets[m.owner[h]] >= c),
        None => m.ring,
    }
}

/// One placement round per replica index: hash the entity with the round
/// index, walk to the owning ring entry, record its node, retire every
/// position of that node from the working ring, and (when consuming) debit
/// the node's budget. Stops early when the working ring runs dry.
pub open spec fn spec_rounds(
    owner: Map<u64, Seq<char>>,
    budgets: Map<Seq<char>, i64>,
    working: Seq<u64>,
    entity: Seq<char>,
    consumed: Option<i64>,
    r: nat,
    replica: nat,
    acc: Seq<Seq<char>>,
) -> (Seq<Seq<char>>, Map<Seq<char>, i64>)
    decreases replica - r,
{
    if r >= replica || working.len() == 0 {
        (acc, budgets)
    } else {
        let t = vnode_hash(entity, r);
        let h = spec_successor(working, t);
        let n = owner[h];
        let w2 = working.filter(keeps_other(owner, n));
        let b2 = match consumed {
            Some(c) => budgets.insert(n, spec_debit(budgets[n], c)),
            None => budgets,
        };
        spec_rounds(owner, b2, w2, entity, consumed, r + 1, replica, acc.push(n))
    }
}

/// Placement: an empty ring or an absent replica count yields no nodes and
/// changes nothing; otherwise the admitted working ring is consumed round by
/// round. Returns the chosen nodes in selection order and the budgets left.
pub open spec fn spec_distribute(
    m: RingModel,
    entity: Seq<char>,
    replica: Option<u16>,
    consumed: Option<i64>,
) -> (Seq<Seq<char>>, Map<Seq<char>, i64>) {
    if m.ring.len() == 0 || replica is None {
        (Seq::empty(), m.budgets)
    } else {
        spec_rounds(
            m.owner,
            m.budgets,
            spec_admitted(m, consumed),
            entity,
            consumed,
            0,
            replica.unwrap() as nat,
            Seq::empty(),
        )
    }
}

/// What grafting guarantees: the ring stays sorted and gains exactly the
/// fresh positions, the reverse index keeps every old entry and maps each
/// fresh position to `id`, and the collected positions are exactly those the
/// index attributes to `id`.
pub proof fn lemma_graft(
    ring: Seq<u64>,
    owner: Map<u64, Seq<char>>,
    mine: Seq<u64>,
    id: Seq<char>,
    hs: Seq<u64>,
)
    requires
        sorted_strict(ring),
        owner.dom() == ring.to_set(),
        mine.no_duplicates(),
        forall|k: int|
            0 <= k < mine.len() ==> ring.contains(#[trigger] mine[k]) && owner[mine[k]] == id,
        forall|h: u64|
            #[trigger] owner.contains_key(h) ==> (owner[h] == id <==> mine.contains(h)),
    ensures
        ({
            let g = graft(ring, owner, mine, id, hs);
            &&& sorted_strict(g.0)
            &&& g.1.dom() == g.0.to_set()
            &&& g.2.no_duplicates()
            &&& (forall|x: u64| #[trigger] g.0.contains(x) <==> ring.contains(x) || g.2.contains(x))
            &&& (forall|h: u64|
                #[trigger] owner.contains_key(h) ==> g.1.contains_key(h) && g.1[h] == owner[h])
            &&& (forall|h: u64|
                #[trigger] g.1.contains_key(h) ==> (owner.contains_key(h) && g.1[h] == owner[h])
                    || g.1[h] == id)
            &&& (forall|h: u64|
                #[trigger] g.1.contains_key(h) ==> (g.1[h] == id <==> g.2.contains(h)))
            &&& (forall|k: int|
                0 <= k < g.2.len() ==> g.0.contains(#[trigger] g.2[k]) && g.1[g.2[k]] == id)
        }),
    decreases hs.len(),
{
    if hs.len() == 0 {
        assert forall|k: int| 0 <= k < mine.len() implies graft(ring, owner, mine, id, hs).0
            .contains(#[trigger] mine[k]) && graft(ring, owner, mine, id, hs).1[mine[k]]
            == id by {
            assert(ring.to_set().contains(mine[k]));
        }
        assert forall|x: u64| mine.contains(x) implies ring.contains(x) by {
            let k = choose|k: int| 0 <= k < mine.len() && mine[k] == x;
        }
    } else {
        let h = hs[0];
        let rest = hs.drop_first();
        if ring.contains(h) {
            lemma_graft(ring, owner, mine, id, rest);
        } else {
            lemma_ring_insert(ring, h);
            let ring2 = ring_insert(ring, h);
            let owner2 = owner.insert(h, id);
            let mine2 = mine.push(h);
            assert(owner2.dom() =~= ring2.to_set());
            assert forall|k: int| 0 <= k < mine2.len() implies ring2.contains(
                #[trigger] mine2[k],
            ) && owner2[mine2[k]] == id by {
                if k < mine.len() {
                    assert(ring.contains(mine[k]));
                    assert(ring.to_set().contains(mine[k]));
                    assert(mine2[k] != h);
                }
            }
            assert forall|x: u64| mine.contains(x) implies x != h by {
                let k = choose|k: int| 0 <= k < mine.len() && mine[k] == x;
            }
            assert(mine2.no_duplicates());
            assert forall|g: u64| #[trigger] owner2.contains_key(g) implies (owner2[g] == id
                <==> mine2.contains(g)) by {
                if g == h {
                    assert(mine2[mine2.len() - 1] == h);
                } else {
                    if mine2.contains(g) {
                        let k = choose|k: int| 0 <= k < mine2.len() && mine2[k] == g;
                        assert(mine[k] == g);
                    }
                    if mine.contains(g) {
                        let k = choose|k: int| 0 <= k < mine.len() && mine[k] == g;
                        assert(mine2[k] == g);
                    }
                }
            }
            lemma_graft(ring2, owner2, mine2, id, rest);
            let g = graft(ring, owner, mine, id, hs);
            assert(g == graft(ring2, owner2, mine2, id, rest));
            assert forall|x: u64| #[trigger] g.0.contains(x) implies ring.contains(x)
                || g.2.contains(x) by {
                if !ring.contains(x) && ring2.contains(x) {
                    assert(x == h);
                    assert(owner2.contains_key(h));
                    assert(g.1.contains_key(h) && g.1[h] == owner2[h]);
                    assert(g.2.contains(h));
                }
            }
            assert forall|x: u64| ring.contains(x) || g.2.contains(x) implies #[trigger] g.0
                .contains(x) by {
                if ring.contains(x) {
                    assert(ring2.contains(x));
                }
            }
            assert forall|x: u64| #[trigger] owner.contains_key(x) implies g.1.contains_key(x)
                && g.1[x] == owner[x] by {
                assert(ring.to_set().contains(x));
                assert(x != h);
                assert(owner2.contains_key(x) && owner2[x] == owner[x]);
            }
            assert forall|x: u64| #[trigger] g.1.contains_key(x) implies (owner.contains_key(x)
                && g.1[x] == owner[x]) || g.1[x] == id by {
                if owner2.contains_key(x) && g.1[x] == owner2[x] && x != h {
                    assert(owner.contains_key(x) && owner2[x] == owner[x]);
                }
            }
        }
    }
}

/// Put one position onto the sorted ring, reporting whether it was fresh; a
/// position already present leaves the ring unchanged.
fn ring_insert_exec(ring: &mut Vec<u64>, h: u64) -> (fresh: bool)
    requires
        sorted_strict(old(ring)@),
    ensures
        final(ring)@ == ring_insert(old(ring)@, h),
        fresh == !old(ring)@.contains(h),
        sorted_strict(final(ring)@),
{
    proof {
        lemma_first_geq(ring@, h);
        lemma_ring_insert(ring@, h);
    }
    let i = lower_bound(ring.as_slice(), h);
    if i < ring.len() && ring[i] == h {
        proof {
            assert(ring@.contains(ring@[i as int]));
        }
        false
    } else {
        proof {
            if ring@.contains(h) {
                let k = choose|k: int| 0 <= k < ring@.len() && ring@[k] == h;
                let f = first_geq(ring@, h);
                if k > f {
                    assert(ring@[f] < ring@[k]);
                }
                assert(k == f);
                assert(false);
            }
        }
        ring.insert(i, h);
        true
    }
}

/// Fold the derived positions of `node` into the ring and the reverse index,
/// returning the positions that were freshly inserted.
fn insert_vnodes(
    ring: &mut Vec<u64>,
    index: &mut Vec<(u64, String)>,
    node: &String,
    hashes: &Vec<u64>,
) -> (mine: Vec<u64>)
    requires
        sorted_strict(old(ring)@),
        alist_unique(old(index)@),
        alist_map(old(index)@).dom() == old(ring)@.to_set(),
    ensures
        ({
            let g = graft(
                old(ring)@,
                alist_map(old(index)@),
                Seq::empty(),
                node@,
                hashes@,
            );
            final(ring)@ == g.0 && alist_map(final(index)@) == g.1 && mine@ == g.2
        }),
        sorted_strict(final(ring)@),
        alist_unique(final(index)@),
        alist_map(final(index)@).dom() == final(ring)@.to_set(),
{
    let ghost ring0 = ring@;
    let ghost map0 = alist_map(index@);
    let mut mine: Vec<u64> = Vec::new();
    let n = hashes.len();
    let mut i: usize = 0;
    proof {
        assert(hashes@.skip(0) =~= hashes@);
    }
    while i < n
        invariant
            n == hashes@.len(),
            i <= n,
            sorted_strict(ring@),
            alist_unique(index@),
            alist_map(index@).dom() == ring@.to_set(),
            graft(ring@, alist_map(index@), mine@, node@, hashes@.skip(i as int)) == graft(
                ring0,
                map0,
                Seq::empty(),
                node@,
                hashes@,
            ),
        decreases n - i,
    {
        let h = hashes[i];
        let ghost pre_ring = ring@;
        let ghost pre_seq = index@;
        let ghost pre_map = alist_map(index@);
        let ghost pre_mine = mine@;
        proof {
            assert(hashes@.skip(i as int)[0] == h);
            assert(hashes@.skip(i as int).drop_first() =~= hashes@.skip(i as int + 1));
        }
        let fresh = ring_insert_exec(ring, h);
        if fresh {
            index.push((h, node.clone()));
            mine.push(h);
            proof {
                lemma_ring_insert(pre_ring, h);
                assert(index@.drop_last() =~= pre_seq);
                assert(alist_map(index@) == pre_map.insert(h, node@));
                lemma_alist_map(pre_seq);
                assert forall|a: int, b: int| 0 <= a < b < index@.len() implies index@[a].0@
                    != index@[b].0@ by {
                    if b == index@.len() - 1 {
                        assert(pre_map.contains_key(pre_seq[a].0@));
                        assert(pre_ring.to_set().contains(pre_seq[a].0));
                    }
                }
                assert(alist_map(index@).dom() =~= ring@.to_set());
                assert(graft(pre_ring, pre_map, pre_mine, node@, hashes@.skip(i as int))
                    == graft(ring@, alist_map(index@), mine@, node@, hashes@.skip(
                    i as int + 1,
                )));
            }
        } else {
            proof {
                lemma_ring_insert(pre_ring, h);
                assert(ring@ == pre_ring);
                assert(graft(pre_ring, pre_map, pre_mine, node@, hashes@.skip(i as int))
                    == graft(ring@, alist_map(index@), mine@, node@, hashes@.skip(
                    i as int + 1,
                )));
            }
        }
        i += 1;
    }
    proof {
        assert(hashes@.skip(n as int) =~= Seq::<u64>::empty());
    }
    mine
}

/// The working ring without the listed positions, in ring order.
fn retain_ring(ring: &Vec<u64>, mine: &Vec<u64>) -> (out: Vec<u64>)
    ensures
        out@ == ring@.filter(|h: u64| !mine@.contains(h)),
{
    let ghost keep = |h: u64| !mine@.contains(h);
    let n = ring.len();
    let mut out: Vec<u64> = Vec::new();
    let mut i: usize = 0;
    proof {
        assert(ring@.subrange(0, 0).filter(keep) =~= Seq::<u64>::empty());
        reveal(Seq::filter);
    }
    while i < n
        invariant
            n == ring@.len(),
            i <= n,
            keep == (|h: u64| !mine@.contains(h)),
            out@ == ring@.subrange(0, i as int).filter(keep),
        decreases n - i,
    {
        let h = ring[i];
        let inmine = contains_hash(mine, h);
        proof {
            assert(ring@.subrange(0, i as int + 1) =~= ring@.subrange(0, i as int).push(h));
            lemma_filter_push(ring@.subrange(0, i as int), h, keep);
        }
        if !inmine {
            out.push(h);
        }
        i += 1;
    }
    proof {
        assert(ring@.subrange(0, n as int) =~= ring@);
    }
    out
}

/// The reverse index without the listed positions, in index order.
fn retain_index(s: &Vec<(u64, String)>, mine: &Vec<u64>) -> (out: Vec<(u64, String)>)
    ensures
        out@ == s@.filter(|p: (u64, String)| !mine@.contains(p.0)),
{
    let ghost keep = |p: (u64, String)| !mine@.contains(p.0);
    let n = s.len();
    let mut out: Vec<(u64, String)> = Vec::new();
    let mut i: usize = 0;
    proof {
        assert(s@.subrange(0, 0).filter(keep) =~= Seq::<(u64, String)>::empty());
        reveal(Seq::filter);
    }
    while i < n
        invariant
            n == s@.len(),
            i <= n,
            keep == (|p: (u64, String)| !mine@.contains(p.0)),
            out@ == s@.subrange(0, i as int).filter(keep),
        decreases n - i,
    {
        let inmine = contains_hash(mine, s[i].0);
        proof {
            assert(s@.subrange(0, i as int + 1) =~= s@.subrange(0, i as int).push(s@[i as int]));
            lemma_filter_push(s@.subrange(0, i as int), s@[i as int], keep);
        }
        if !inmine {
            out.push((s[i].0, s[i].1.clone()));
            proof {
                assert(out@.last() == s@[i as int]);
                assert(out@ =~= s@.subrange(0, i as int + 1).filter(keep));
            }
        }
        i += 1;
    }
    proof {
        assert(s@.subrange(0, n as int) =~= s@);
    }
    out
}

/// The registry without the entry of `node`, in registry order.
fn retain_nodes(s: &Vec<(String, i64)>, node: &String) -> (out: Vec<(String, i64)>)
    ensures
        out@ == s@.filter(|p: (String, i64)| p.0@ != node@),
{
    let ghost keep = |p: (String, i64)| p.0@ != node@;
    let n = s.len();
    let mut out: Vec<(String, i64)> = Vec::new();
    let mut i: usize = 0;
    proof {
        assert(s@.subrange(0, 0).filter(keep) =~= Seq::<(String, i64)>::empty());
        reveal(Seq::filter);
    }
    while i < n
        invariant
            n == s@.len(),
            i <= n,
            keep == (|p: (String, i64)| p.0@ != node@),
            out@ == s@.subrange(0, i as int).filter(keep),
        decreases n - i,
    {
        let differs = !(s[i].0 == *node);
        proof {
            assert(s@.subrange(0, i as int + 1) =~= s@.subrange(0, i as int).push(s@[i as int]));
            lemma_filter_push(s@.subrange(0, i as int), s@[i as int], keep);
        }
        if differs {
            out.push((s[i].0.clone(), s[i].1));
            proof {
                assert(out@.last() == s@[i as int]);
                assert(out@ =~= s@.subrange(0, i as int + 1).filter(keep));
            }
        }
        i += 1;
    }
    proof {
        assert(s@.subrange(0, n as int) =~= s@);
    }
    out
}

/// The per-node index without the entry of `node`; stated over the mapping,
/// since the kept position lists are copied.
fn retain_hashes(s: &Vec<(String, Vec<u64>)>, node: &String) -> (out: Vec<(String, Vec<u64>)>)
    requires
        alist_unique(s@),
    ensures
        alist_unique(out@),
        alist_map(out@) == alist_map(s@).remove(node@),
{
    let n = s.len();
    let mut out: Vec<(String, Vec<u64>)> = Vec::new();
    let mut i: usize = 0;
    while i < n
        invariant
            n == s@.len(),
            i <= n,
            alist_unique(s@),
            alist_unique(out@),
            alist_map(out@) == alist_map(s@.subrange(0, i as int)).remove(node@),
            forall|a: int|
                0 <= a < out@.len() ==> exists|j: int|
                    0 <= j < i && #[trigger] out@[a].0@ == s@[j].0@,
        decreases n - i,
    {
        let ghost prefix = s@.subrange(0, i as int);
        proof {
            assert(s@.subrange(0, i as int + 1).drop_last() =~= prefix);
            lemma_alist_map(prefix);
        }
        if !(s[i].0 == *node) {
            let ghost prev = out@;
            out.push((s[i].0.clone(), copy_hashes(&s[i].1)));
            proof {
                assert(out@.drop_last() =~= prev);
                assert forall|a: int, b: int| 0 <= a < b < out@.len() implies out@[a].0@
                    != out@[b].0@ by {
                    if b == out@.len() - 1 {
                        let j = choose|j: int|
                            0 <= j < i && #[trigger] out@[a].0@ == s@[j].0@;
                        assert(s@[j].0@ != s@[i as int].0@);
                    }
                }
                assert(alist_map(out@) =~= alist_map(s@.subrange(0, i as int + 1)).remove(
                    node@,
                ));
                assert forall|a: int| 0 <= a < out@.len() implies exists|j: int|
                    0 <= j < i + 1 && #[trigger] out@[a].0@ == s@[j].0@ by {
                    if a < out@.len() - 1 {
                        let j = choose|j: int|
                            0 <= j < i && #[trigger] prev[a].0@ == s@[j].0@;
                        assert(out@[a].0@ == s@[j].0@);
                    } else {
                        assert(out@[a].0@ == s@[i as int].0@);
                    }
                }
            }
        } else {
            proof {
                assert(alist_map(out@) =~= alist_map(s@.subrange(0, i as int + 1)).remove(
                    node@,
                ));
            }
        }
        i += 1;
    }
    proof {
        assert(s@.subrange(0, n as int) =~= s@);
    }
    out
}

/// The ring engine: the node registry with budgets, the sorted ring of
/// virtual-node positions, and the two indices tying positions and nodes
/// together. All four are updated as one unit by every mutation.
pub struct ConsistentHashing {
    nodes: Vec<(String, i64)>,
    ring: Vec<u64>,
    node_replicas: u16,
    hash_to_node: Vec<(u64, String)>,
    node_to_hashes: Vec<(String, Vec<u64>)>,
}

impl View for ConsistentHashing {
    type V = RingModel;

    closed spec fn view(&self) -> RingModel {
        RingModel {
            budgets: alist_map(self.nodes@),
            ring: self.ring@,
            owner: alist_map(self.hash_to_node@),
            owned: alist_map(self.node_to_hashes@),
            replicas: self.node_replicas,
        }
    }
}

impl ConsistentHashing {
    /// The engine is well-formed: the indices hold each key once and the
    /// abstract state satisfies the ring invariant.
    pub closed spec fn wf(&self) -> bool {
        &&& alist_unique(self.nodes@)
        &&& alist_unique(self.hash_to_node@)
        &&& alist_unique(self.node_to_hashes@)
        &&& self@.inv()
    }

    /// A well-formed engine's abstract state satisfies the ring invariant,
    /// which the laws over placement assume.
    pub proof fn lemma_wf_model(&self)
        requires
            self.wf(),
        ensures
            self@.inv(),
    {
    }

    /// The current node registry, as pairs of identifier and remaining
    /// budget, each node exactly once.
    pub fn nodes(&self) -> (r: &Vec<(String, i64)>)
        ensures
            alist_map(r@) == self@.budgets,
            self.wf() ==> alist_unique(r@),
    {
        &self.nodes
    }

    /// Overwrite the budget recorded for `node`; unknown identifiers are
    /// ignored rather than rejected.
    pub fn update(&mut self, node: String, available_resources: i64)
        requires
            old(self).wf(),
        ensures
            final(self).wf(),
            final(self)@ == spec_update(old(self)@, node@, available_resources),
    {
        let found = budget_set(&mut self.nodes, &node, available_resources);
        proof {
            if found {
                assert(self@ =~= spec_update(old(self)@, node@, available_resources));
                assert forall|h: u64| #[trigger] self@.owner.contains_key(h) implies
                    self@.budgets.contains_key(self@.owner[h]) by {
                    assert(old(self)@.budgets.contains_key(old(self)@.owner[h]));
                }
                assert(self@.owned.dom() =~= self@.budgets.dom());
            } else {
                assert(self@ =~= spec_update(old(self)@, node@, available_resources));
            }
        }
    }

    /// Register a node with its budget and put its virtual-node positions on
    /// the ring. Re-adding a known identifier replaces it: the old entries
    /// leave first, so the indices never hold duplicates.
    pub fn add(&mut self, node: String, available_resources: i64)
        requires
            old(self).wf(),
        ensures
            final(self).wf(),
            final(self)@ == spec_add(old(self)@, node@, available_resources),
    {
        self.remove_ref(&node);
        let ghost m0 = self@;
        proof {
            assert(!m0.budgets.contains_key(node@));
            assert forall|h: u64| #[trigger] m0.owner.contains_key(h) implies (m0.owner[h]
                == node@ <==> Seq::<u64>::empty().contains(h)) by {
                assert(m0.budgets.contains_key(m0.owner[h]));
            }
        }
        let hashes = add_node(node.as_str(), self.node_replicas);
        let mine = insert_vnodes(&mut self.ring, &mut self.hash_to_node, &node, &hashes);
        let ghost g = graft(
            m0.ring,
            m0.owner,
            Seq::empty(),
            node@,
            vnode_seq(node@, self.node_replicas as nat),
        );
        proof {
            lemma_graft(m0.ring, m0.owner, Seq::empty(), node@, vnode_seq(node@, self.node_replicas as nat));
            lemma_alist_map(self.node_to_hashes@);
            lemma_alist_map(self.nodes@);
        }
        let ghost pre_hashes = self.node_to_hashes@;
        let ghost pre_nodes = self.nodes@;
        self.node_to_hashes.push((node.clone(), mine));
        self.nodes.push((node, available_resources));
        proof {
            let m2 = spec_add(old(self)@, node@, available_resources);
            // the pushed keys are fresh, so both pushes are map insertions
            assert forall|a: int| 0 <= a < pre_hashes.len() implies pre_hashes[a].0@
                != node@ by {
                assert(m0.owned.contains_key(pre_hashes[a].0@));
            }
            assert forall|a: int| 0 <= a < pre_nodes.len() implies pre_nodes[a].0@ != node@ by {
                assert(m0.budgets.contains_key(pre_nodes[a].0@));
            }
            assert(self.node_to_hashes@.drop_last() =~= pre_hashes);
            assert(self.nodes@.drop_last() =~= pre_nodes);
            assert(alist_map(self.node_to_hashes@) == m0.owned.insert(node@, mine@));
            assert(alist_map(self.nodes@) == m0.budgets.insert(node@, available_resources));
            assert(self@ =~= m2);

            // the invariant survives the graft
            assert(self@.owner.dom() == self@.ring.to_set());
            assert forall|h: u64| #[trigger] self@.owner.contains_key(h) implies
                self@.budgets.contains_key(self@.owner[h]) by {
                if m0.owner.contains_key(h) && self@.owner[h] == m0.owner[h] {
                    assert(m0.budgets.contains_key(m0.owner[h]));
                }
            }
            assert(self@.owned.dom() =~= self@.budgets.dom());
            assert forall|n: Seq<char>, k: int|
                self@.owned.contains_key(n) && 0 <= k < self@.owned[n].len() implies
                self@.owner.contains_key(#[trigger] self@.owned[n][k])
                    && self@.owner[self@.owned[n][k]] == n by {
                if n == node@ {
                    assert(g.0.contains(g.2[k]) && g.1[g.2[k]] == node@);
                    assert(g.0.to_set().contains(g.2[k]));
                } else {
                    assert(m0.owned.contains_key(n) && m0.owned[n] == self@.owned[n]);
                    let x = m0.owned[n][k];
                    assert(m0.owner.contains_key(x) && m0.owner[x] == n);
                    assert(g.1.contains_key(x) && g.1[x] == m0.owner[x]);
                }
            }
            assert forall|h: u64| #[trigger] self@.owner.contains_key(h) implies
                self@.owned.contains_key(self@.owner[h]) && self@.owned[self@.owner[h]].contains(
                h,
            ) by {
                if g.1[h] == node@ {
                    assert(g.2.contains(h));
                } else {
                    assert((m0.owner.contains_key(h) && g.1[h] == m0.owner[h]));
                    assert(m0.owned[m0.owner[h]].contains(h));
                }
            }
            assert forall|n: Seq<char>| #[trigger] self@.owned.contains_key(n) implies
                self@.owned[n].no_duplicates() by {
                if n != node@ {
                    assert(m0.owned.contains_key(n) && m0.owned[n] == self@.owned[n]);
                }
            }
            assert(self.wf());
        }
    }

    /// Build an engine from a listing of nodes and their budgets; a repeated
    /// identifier keeps its last listed budget. The order of the listing does
    /// not matter to placement: the ring ends up sorted either way.
    pub fn new(nodes: Vec<(String, i64)>, replica: u16) -> (s: Self)
        ensures
            s.wf(),
            s@ == spec_new(nodes@, replica),
    {
        let mut s = ConsistentHashing {
            nodes: Vec::new(),
            ring: Vec::new(),
            node_replicas: replica,
            hash_to_node: Vec::new(),
            node_to_hashes: Vec::new(),
        };
        proof {
            assert(s@.owner.dom() =~= s@.ring.to_set());
            assert(s@.owned.dom() =~= s@.budgets.dom());
            assert(s@ =~= spec_empty(replica));
            assert(nodes@.skip(0) =~= nodes@);
        }
        let n = nodes.len();
        let mut i: usize = 0;
        while i < n
            invariant
                n == nodes@.len(),
                i <= n,
                s.wf(),
                spec_new_from(s@, nodes@.skip(i as int)) == spec_new(nodes@, replica),
            decreases n - i,
        {
            let ghost pre = s@;
            s.add(nodes[i].0.clone(), nodes[i].1);
            proof {
                assert(nodes@.skip(i as int)[0] == nodes@[i as int]);
                assert(nodes@.skip(i as int).drop_first() =~= nodes@.skip(i as int + 1));
                assert(spec_new_from(pre, nodes@.skip(i as int)) == spec_new_from(
                    s@,
                    nodes@.skip(i as int + 1),
                ));
            }
            i += 1;
        }
        proof {
            assert(nodes@.skip(n as int) =~= Seq::<(String, i64)>::empty());
        }
        s
    }

    /// Place an entity: pick up to `entity_replica` distinct nodes for it,
    /// walking the ring from the hash of the entity and each replica index.
    /// An empty ring or an absent replica count yields no nodes. With
    /// `consumed_resources` given, nodes whose budget lies below it are not
    /// candidates, and each chosen node's budget is debited at once; without
    /// it the call is a pure lookup and changes nothing. The persistent ring
    /// and indices are never touched: each call works on a disposable copy.
    pub fn distribute(
        &mut self,
        entity: String,
        entity_replica: Option<u16>,
        consumed_resources: Option<i64>,
    ) -> (nodes: Vec<String>)
        requires
            old(self).wf(),
        ensures
            final(self).wf(),
            ({
                let d = spec_distribute(old(self)@, entity@, entity_replica, consumed_resources);
                names_of(nodes@) == d.0 && final(self)@ == RingModel {
                    budgets: d.1,
                    ..old(self)@
                }
            }),
    {
        let ghost m = self@;
        if self.ring.is_empty() || entity_replica.is_none() {
            let out: Vec<String> = Vec::new();
            proof {
                assert(names_of(out@) =~= Seq::<Seq<char>>::empty());
                assert(self@ =~= RingModel { budgets: m.budgets, ..m });
            }
            return out;
        }
        let replica = match entity_replica {
            Some(x) => x,
            None => vstd::pervasive::unreached(),
        };
        // the disposable working copy, after the admission filter
        let mut working: Vec<u64>;
        match consumed_resources {
            None => {
                working = copy_hashes(&self.ring);
            },
            Some(c) => {
                let ghost apred = |h: u64| m.budgets[m.owner[h]] >= c;
                let mut w: Vec<u64> = Vec::new();
                let n = self.ring.len();
                let mut i: usize = 0;
                proof {
                    assert(m.ring.subrange(0, 0).filter(apred) =~= Seq::<u64>::empty());
                }
                while i < n
                    invariant
                        i <= n,
                        n == self.ring@.len(),
                        self@ == m,
                        m.inv(),
                        alist_unique(self.nodes@),
                        alist_unique(self.hash_to_node@),
                        apred == (|h: u64| m.budgets[m.owner[h]] >= c),
                        w@ == m.ring.subrange(0, i as int).filter(apred),
                    decreases n - i,
                {
                    let h = self.ring[i];
                    proof {
                        assert(m.ring.contains(h));
                        assert(m.ring.to_set().contains(h));
                    }
                    let owner_name = match owner_get(&self.hash_to_node, h) {
                        Some(nm) => nm,
                        None => vstd::pervasive::unreached(),
                    };
                    let avail = match budget_get(&self.nodes, &owner_name) {
                        Some(v) => v,
                        None => vstd::pervasive::unreached(),
                    };
                    proof {
                        assert(m.ring.subrange(0, i as int + 1) =~= m.ring.subrange(
                            0,
                            i as int,
                        ).push(h));
                        lemma_filter_push(m.ring.subrange(0, i as int), h, apred);
                    }
                    if avail >= c {
                        w.push(h);
                    }
                    i += 1;
                }
                proof {
                    assert(m.ring.subrange(0, n as int) =~= m.ring);
                }
                working = w;
            },
        }
        let ghost working0 = working@;
        proof {
            if consumed_resources is Some {
                let c = consumed_resources->Some_0;
                lemma_filter_props(m.ring, |h: u64| m.budgets[m.owner[h]] >= c);
                assert forall|k: int| 0 <= k < working@.len() implies m.ring.contains(
                    #[trigger] working@[k],
                ) by {
                    assert(working@.contains(working@[k]));
                }
            } else {
                assert forall|k: int| 0 <= k < working@.len() implies m.ring.contains(
                    #[trigger] working@[k],
                ) by {
                    assert(working@[k] == m.ring[k]);
                }
            }
            assert(working0 == spec_admitted(m, consumed_resources));
            assert(sorted_strict(working@));
        }
        let mut result: Vec<String> = Vec::new();
        let mut r: u16 = 0;
        proof {
            assert(names_of(result@) =~= Seq::<Seq<char>>::empty());
        }
        while r < replica && !working.is_empty()
            invariant
                r <= replica,
                self.ring@ == m.ring,
                self.node_replicas == m.replicas,
                self.node_to_hashes@ == old(self).node_to_hashes@,
                self.hash_to_node@ == old(self).hash_to_node@,
                alist_map(self.hash_to_node@) == m.owner,
                alist_map(self.node_to_hashes@) == m.owned,
                alist_unique(self.nodes@),
                alist_unique(self.hash_to_node@),
                alist_unique(self.node_to_hashes@),
                alist_map(self.nodes@).dom() == m.budgets.dom(),
                m.inv(),
                sorted_strict(working@),
                forall|k: int|
                    0 <= k < working@.len() ==> m.ring.contains(#[trigger] working@[k]),
                spec_rounds(
                    m.owner,
                    alist_map(self.nodes@),
                    working@,
                    entity@,
                    consumed_resources,
                    r as nat,
                    replica as nat,
                    names_of(result@),
                ) == spec_rounds(
                    m.owner,
                    m.budgets,
                    working0,
                    entity@,
                    consumed_resources,
                    0,
                    replica as nat,
                    Seq::empty(),
                ),
            decreases replica - r,
        {
            let ghost pre_budgets = alist_map(self.nodes@);
            let ghost pre_working = working@;
            let ghost pre_acc = names_of(result@);
            let label = make_label(entity.as_str(), r);
            let t = hash(label.as_str());
            let nh = search_node(working.as_slice(), t);
            proof {
                lemma_successor(pre_working, t);
                assert(pre_working.contains(nh));
                let k = choose|k: int| 0 <= k < pre_working.len() && pre_working[k] == nh;
                assert(m.ring.contains(nh));
                assert(m.ring.to_set().contains(nh));
            }
            let owner_name = match owner_get(&self.hash_to_node, nh) {
                Some(nm) => nm,
                None => vstd::pervasive::unreached(),
            };
            let ghost chosen = owner_name@;
            proof {
                assert(chosen == m.owner[nh]);
                assert(m.owned.contains_key(chosen));
            }
            result.push(owner_name.clone());
            let mine = match hashes_get(&self.node_to_hashes, &owner_name) {
                Some(v) => v,
                None => vstd::pervasive::unreached(),
            };
            proof {
                assert(mine@ == m.owned[chosen]);
                assert forall|x: u64| #[trigger] m.owner.contains_key(x) implies (mine@.contains(
                    x,
                ) <==> m.owner[x] == chosen) by {
                    if m.owner[x] == chosen {
                        assert(m.owned[m.owner[x]].contains(x));
                    }
                    if mine@.contains(x) {
                        let k = choose|k: int| 0 <= k < mine@.len() && mine@[k] == x;
                        assert(m.owner[m.owned[chosen][k]] == chosen);
                    }
                }
            }
            working = retain_ring(&working, &mine);
            if let Some(c) = consumed_resources {
                let avail = match budget_get(&self.nodes, &owner_name) {
                    Some(v) => v,
                    None => vstd::pervasive::unreached(),
                };
                let next = debit(avail, c);
                let found = budget_set(&mut self.nodes, &owner_name, next);
                proof {
                    assert(found);
                }
            }
            proof {
                // this round matched the specification step exactly
                let keep_mine = |h: u64| !mine@.contains(h);
                let keep_spec = keeps_other(m.owner, chosen);
                assert forall|k: int| 0 <= k < pre_working.len() implies (keep_mine(
                    #[trigger] pre_working[k],
                ) <==> keep_spec(pre_working[k])) by {
                    assert(m.ring.contains(pre_working[k]));
                    assert(m.ring.to_set().contains(pre_working[k]));
                }
                lemma_filter_equiv(pre_working, keep_mine, keep_spec);
                lemma_filter_props(pre_working, keep_spec);
                assert(working@ == pre_working.filter(keep_spec));
                assert forall|k: int| 0 <= k < working@.len() implies m.ring.contains(
                    #[trigger] working@[k],
                ) by {
                    assert(working@.contains(working@[k]));
                    let j = choose|j: int|
                        0 <= j < pre_working.len() && pre_working[j] == working@[k];
                }
                assert(names_of(result@) =~= pre_acc.push(chosen));
                assert(alist_map(self.nodes@).dom() =~= m.budgets.dom());
                assert(spec_rounds(
                    m.owner,
                    pre_budgets,
                    pre_working,
                    entity@,
                    consumed_resources,
                    r as nat,
                    replica as nat,
                    pre_acc,
                ) == spec_rounds(
                    m.owner,
                    alist_map(self.nodes@),
                    working@,
                    entity@,
                    consumed_resources,
                    r as nat + 1,
                    replica as nat,
                    names_of(result@),
                ));
            }
            r += 1;
        }
        proof {
            let d = spec_distribute(m, entity@, entity_replica, consumed_resources);
            assert(d == spec_rounds(
                m.owner,
                m.budgets,
                working0,
                entity@,
                consumed_resources,
                0,
                replica as nat,
                Seq::<Seq<char>>::empty(),
            ));
            assert(names_of(result@) == d.0 && alist_map(self.nodes@) == d.1);
            assert(self@ =~= RingModel { budgets: d.1, ..m });
            // only budget values changed, so the invariant carries over
            assert forall|h: u64| #[trigger] self@.owner.contains_key(h) implies
                self@.budgets.contains_key(self@.owner[h]) by {
                assert(m.budgets.contains_key(m.owner[h]));
            }
            assert(self@.owned.dom() =~= self@.budgets.dom());
            assert(self.wf());
        }
        result
    }

    /// Remove a node and every virtual-node position it owns; an unknown
    /// identifier is ignored. The ring retains no stale position.
    pub fn remove(&mut self, node: String)
        requires
            old(self).wf(),
        ensures
            final(self).wf(),
            final(self)@ == spec_remove(old(self)@, node@),
    {
        self.remove_ref(&node);
    }

    fn remove_ref(&mut self, node: &String)
        requires
            old(self).wf(),
        ensures
            final(self).wf(),
            final(self)@ == spec_remove(old(self)@, node@),
    {
        let ghost m = self@;
        let present = budget_get(&self.nodes, node);
        if present.is_none() {
            return;
        }
        let mine = match hashes_get(&self.node_to_hashes, node) {
            Some(v) => v,
            None => vstd::pervasive::unreached(),
        };
        proof {
            assert(mine@ == m.owned[node@]);
            assert forall|h: u64| #[trigger] m.owner.contains_key(h) implies (mine@.contains(h)
                <==> m.owner[h] == node@) by {
                if m.owner[h] == node@ {
                    assert(m.owned[m.owner[h]].contains(h));
                }
                if mine@.contains(h) {
                    let k = choose|k: int| 0 <= k < mine@.len() && mine@[k] == h;
                    assert(m.owner[m.owned[node@][k]] == node@);
                }
            }
        }
        let new_ring = retain_ring(&self.ring, &mine);
        let new_index = retain_index(&self.hash_to_node, &mine);
        let new_hashes = retain_hashes(&self.node_to_hashes, node);
        let new_nodes = retain_nodes(&self.nodes, node);
        self.ring = new_ring;
        self.hash_to_node = new_index;
        self.node_to_hashes = new_hashes;
        self.nodes = new_nodes;
        proof {
            let m2 = spec_remove(m, node@);
            let ring_keep = |h: u64| !mine@.contains(h);
            let ring_spec = keeps_other(m.owner, node@);
            lemma_filter_props(m.ring, ring_keep);
            lemma_filter_props(m.ring, ring_spec);
            assert forall|i: int| 0 <= i < m.ring.len() implies (ring_keep(#[trigger] m.ring[i])
                <==> ring_spec(m.ring[i])) by {
                assert(m.ring.contains(m.ring[i]));
                assert(m.ring.to_set().contains(m.ring[i]));
            }
            lemma_filter_equiv(m.ring, ring_keep, ring_spec);
            assert(self.ring@ == m2.ring);

            // the reverse index drops exactly the removed positions
            let index_keep = |p: (u64, String)| !mine@.contains(p.0);
            let index_kp = |h: u64| !mine@.contains(h);
            lemma_alist_filter(old(self).hash_to_node@, index_keep, index_kp);
            lemma_alist_map(old(self).hash_to_node@);
            assert(alist_map(self.hash_to_node@) =~= m2.owner);

            // the registry drops exactly the removed node
            let nodes_keep = |p: (String, i64)| p.0@ != node@;
            let nodes_kp = |k: Seq<char>| k != node@;
            lemma_alist_filter(old(self).nodes@, nodes_keep, nodes_kp);
            lemma_alist_map(old(self).nodes@);
            assert(alist_map(self.nodes@) =~= m2.budgets);

            assert(self@ =~= m2);

            // the invariant survives: every kept position keeps its owner,
            // and that owner is still registered
            assert(sorted_strict(m2.ring));
            assert(m2.owner.dom() =~= m2.ring.to_set());
            assert forall|h: u64| #[trigger] m2.owner.contains_key(h) implies
                m2.budgets.contains_key(m2.owner[h]) by {
                assert(m.budgets.contains_key(m.owner[h]));
            }
            assert(m2.owned.dom() =~= m2.budgets.dom());
            assert forall|n: Seq<char>, k: int|
                m2.owned.contains_key(n) && 0 <= k < m2.owned[n].len() implies
                m2.owner.contains_key(#[trigger] m2.owned[n][k]) && m2.owner[m2.owned[n][k]]
                    == n by {
                assert(m.owned.contains_key(n) && m.owned[n] == m2.owned[n]);
                assert(m.owner.contains_key(m.owned[n][k]) && m.owner[m.owned[n][k]] == n);
            }
            assert forall|h: u64| #[trigger] m2.owner.contains_key(h) implies
                m2.owned.contains_key(m2.owner[h]) && m2.owned[m2.owner[h]].contains(h) by {
                assert(m.owner.contains_key(h));
                assert(m.owned[m.owner[h]].contains(h));
            }
            assert forall|n: Seq<char>| #[trigger] m2.owned.contains_key(n) implies
                m2.owned[n].no_duplicates() by {
                assert(m.owned.contains_key(n) && m.owned[n] == m2.owned[n]);
            }
            assert(self.wf());
        }
    }
}

/// The identifiers a list of node names stands for.
pub open spec fn names_of(ss: Seq<String>) -> Seq<Seq<char>> {
    ss.map_values(|s: String| s@)
}

/// Subtract a consumed amount from a budget, clamping at the representable
/// range.
fn debit(avail: i64, c: i64) -> (r: i64)
    ensures
        r == spec_debit(avail, c),
{
    match avail.checked_sub(c) {
        Some(v) => v,
        None => if c >= 0 {
            i64::MIN
        } else {
            i64::MAX
        },
    }
}

/// The virtual-node positions of one node, in replica order.
fn add_node(node: &str, replicas: u16) -> (hashes: Vec<u64>)
    ensures
        hashes@ == vnode_seq(node@, replicas as nat),
{
    let mut hashes: Vec<u64> = Vec::new();
    let mut r: u16 = 0;
    while r < replicas
        invariant
            r <= replicas,
            hashes@.len() == r as nat,
            forall|k: int| 0 <= k < r ==> hashes@[k] == vnode_hash(node@, k as nat),
        decreases replicas - r,
    {
        let label = make_label(node, r);
        let h = hash(label.as_str());
        hashes.push(h);
        r += 1;
    }
    proof {
        assert(hashes@ =~= vnode_seq(node@, replicas as nat));
    }
    hashes
}

/// Build the ring and both indices for the listed nodes, deriving several
/// virtual nodes per physical node for a more uniform distribution. Budgets
/// play no role here: the result is the structure an engine over these nodes
/// holds, whatever budgets they advertise.
pub fn build_ring(nodes: Vec<String>, replicas: u16) -> (r: (
    Vec<u64>,
    Vec<(u64, String)>,
    Vec<(String, Vec<u64>)>,
))
    ensures
        ({
            let m = spec_new(nodes@.map_values(|id: String| (id, 0i64)), replicas);
            r.0@ == m.ring && alist_map(r.1@) == m.owner && alist_map(r.2@) == m.owned
        }),
        sorted_strict(r.0@),
        alist_unique(r.1@),
        alist_unique(r.2@),
{
    let ghost pairs = nodes@.map_values(|id: String| (id, 0i64));
    let mut engine = ConsistentHashing::new(Vec::new(), replicas);
    proof {
        assert(pairs.skip(0) =~= pairs);
    }
    let n = nodes.len();
    let mut i: usize = 0;
    while i < n
        invariant
            n == nodes@.len(),
            pairs == nodes@.map_values(|id: String| (id, 0i64)),
            i <= n,
            engine.wf(),
            spec_new_from(engine@, pairs.skip(i as int)) == spec_new(pairs, replicas),
        decreases n - i,
    {
        let ghost pre = engine@;
        engine.add(nodes[i].clone(), 0);
        proof {
            assert(pairs.skip(i as int)[0] == pairs[i as int]);
            assert(pairs[i as int] == (nodes@[i as int], 0i64));
            assert(pairs.skip(i as int).drop_first() =~= pairs.skip(i as int + 1));
            assert(spec_new_from(pre, pairs.skip(i as int)) == spec_new_from(
                engine@,
                pairs.skip(i as int + 1),
            ));
        }
        i += 1;
    }
    proof {
        assert(pairs.skip(n as int) =~= Seq::<(String, i64)>::empty());
    }
    (engine.ring, engine.hash_to_node, engine.node_to_hashes)
}

} // verus!
