use vstd::prelude::*;

verus! {

/// The ring is kept strictly ascending: sorted, with no duplicate entries.
pub open spec fn sorted_strict(s: Seq<u64>) -> bool {
    forall|i: int, j: int| 0 <= i < j < s.len() ==> s[i] < s[j]
}

/// Index of the first entry `>= t`, or `s.len()` when every entry is below `t`.
pub open spec fn first_geq(s: Seq<u64>, t: u64) -> int
    decreases s.len(),
{
    if s.len() == 0 {
        0
    } else if s[0] >= t {
        0
    } else {
        1 + first_geq(s.drop_first(), t)
    }
}

pub proof fn lemma_first_geq(s: Seq<u64>, t: u64)
    ensures
        0 <= first_geq(s, t) <= s.len(),
        forall|j: int| 0 <= j < first_geq(s, t) ==> s[j] < t,
        first_geq(s, t) < s.len() ==> s[first_geq(s, t)] >= t,
    decreases s.len(),
{
    if s.len() > 0 && s[0] < t {
        let rest = s.drop_first();
        lemma_first_geq(rest, t);
        assert forall|j: int| 0 <= j < first_geq(s, t) implies s[j] < t by {
            if j > 0 {
                assert(rest[j - 1] == s[j]);
            }
        }
        if first_geq(s, t) < s.len() {
            assert(rest[first_geq(rest, t)] == s[first_geq(s, t)]);
        }
    }
}

/// An index below which every entry is `< t` and at which (if in range) the
/// entry is `>= t` is exactly `first_geq`.
pub proof fn lemma_first_geq_is(s: Seq<u64>, t: u64, i: int)
    requires
        0 <= i <= s.len(),
        forall|j: int| 0 <= j < i ==> s[j] < t,
        i < s.len() ==> s[i] >= t,
    ensures
        first_geq(s, t) == i,
{
    lemma_first_geq(s, t);
    let f = first_geq(s, t);
    if f < i {
        assert(s[f] < t);
    } else if i < f {
        assert(s[i] < t);
    }
}

/// The ring entry that owns target `t`: the smallest entry `>= t`, or the
/// largest entry when `t` lies past every entry of the ring.
pub open spec fn spec_successor(s: Seq<u64>, t: u64) -> u64
    recommends
        s.len() > 0,
{
    let i = first_geq(s, t);
    if i < s.len() {
        s[i]
    } else {
        s[s.len() - 1]
    }
}

pub proof fn lemma_successor(s: Seq<u64>, t: u64)
    requires
        s.len() > 0,
        sorted_strict(s),
    ensures
        s.contains(spec_successor(s, t)),
        (exists|k: int| 0 <= k < s.len() && s[k] >= t) ==> spec_successor(s, t) >= t,
        forall|k: int| 0 <= k < s.len() && s[k] >= t ==> spec_successor(s, t) <= s[k],
        !(exists|k: int| 0 <= k < s.len() && s[k] >= t) ==> spec_successor(s, t) == s[s.len()
            - 1],
{
    lemma_first_geq(s, t);
    let i = first_geq(s, t);
    if i < s.len() {
        assert(s[i] == spec_successor(s, t));
        assert(s.contains(s[i]));
        assert forall|k: int| 0 <= k < s.len() && s[k] >= t implies spec_successor(s, t)
            <= s[k] by {
            if k < i {
                assert(s[k] < t);
            }
        }
    } else {
        assert(s.contains(s[s.len() - 1]));
        assert forall|k: int| 0 <= k < s.len() implies s[k] < t by {}
    }
}

/// Insert `h` into a sorted ring, keeping it sorted; a position already on
/// the ring is left alone.
pub open spec fn ring_insert(s: Seq<u64>, h: u64) -> Seq<u64> {
    let i = first_geq(s, h);
    if i < s.len() && s[i] == h {
        s
    } else {
        s.insert(i, h)
    }
}

pub proof fn lemma_ring_insert(s: Seq<u64>, h: u64)
    requires
        sorted_strict(s),
    ensures
        sorted_strict(ring_insert(s, h)),
        forall|x: u64| ring_insert(s, h).contains(x) <==> s.contains(x) || x == h,
        s.contains(h) ==> ring_insert(s, h) == s,
        !s.contains(h) ==> ring_insert(s, h).len() == s.len() + 1,
{
    lemma_first_geq(s, h);
    let i = first_geq(s, h);
    let out = ring_insert(s, h);
    if i < s.len() && s[i] == h {
        assert(s.contains(h));
        assert forall|x: u64| out.contains(x) implies s.contains(x) || x == h by {}
    } else {
        // h is not on the ring: entries below i are < h, entries at or past i
        // are > h.
        assert forall|k: int| i <= k < s.len() implies s[k] > h by {
            if k == i {
                assert(s[i] >= h && s[i] != h);
            } else {
                assert(s[i] < s[k]);
            }
        }
        assert(!s.contains(h));
        let t = s.insert(i, h);
        assert forall|p: int, q: int| 0 <= p < q < t.len() implies t[p] < t[q] by {
            if p < i && q < i {
            } else if p < i && q == i {
                assert(t[p] == s[p]);
            } else if p == i {
                assert(t[q] == s[q - 1] && q - 1 >= i);
            } else if q > i && p > i {
                assert(t[p] == s[p - 1] && t[q] == s[q - 1]);
            } else {
                assert(t[p] == s[p] && t[q] == s[q - 1] && q - 1 >= i);
            }
        }
        assert forall|x: u64| out.contains(x) implies s.contains(x) || x == h by {
            let k = choose|k: int| 0 <= k < out.len() && out[k] == x;
            if k < i {
                assert(s[k] == x);
                assert(s.contains(x));
            } else if k > i {
                assert(s[k - 1] == x);
                assert(s.contains(x));
            }
        }
        assert forall|x: u64| s.contains(x) || x == h implies out.contains(x) by {
            if x == h {
                assert(out[i] == h);
            } else {
                let k = choose|k: int| 0 <= k < s.len() && s[k] == x;
                if k < i {
                    assert(out[k] == x);
                } else {
                    assert(out[k + 1] == x);
                }
            }
        }
    }
}

/// Filtering keeps exactly the entries the predicate admits, preserves the
/// ring order, and never grows the ring.
pub proof fn lemma_filter_props(s: Seq<u64>, pred: spec_fn(u64) -> bool)
    ensures
        forall|x: u64| #[trigger] s.filter(pred).contains(x) <==> s.contains(x) && pred(x),
        sorted_strict(s) ==> sorted_strict(s.filter(pred)),
        s.filter(pred).len() <= s.len(),
    decreases s.len(),
{
    reveal(Seq::filter);
    let f = s.filter(pred);
    if s.len() == 0 {
        assert forall|x: u64| #[trigger] f.contains(x) implies s.contains(x) && pred(x) by {}
    } else {
        let sub = s.drop_last();
        lemma_filter_props(sub, pred);
        let fsub = sub.filter(pred);
        assert forall|x: u64| #[trigger] f.contains(x) implies s.contains(x) && pred(x) by {
            let k = choose|k: int| 0 <= k < f.len() && f[k] == x;
            if pred(s.last()) && k == f.len() - 1 {
                assert(s[s.len() - 1] == x);
            } else {
                assert(fsub[k] == x);
                assert(fsub.contains(x));
                let m = choose|m: int| 0 <= m < sub.len() && sub[m] == x;
                assert(s[m] == x);
            }
        }
        assert forall|x: u64| s.contains(x) && pred(x) implies #[trigger] f.contains(x) by {
            let k = choose|k: int| 0 <= k < s.len() && s[k] == x;
            if k == s.len() - 1 {
                assert(f[f.len() - 1] == x);
            } else {
                assert(sub[k] == x);
                assert(sub.contains(x));
                assert(fsub.contains(x));
                let m = choose|m: int| 0 <= m < fsub.len() && fsub[m] == x;
                assert(f[m] == x);
            }
        }
        if sorted_strict(s) {
            assert forall|p: int, q: int| 0 <= p < q < sub.len() implies sub[p] < sub[q] by {
                assert(s[p] == sub[p] && s[q] == sub[q]);
            }
            if pred(s.last()) {
                assert forall|p: int, q: int| 0 <= p < q < f.len() implies f[p] < f[q] by {
                    if q == f.len() - 1 {
                        assert(fsub.contains(fsub[p]));
                        let m = choose|m: int| 0 <= m < sub.len() && sub[m] == fsub[p];
                        assert(s[m] < s[s.len() - 1]);
                    }
                }
            }
        }
    }
}

/// Appending one entry to the input extends the filtered sequence by that
/// entry exactly when the predicate admits it.
pub proof fn lemma_filter_push<A>(s: Seq<A>, x: A, pred: spec_fn(A) -> bool)
    ensures
        s.push(x).filter(pred) == if pred(x) {
            s.filter(pred).push(x)
        } else {
            s.filter(pred)
        },
{
    reveal(Seq::filter);
    assert(s.push(x).drop_last() =~= s);
    assert(s.push(x).last() == x);
}

/// Predicates that agree on every element of a sequence filter it alike.
pub proof fn lemma_filter_equiv<A>(s: Seq<A>, p1: spec_fn(A) -> bool, p2: spec_fn(A) -> bool)
    requires
        forall|i: int| 0 <= i < s.len() ==> (p1(#[trigger] s[i]) <==> p2(s[i])),
    ensures
        s.filter(p1) == s.filter(p2),
    decreases s.len(),
{
    reveal(Seq::filter);
    if s.len() > 0 {
        let sub = s.drop_last();
        assert forall|i: int| 0 <= i < sub.len() implies (p1(#[trigger] sub[i]) <==> p2(
            sub[i],
        )) by {
            assert(s[i] == sub[i]);
        }
        lemma_filter_equiv(sub, p1, p2);
        assert(p1(s.last()) <==> p2(s.last()));
    }
}

/// Minimal disruption, shrinking side: dropping ring entries never moves an
/// entity whose owning entry survives. If the successor of `t` is admitted by
/// the predicate, it is still the successor of `t` on the filtered ring.
pub proof fn lemma_successor_after_removal(s: Seq<u64>, pred: spec_fn(u64) -> bool, t: u64)
    requires
        sorted_strict(s),
        s.len() > 0,
        pred(spec_successor(s, t)),
    ensures
        s.filter(pred).len() > 0,
        spec_successor(s.filter(pred), t) == spec_successor(s, t),
{
    lemma_filter_props(s, pred);
    lemma_successor(s, t);
    let v = spec_successor(s, t);
    let f = s.filter(pred);
    assert(f.contains(v));
    let vi = choose|vi: int| 0 <= vi < f.len() && f[vi] == v;
    lemma_successor(f, t);
    let w = spec_successor(f, t);
    assert(f.contains(w));
    let wi = choose|wi: int| 0 <= wi < f.len() && f[wi] == w;
    assert(s.contains(w));
    let ws = choose|ws: int| 0 <= ws < s.len() && s[ws] == w;
    if exists|k: int| 0 <= k < s.len() && s[k] >= t {
        assert(v >= t);
        assert(f[vi] >= t);
        assert(w >= t);
        assert(w <= f[vi]);
        assert(v <= s[ws]);
    } else {
        assert forall|k: int| 0 <= k < f.len() implies f[k] < t by {
            assert(f.contains(f[k]));
            let m = choose|m: int| 0 <= m < s.len() && s[m] == f[k];
        }
        assert(w == f[f.len() - 1]);
        assert(v == s[s.len() - 1]);
        assert(f[vi] <= f[f.len() - 1]);
        assert(s[ws] <= s[s.len() - 1]);
    }
}

/// Minimal disruption, growing side: on a grown ring, an entity whose owning
/// entry already belonged to the old ring was owned by that same entry
/// before. Only entities captured by the new entries move.
pub proof fn lemma_successor_after_insertion(old_ring: Seq<u64>, new_ring: Seq<u64>, t: u64)
    requires
        sorted_strict(old_ring),
        sorted_strict(new_ring),
        old_ring.len() > 0,
        forall|x: u64| old_ring.contains(x) ==> new_ring.contains(x),
        old_ring.contains(spec_successor(new_ring, t)),
    ensures
        spec_successor(old_ring, t) == spec_successor(new_ring, t),
{
    assert(new_ring.contains(old_ring[0]));
    assert(new_ring.len() > 0);
    lemma_successor(old_ring, t);
    lemma_successor(new_ring, t);
    let v = spec_successor(new_ring, t);
    let w = spec_successor(old_ring, t);
    let vo = choose|vo: int| 0 <= vo < old_ring.len() && old_ring[vo] == v;
    assert(new_ring.contains(w));
    let wn = choose|wn: int| 0 <= wn < new_ring.len() && new_ring[wn] == w;
    if exists|k: int| 0 <= k < new_ring.len() && new_ring[k] >= t {
        assert(v >= t);
        assert(old_ring[vo] >= t);
        assert(w >= t);
        assert(w <= old_ring[vo]);
        assert(new_ring[wn] >= t);
        assert(v <= new_ring[wn]);
    } else {
        assert forall|k: int| 0 <= k < old_ring.len() implies old_ring[k] < t by {
            assert(old_ring.contains(old_ring[k]));
            assert(new_ring.contains(old_ring[k]));
            let m = choose|m: int| 0 <= m < new_ring.len() && new_ring[m] == old_ring[k];
        }
        assert(v == new_ring[new_ring.len() - 1]);
        assert(w == old_ring[old_ring.len() - 1]);
        assert(old_ring[vo] <= old_ring[old_ring.len() - 1]);
        assert(new_ring[wn] <= new_ring[new_ring.len() - 1]);
    }
}

/// Binary search by recursive halving for the first ring entry `>= t` within
/// `[lo, hi)`; entries below `lo` are known to be `< t`, entries at or past
/// `hi` are known to be `>= t`. An exact match returns immediately.
fn lower_bound_in(nodes: &[u64], t: u64, lo: usize, hi: usize) -> (i: usize)
    requires
        sorted_strict(nodes@),
        lo <= hi <= nodes@.len(),
        forall|j: int| 0 <= j < lo ==> nodes@[j] < t,
        forall|j: int| hi <= j < nodes@.len() ==> nodes@[j] >= t,
    ensures
        i == first_geq(nodes@, t),
    decreases hi - lo,
{
    if lo >= hi {
        proof {
            lemma_first_geq_is(nodes@, t, lo as int);
        }
        lo
    } else {
        let mid = lo + (hi - lo) / 2;
        let v = nodes[mid];
        if v == t {
            proof {
                assert forall|j: int| 0 <= j < mid implies nodes@[j] < t by {
                    if j >= lo {
                        assert(nodes@[j] < nodes@[mid as int]);
                    }
                }
                lemma_first_geq_is(nodes@, t, mid as int);
            }
            mid
        } else if v < t {
            lower_bound_in(nodes, t, mid + 1, hi)
        } else {
            proof {
                assert forall|j: int| mid <= j < nodes@.len() implies nodes@[j] >= t by {
                    if j > mid {
                        assert(nodes@[mid as int] < nodes@[j]);
                    }
                }
            }
            lower_bound_in(nodes, t, lo, mid)
        }
    }
}

/// First ring entry `>= t`, as an index; `nodes.len()` when there is none.
pub fn lower_bound(nodes: &[u64], t: u64) -> (i: usize)
    requires
        sorted_strict(nodes@),
    ensures
        i == first_geq(nodes@, t),
{
    lower_bound_in(nodes, t, 0, nodes.len())
}

/// Locate the ring entry that owns `target`: the smallest entry `>= target`,
/// or the largest entry when `target` exceeds every entry. The ring must not
/// be empty; placement guards that before searching.
pub fn search_node(nodes: &[u64], target: u64) -> (h: u64)
    requires
        sorted_strict(nodes@),
        nodes@.len() > 0,
    ensures
        h == spec_successor(nodes@, target),
{
    let i = lower_bound(nodes, target);
    proof {
        lemma_first_geq(nodes@, target);
    }
    if i < nodes.len() {
        nodes[i]
    } else {
        nodes[nodes.len() - 1]
    }
}

} // verus!
