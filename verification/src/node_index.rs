use vstd::prelude::*;

verus! {

/// The mapping an association list stands for: a later entry for a key
/// overrides an earlier one.
pub open spec fn alist_map<K: View, V: View>(s: Seq<(K, V)>) -> Map<K::V, V::V>
    decreases s.len(),
{
    if s.len() == 0 {
        Map::empty()
    } else {
        alist_map(s.drop_last()).insert(s.last().0@, s.last().1@)
    }
}

/// No two entries of the list share a key.
pub open spec fn alist_unique<K: View, V>(s: Seq<(K, V)>) -> bool {
    forall|i: int, j: int| 0 <= i < j < s.len() ==> s[i].0@ != s[j].0@
}

pub proof fn lemma_alist_map<K: View, V: View>(s: Seq<(K, V)>)
    ensures
        forall|k: K::V|
            #[trigger] alist_map(s).contains_key(k) <==> exists|i: int|
                0 <= i < s.len() && #[trigger] s[i].0@ == k,
        alist_unique(s) ==> forall|i: int|
            0 <= i < s.len() ==> alist_map(s)[#[trigger] s[i].0@] == s[i].1@,
    decreases s.len(),
{
    if s.len() > 0 {
        let sub = s.drop_last();
        lemma_alist_map(sub);
        assert forall|k: K::V| #[trigger] alist_map(s).contains_key(k) implies exists|i: int|
            0 <= i < s.len() && #[trigger] s[i].0@ == k by {
            if k != s.last().0@ {
                assert(alist_map(sub).contains_key(k));
                let i = choose|i: int| 0 <= i < sub.len() && #[trigger] sub[i].0@ == k;
                assert(s[i].0@ == k);
            } else {
                assert(s[s.len() - 1].0@ == k);
            }
        }
        assert forall|k: K::V| (exists|i: int| 0 <= i < s.len() && #[trigger] s[i].0@ == k)
            implies #[trigger] alist_map(s).contains_key(k) by {
            let i = choose|i: int| 0 <= i < s.len() && #[trigger] s[i].0@ == k;
            if i < s.len() - 1 {
                assert(sub[i].0@ == k);
                assert(alist_map(sub).contains_key(k));
            }
        }
        if alist_unique(s) {
            assert forall|i: int, j: int| 0 <= i < j < sub.len() implies sub[i].0@ != sub[j].0@ by {
                assert(s[i].0@ != s[j].0@);
            }
            assert forall|i: int| 0 <= i < s.len() implies alist_map(s)[#[trigger] s[i].0@]
                == s[i].1@ by {
                if i < s.len() - 1 {
                    assert(s[i].0@ != s.last().0@);
                    assert(sub[i].0@ == s[i].0@ && sub[i].1@ == s[i].1@);
                }
            }
        }
    }
}

/// Replacing the value at entry `i` updates the mapping at that entry's key.
pub proof fn lemma_alist_update<K: View, V: View>(s: Seq<(K, V)>, i: int, p: (K, V))
    requires
        alist_unique(s),
        0 <= i < s.len(),
        p.0@ == s[i].0@,
    ensures
        alist_unique(s.update(i, p)),
        alist_map(s.update(i, p)) == alist_map(s).insert(p.0@, p.1@),
    decreases s.len(),
{
    let t = s.update(i, p);
    assert forall|a: int, b: int| 0 <= a < b < t.len() implies t[a].0@ != t[b].0@ by {
        assert(s[a].0@ != s[b].0@);
    }
    let sub = s.drop_last();
    assert forall|a: int, b: int| 0 <= a < b < sub.len() implies sub[a].0@ != sub[b].0@ by {
        assert(s[a].0@ != s[b].0@);
    }
    if i == s.len() - 1 {
        assert(t.drop_last() =~= sub);
        assert(alist_map(t) =~= alist_map(s).insert(p.0@, p.1@));
    } else {
        lemma_alist_update(sub, i, p);
        assert(t.drop_last() =~= sub.update(i, p));
        assert(t.last() == s.last());
        assert(s.last().0@ != s[i].0@);
        assert(alist_map(t) =~= alist_map(s).insert(p.0@, p.1@));
    }
}

/// Dropping the entries whose keys a predicate rejects restricts the mapping
/// to the accepted keys.
pub proof fn lemma_alist_filter<K: View, V: View>(
    s: Seq<(K, V)>,
    keep: spec_fn((K, V)) -> bool,
    kp: spec_fn(K::V) -> bool,
)
    requires
        alist_unique(s),
        forall|p: (K, V)| #[trigger] keep(p) == kp(p.0@),
    ensures
        alist_unique(s.filter(keep)),
        forall|k: K::V|
            #[trigger] alist_map(s.filter(keep)).contains_key(k) <==> alist_map(
                s,
            ).contains_key(k) && kp(k),
        forall|k: K::V|
            #[trigger] alist_map(s.filter(keep)).contains_key(k) ==> alist_map(s.filter(keep))[k]
                == alist_map(s)[k],
    decreases s.len(),
{
    reveal(Seq::filter);
    lemma_alist_map(s);
    lemma_alist_map(s.filter(keep));
    if s.len() == 0 {
    } else {
        let sub = s.drop_last();
        assert forall|a: int, b: int| 0 <= a < b < sub.len() implies sub[a].0@ != sub[b].0@ by {
            assert(s[a].0@ != s[b].0@);
        }
        lemma_alist_filter(sub, keep, kp);
        lemma_alist_map(sub);
        lemma_alist_map(sub.filter(keep));
        let last = s.last();
        if keep(last) {
            assert(s.filter(keep) == sub.filter(keep).push(last));
            assert(s.filter(keep).drop_last() =~= sub.filter(keep));
            // the pushed key is fresh among the kept entries
            assert forall|a: int| 0 <= a < sub.filter(keep).len() implies sub.filter(keep)[a].0@
                != last.0@ by {
                assert(sub.filter(keep).contains(sub.filter(keep)[a]));
                sub.lemma_filter_contains_rev(keep, sub.filter(keep)[a]);
                let m = choose|m: int|
                    0 <= m < sub.len() && #[trigger] sub[m] == sub.filter(keep)[a];
                assert(s[m].0@ != s[s.len() - 1].0@);
            }
            assert(alist_map(s.filter(keep)) =~= alist_map(sub.filter(keep)).insert(
                last.0@,
                last.1@,
            ));
        } else {
            assert(s.filter(keep) == sub.filter(keep));
            assert forall|k: K::V| #[trigger] alist_map(s).contains_key(k) && kp(k) implies
                alist_map(s.filter(keep)).contains_key(k) by {
                assert(k != last.0@);
            }
        }
    }
}

/// Look up the resource budget recorded for `key`.
pub fn budget_get(s: &Vec<(String, i64)>, key: &String) -> (r: Option<i64>)
    requires
        alist_unique(s@),
    ensures
        r is Some <==> alist_map(s@).contains_key(key@),
        r matches Some(v) ==> v == alist_map(s@)[key@],
{
    proof {
        lemma_alist_map(s@);
    }
    let n = s.len();
    let mut i: usize = 0;
    while i < n
        invariant
            n == s@.len(),
            i <= n,
            alist_unique(s@),
            forall|j: int| 0 <= j < i ==> s@[j].0@ != key@,
        decreases n - i,
    {
        if s[i].0 == *key {
            proof {
                lemma_alist_map(s@);
            }
            return Some(s[i].1);
        }
        i += 1;
    }
    proof {
        lemma_alist_map(s@);
    }
    None
}

/// Overwrite the resource budget recorded for `key`, reporting whether the
/// node was known; an unknown node is left unrecorded.
pub fn budget_set(s: &mut Vec<(String, i64)>, key: &String, v: i64) -> (found: bool)
    requires
        alist_unique(old(s)@),
    ensures
        alist_unique(final(s)@),
        final(s)@.len() == old(s)@.len(),
        forall|j: int| 0 <= j < old(s)@.len() ==> final(s)@[j].0@ == #[trigger] old(s)@[j].0@,
        found == alist_map(old(s)@).contains_key(key@),
        found ==> alist_map(final(s)@) == alist_map(old(s)@).insert(key@, v),
        !found ==> final(s)@ == old(s)@,
{
    proof {
        lemma_alist_map(s@);
    }
    let n = s.len();
    let mut i: usize = 0;
    while i < n
        invariant
            n == s@.len(),
            i <= n,
            s@ == old(s)@,
            alist_unique(s@),
            forall|j: int| 0 <= j < i ==> s@[j].0@ != key@,
        decreases n - i,
    {
        if s[i].0 == *key {
            let ghost prev = s@;
            let entry = vstd::std_specs::vec::vec_index_mut(s, i);
            entry.1 = v;
            proof {
                assert(s@ =~= prev.update(i as int, (prev[i as int].0, v)));
                lemma_alist_update(prev, i as int, (prev[i as int].0, v));
                lemma_alist_map(prev);
            }
            return true;
        }
        i += 1;
    }
    proof {
        lemma_alist_map(s@);
    }
    false
}

/// Resolve a virtual-node hash to the owning node's identifier.
pub fn owner_get(s: &Vec<(u64, String)>, h: u64) -> (r: Option<String>)
    requires
        alist_unique(s@),
    ensures
        r is Some <==> alist_map(s@).contains_key(h),
        r matches Some(n) ==> n@ == alist_map(s@)[h],
{
    proof {
        lemma_alist_map(s@);
    }
    let n = s.len();
    let mut i: usize = 0;
    while i < n
        invariant
            n == s@.len(),
            i <= n,
            alist_unique(s@),
            forall|j: int| 0 <= j < i ==> s@[j].0@ != h,
        decreases n - i,
    {
        if s[i].0 == h {
            proof {
                lemma_alist_map(s@);
            }
            return Some(s[i].1.clone());
        }
        i += 1;
    }
    proof {
        lemma_alist_map(s@);
    }
    None
}

/// The virtual-node hashes recorded for node `key`, copied out.
pub fn hashes_get(s: &Vec<(String, Vec<u64>)>, key: &String) -> (r: Option<Vec<u64>>)
    requires
        alist_unique(s@),
    ensures
        r is Some <==> alist_map(s@).contains_key(key@),
        r matches Some(v) ==> v@ == alist_map(s@)[key@],
{
    proof {
        lemma_alist_map(s@);
    }
    let n = s.len();
    let mut i: usize = 0;
    while i < n
        invariant
            n == s@.len(),
            i <= n,
            alist_unique(s@),
            forall|j: int| 0 <= j < i ==> s@[j].0@ != key@,
        decreases n - i,
    {
        if s[i].0 == *key {
            proof {
                lemma_alist_map(s@);
            }
            return Some(copy_hashes(&s[i].1));
        }
        i += 1;
    }
    proof {
        lemma_alist_map(s@);
    }
    None
}

/// Copy a list of ring positions.
pub fn copy_hashes(v: &Vec<u64>) -> (r: Vec<u64>)
    ensures
        r@ == v@,
{
    let n = v.len();
    let mut r: Vec<u64> = Vec::new();
    let mut i: usize = 0;
    while i < n
        invariant
            n == v@.len(),
            i <= n,
            r@ == v@.subrange(0, i as int),
        decreases n - i,
    {
        r.push(v[i]);
        proof {
            assert(r@ =~= v@.subrange(0, i as int + 1));
        }
        i += 1;
    }
    proof {
        assert(v@.subrange(0, n as int) =~= v@);
    }
    r
}

/// Whether `h` occurs in a list of ring positions.
pub fn contains_hash(v: &Vec<u64>, h: u64) -> (r: bool)
    ensures
        r == v@.contains(h),
{
    let n = v.len();
    let mut i: usize = 0;
    while i < n
        invariant
            n == v@.len(),
            i <= n,
            forall|j: int| 0 <= j < i ==> v@[j] != h,
        decreases n - i,
    {
        if v[i] == h {
            return true;
        }
        i += 1;
    }
    false
}

} // verus!
