//! Ascending listings of sets of prices.
use vstd::prelude::*;
use vstd::std_specs::btree::increasing_seq;

verus! {

/// `ps` lists the prices of `s` in ascending order.
pub open spec fn ascending(ps: Seq<u128>, s: Set<u128>) -> bool {
    &&& ps.to_set() == s
    &&& ps.no_duplicates()
    &&& forall|i: int, j: int| 0 <= i < j < ps.len() ==> ps[i] < ps[j]
}

/// The first price listed is the lowest of the set, the last the highest.
pub proof fn lemma_ascending_min_max(ps: Seq<u128>, s: Set<u128>)
    requires
        ascending(ps, s),
        ps.len() > 0,
    ensures
        s.contains(ps[0]),
        s.contains(ps[ps.len() - 1]),
        forall|x: u128| s.contains(x) ==> ps[0] <= x <= ps[ps.len() - 1],
{
    assert(ps.contains(ps[0]));
    assert(ps.contains(ps[ps.len() - 1]));
    assert forall|x: u128| s.contains(x) implies ps[0] <= x <= ps[ps.len() - 1] by {
        assert(ps.to_set().contains(x));
        let k = choose|k: int| 0 <= k < ps.len() && ps[k] == x;
        if k > 0 {
            assert(ps[0] < ps[k]);
        }
        if k < ps.len() - 1 {
            assert(ps[k] < ps[ps.len() - 1]);
        }
    }
}

/// The listing is empty exactly when the set is.
pub proof fn lemma_ascending_empty(ps: Seq<u128>, s: Set<u128>)
    requires
        ascending(ps, s),
    ensures
        ps.len() == 0 <==> s =~= Set::<u128>::empty(),
{
    if ps.len() > 0 {
        assert(ps.contains(ps[0]));
        assert(s.contains(ps[0]));
    } else {
        assert(ps.to_set() =~= Set::<u128>::empty());
    }
}

/// Taking one element out of a sequence without duplicates takes it out of its set.
pub proof fn lemma_remove_no_dup<A>(s: Seq<A>, i: int)
    requires
        s.no_duplicates(),
        0 <= i < s.len(),
    ensures
        s.remove(i).no_duplicates(),
        s.remove(i).to_set() == s.to_set().remove(s[i]),
{
    let r = s.remove(i);
    assert forall|a: int, b: int| 0 <= a < b < r.len() implies r[a] != r[b] by {
        let a0 = if a < i { a } else { a + 1 };
        let b0 = if b < i { b } else { b + 1 };
        assert(r[a] == s[a0] && r[b] == s[b0]);
    }
    assert forall|x: A| r.to_set().contains(x) <==> s.to_set().remove(s[i]).contains(x) by {
        if r.to_set().contains(x) {
            let a = choose|a: int| 0 <= a < r.len() && r[a] == x;
            let a0 = if a < i { a } else { a + 1 };
            assert(s[a0] == x);
        }
        if s.to_set().remove(s[i]).contains(x) {
            let a = choose|a: int| 0 <= a < s.len() && s[a] == x;
            let a1 = if a < i { a } else { a - 1 };
            assert(r[a1] == x);
        }
    }
    assert(r.to_set() =~= s.to_set().remove(s[i]));
}

/// Two ascending listings of the same prices are the same.
pub proof fn lemma_ascending_unique(p1: Seq<u128>, p2: Seq<u128>, s: Set<u128>)
    requires
        ascending(p1, s),
        ascending(p2, s),
    ensures
        p1 == p2,
    decreases p1.len(),
{
    lemma_ascending_empty(p1, s);
    lemma_ascending_empty(p2, s);
    if p1.len() == 0 {
        assert(p1 =~= p2);
    } else {
        lemma_ascending_min_max(p1, s);
        lemma_ascending_min_max(p2, s);
        let m = p1[p1.len() - 1];
        assert(m == p2[p2.len() - 1]);
        let q1 = p1.remove(p1.len() - 1);
        let q2 = p2.remove(p2.len() - 1);
        lemma_remove_no_dup(p1, p1.len() - 1);
        lemma_remove_no_dup(p2, p2.len() - 1);
        assert(ascending(q1, s.remove(m)));
        assert(ascending(q2, s.remove(m)));
        lemma_ascending_unique(q1, q2, s.remove(m));
        assert(p1 =~= q1.push(m));
        assert(p2 =~= q2.push(m));
    }
}

/// A sequence of price references that a B-tree lists in increasing order strictly ascends.
pub proof fn lemma_increasing(rem: Seq<&u128>)
    requires
        increasing_seq(rem),
    ensures
        forall|i: int, j: int| 0 <= i < j < rem.len() ==> *rem[i] < *rem[j],
{
    assert(vstd::laws_cmp::obeys_cmp::<&u128>());
    assert forall|i: int, j: int| 0 <= i < j < rem.len() implies *rem[i] < *rem[j] by {
        assert(vstd::std_specs::cmp::OrdSpec::cmp_spec(&rem[i], &rem[j]) is Less);
    }
}

/// Prices are ordered as B-trees expect their keys to be.
pub proof fn lemma_prices_ordered()
    ensures
        vstd::laws_cmp::obeys_cmp::<u128>(),
{
}

} // verus!
