use vstd::prelude::*;

verus! {

/// The set of the elements of `s.push(x)` is that of `s` with `x` added.
pub proof fn lemma_push_to_set<A>(s: Seq<A>, x: A)
    ensures
        s.push(x).to_set() == s.to_set().insert(x),
{
    let t = s.push(x);
    assert forall|a: A| t.contains(a) <==> (s.contains(a) || a == x) by {
        if t.contains(a) {
            let i = choose|i: int| 0 <= i < t.len() && t[i] == a;
            if i < s.len() {
                assert(s[i] == a);
            }
        }
        if s.contains(a) {
            let i = choose|i: int| 0 <= i < s.len() && s[i] == a;
            assert(t[i] == a);
        }
        if a == x {
            assert(t[s.len() as int] == x);
        }
    }
    assert(t.to_set() =~= s.to_set().insert(x));
}

/// Pushing an element that `s` lacks keeps `s` free of duplicates.
pub proof fn lemma_push_no_duplicates<A>(s: Seq<A>, x: A)
    requires
        s.no_duplicates(),
        !s.contains(x),
    ensures
        s.push(x).no_duplicates(),
{
    let t = s.push(x);
    assert forall|i: int, j: int| 0 <= i < t.len() && 0 <= j < t.len() && i != j implies t[i] != t[j] by {
        if i == s.len() {
            assert(s.contains(t[j]));
        } else if j == s.len() {
            assert(s.contains(t[i]));
        }
    }
}

/// Adds `x` to `v` unless it is there already.
pub fn push_unique(v: &mut Vec<usize>, x: usize) -> (added: bool)
    requires
        old(v)@.no_duplicates(),
    ensures
        final(v)@.no_duplicates(),
        final(v)@.to_set() == old(v)@.to_set().insert(x),
        added == !old(v)@.contains(x),
        added ==> final(v)@ == old(v)@.push(x),
        !added ==> final(v)@ == old(v)@,
{
    let n = v.len();
    for i in 0..n
        invariant
            n == v@.len(),
            v@ == old(v)@,
            v@.no_duplicates(),
            forall|j: int| 0 <= j < i ==> v@[j] != x,
    {
        if v[i] == x {
            assert(v@.contains(x));
            assert(v@.to_set() =~= v@.to_set().insert(x));
            return false;
        }
    }
    assert(!v@.contains(x));
    proof {
        lemma_push_no_duplicates(v@, x);
        lemma_push_to_set(v@, x);
    }
    v.push(x);
    true
}

/// Adds to `v` every element of `w` that it lacks.
pub fn extend_unique(v: &mut Vec<usize>, w: &Vec<usize>)
    requires
        old(v)@.no_duplicates(),
    ensures
        final(v)@.no_duplicates(),
        final(v)@.to_set() == old(v)@.to_set().union(w@.to_set()),
        final(v)@.len() >= old(v)@.len(),
        final(v)@.len() == old(v)@.len() ==> final(v)@ == old(v)@,
{
    let n = w.len();
    for i in 0..n
        invariant
            n == w@.len(),
            v@.no_duplicates(),
            v@.to_set() == old(v)@.to_set().union(w@.subrange(0, i as int).to_set()),
            v@.len() >= old(v)@.len(),
            v@.len() == old(v)@.len() ==> v@ == old(v)@,
    {
        push_unique(v, w[i]);
        proof {
            assert(w@.subrange(0, i + 1) == w@.subrange(0, i as int).push(w@[i as int]));
            lemma_push_to_set(w@.subrange(0, i as int), w@[i as int]);
            assert(v@.to_set() =~= old(v)@.to_set().union(w@.subrange(0, i + 1).to_set()));
        }
    }
    assert(w@.subrange(0, n as int) =~= w@);
}

/// Two to the power `n`.
pub open spec fn pow2(n: nat) -> nat
    decreases n,
{
    if n == 0 {
        1
    } else {
        2 * pow2((n - 1) as nat)
    }
}

/// The subsets of `u`.
pub open spec fn subsets<A>(u: Set<A>) -> Set<Set<A>> {
    Set::new(|s: Set<A>| s.subset_of(u))
}

/// A finite set has finitely many subsets, at most two to the power of its
/// size.
pub proof fn lemma_subsets<A>(u: Set<A>)
    requires
        u.finite(),
    ensures
        subsets(u).finite(),
        subsets(u).len() <= pow2(u.len()),
    decreases u.len(),
{
    if u.len() == 0 {
        assert(u =~= Set::<A>::empty());
        assert(subsets(u) =~= set![Set::<A>::empty()]) by {
            assert forall|s: Set<A>| subsets(u).contains(s) <==> s == Set::<A>::empty() by {
                if subsets(u).contains(s) {
                    assert(s =~= Set::<A>::empty());
                }
            }
        }
        assert(set![Set::<A>::empty()].len() == 1);
    } else {
        let a = u.choose();
        let u2 = u.remove(a);
        lemma_subsets(u2);
        let p2 = subsets(u2);
        let f = |s: Set<A>| s.insert(a);
        p2.lemma_map_finite(f);
        vstd::set_lib::lemma_map_size_bound(p2, p2.map(f), f);
        assert forall|s: Set<A>| #[trigger] subsets(u).contains(s) <==> (p2.contains(s) || p2.map(f).contains(s)) by {
            if subsets(u).contains(s) {
                if !s.contains(a) {
                    assert(p2.contains(s));
                } else {
                    let t = s.remove(a);
                    assert(p2.contains(t));
                    assert(f(t) =~= s);
                }
            }
            if p2.map(f).contains(s) {
                let t = choose|t: Set<A>| p2.contains(t) && f(t) == s;
                assert(s.subset_of(u));
            }
        }
        assert(subsets(u) =~= p2.union(p2.map(f)));
        vstd::set_lib::lemma_len_union(p2, p2.map(f));
    }
}

/// A sequence of distinct subsets of a finite set `u` is at most two to the
/// power of the size of `u` long.
pub proof fn lemma_distinct_subsets<A>(ss: Seq<Set<A>>, u: Set<A>)
    requires
        u.finite(),
        forall|i: int| 0 <= i < ss.len() ==> (#[trigger] ss[i]).subset_of(u),
        ss.no_duplicates(),
    ensures
        ss.len() <= pow2(u.len()),
{
    lemma_subsets(u);
    ss.unique_seq_to_set();
    assert(ss.to_set().subset_of(subsets(u)));
    vstd::set_lib::lemma_len_subset(ss.to_set(), subsets(u));
}

/// The pairs of an element of `a` and one of `b`.
pub open spec fn pairs<X, Y>(a: Set<X>, b: Set<Y>) -> Set<(X, Y)> {
    Set::new(|p: (X, Y)| a.contains(p.0) && b.contains(p.1))
}

/// The pairs of two finite sets are finitely many.
pub proof fn lemma_pairs_finite<X, Y>(a: Set<X>, b: Set<Y>)
    requires
        a.finite(),
        b.finite(),
    ensures
        pairs(a, b).finite(),
    decreases b.len(),
{
    if b.len() == 0 {
        assert(b =~= Set::<Y>::empty());
        assert(pairs(a, b) =~= Set::<(X, Y)>::empty());
    } else {
        let y = b.choose();
        lemma_pairs_finite(a, b.remove(y));
        let f = |x: X| (x, y);
        a.lemma_map_finite(f);
        assert forall|p: (X, Y)| #[trigger] pairs(a, b).contains(p) <==> (pairs(a, b.remove(y)).contains(p) || a.map(f).contains(p)) by {
            if pairs(a, b).contains(p) && p.1 == y {
                assert(f(p.0) == p);
            }
        }
        assert(pairs(a, b) =~= pairs(a, b.remove(y)).union(a.map(f)));
    }
}

} // verus!
