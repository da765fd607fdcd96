use vstd::prelude::*;

use crate::grammar::{Grammar, Symbol, FirstSets, first_of, first_of_body, body_defined, occurs_terminal, lemma_first_of_within};
use crate::seqs::extend_unique;

verus! {

/// The FOLLOW set of one nonterminal: the terminals that can follow it in
/// a sentential form, and whether the endmarker can.
#[derive(Debug, Clone)]
pub struct FollowSet {
    pub terminals: Vec<usize>,
    pub endmarker: bool,
}

/// The FOLLOW sets of the nonterminals of a grammar, indexed by nonterminal.
#[derive(Debug, Clone)]
pub struct FollowSets {
    pub sets: Vec<FollowSet>,
}

impl FollowSets {
    pub open spec fn terms(self, n: int) -> Set<usize> {
        self.sets@[n].terminals@.to_set()
    }

    pub open spec fn endmarker(self, n: int) -> bool {
        self.sets@[n].endmarker
    }

    /// One entry per nonterminal of `g`, no terminal listed twice.
    pub open spec fn wf(self, g: Grammar) -> bool {
        &&& self.sets@.len() == g.num_nonterminals()
        &&& forall|n: int| 0 <= n < self.sets@.len() ==> (#[trigger] self.sets@[n]).terminals@.no_duplicates()
    }
}

/// What follows position `i` of production `r` of `a`: FIRST of the rest of
/// the body after that position.
pub open spec fn first_after(g: Grammar, fs: FirstSets, a: int, r: int, i: int) -> (Set<usize>, bool) {
    first_of(fs, g.body(a, r).skip(i + 1))
}

/// The FOLLOW sets `fo` respect position `i` of production `r` of `a`: if a
/// nonterminal `B` stands there, FIRST of the rest of the body is in
/// FOLLOW(B), and, if the rest can be empty, so is FOLLOW(a).
pub open spec fn follow_closed_at(g: Grammar, fs: FirstSets, fo: FollowSets, a: int, r: int, i: int) -> bool {
    g.body(a, r)[i] matches Symbol::Nonterminal(b) ==> {
        &&& first_after(g, fs, a, r, i).0.subset_of(fo.terms(b as int))
        &&& first_after(g, fs, a, r, i).1 ==> fo.terms(a).subset_of(fo.terms(b as int)) && (fo.endmarker(a) ==> fo.endmarker(b as int))
    }
}

/// `fo` is closed under the rules that define FOLLOW, with the FIRST sets
/// `fs`: the endmarker follows the start symbol, and every position of
/// every body is respected.
pub open spec fn follow_closed(g: Grammar, fs: FirstSets, fo: FollowSets) -> bool {
    &&& fo.sets@.len() == g.num_nonterminals()
    &&& fo.endmarker(g.start as int)
    &&& forall|a: int, r: int, i: int| g.has_prod(a, r) && 0 <= i < g.body(a, r).len() ==> #[trigger] follow_closed_at(g, fs, fo, a, r, i)
}

/// Every FOLLOW set of `a` is included in that of `b`.
pub open spec fn follow_le(a: FollowSets, b: FollowSets, num: nat) -> bool {
    forall|n: int| #![trigger a.terms(n)] 0 <= n < num ==> a.terms(n).subset_of(b.terms(n)) && (a.endmarker(n) ==> b.endmarker(n))
}

/// Both hold the same FOLLOW sets for the first `num` nonterminals.
pub open spec fn follow_same(a: FollowSets, b: FollowSets, num: nat) -> bool {
    forall|n: int| #![trigger a.terms(n)] #![trigger a.endmarker(n)] 0 <= n < num ==> a.terms(n) == b.terms(n) && a.endmarker(n) == b.endmarker(n)
}

proof fn lemma_closed_at_same(g: Grammar, fs: FirstSets, x: FollowSets, y: FollowSets, a: int, r: int, i: int)
    requires
        g.wf(),
        follow_same(x, y, g.num_nonterminals()),
        g.has_prod(a, r),
        0 <= i < g.body(a, r).len(),
    ensures
        follow_closed_at(g, fs, x, a, r, i) == follow_closed_at(g, fs, y, a, r, i),
{
    assert(body_defined(g.body(a, r), g.num_nonterminals()));
    assert(x.terms(a) == y.terms(a) && x.endmarker(a) == y.endmarker(a));
    if let Symbol::Nonterminal(b) = g.body(a, r)[i] {
        assert(x.terms(b as int) == y.terms(b as int) && x.endmarker(b as int) == y.endmarker(b as int));
    }
}

/// The size of the FOLLOW sets `s`: terminals listed, plus one per entry
/// that holds the endmarker.
pub open spec fn follow_total(s: Seq<FollowSet>) -> nat
    decreases s.len(),
{
    if s.len() == 0 {
        0
    } else {
        follow_total(s.drop_last()) + follow_entry_size(s.last())
    }
}

pub open spec fn follow_entry_size(e: FollowSet) -> nat {
    e.terminals@.len() + (if e.endmarker {
        1nat
    } else {
        0nat
    })
}

proof fn lemma_follow_total_update(s: Seq<FollowSet>, n: int, x: FollowSet)
    requires
        0 <= n < s.len(),
    ensures
        follow_total(s.update(n, x)) + follow_entry_size(s[n]) == follow_total(s) + follow_entry_size(x),
    decreases s.len(),
{
    if n < s.len() - 1 {
        lemma_follow_total_update(s.drop_last(), n, x);
        assert(s.update(n, x).drop_last() =~= s.drop_last().update(n, x));
    } else {
        assert(s.update(n, x).drop_last() =~= s.drop_last());
    }
}

proof fn lemma_follow_total_bound(s: Seq<FollowSet>, k: nat)
    requires
        forall|n: int| 0 <= n < s.len() ==> follow_entry_size(#[trigger] s[n]) <= k,
    ensures
        follow_total(s) <= s.len() * k,
    decreases s.len(),
{
    if s.len() > 0 {
        lemma_follow_total_bound(s.drop_last(), k);
        assert(follow_entry_size(s[s.len() - 1]) <= k);
        assert((s.len() - 1) * k + k == s.len() * k) by (nonlinear_arith);
    }
}

/// The FOLLOW set of `x` after one step at position `i` of production `r`
/// of `a`.
pub open spec fn step_terms(g: Grammar, fs: FirstSets, fo: FollowSets, a: int, r: int, i: int, x: int) -> Set<usize> {
    if g.body(a, r)[i] matches Symbol::Nonterminal(b) && b as int == x {
        fo.terms(x).union(first_after(g, fs, a, r, i).0).union(
            if first_after(g, fs, a, r, i).1 {
                fo.terms(a)
            } else {
                Set::empty()
            },
        )
    } else {
        fo.terms(x)
    }
}

/// Whether the endmarker follows `x` after that step.
pub open spec fn step_end(g: Grammar, fs: FirstSets, fo: FollowSets, a: int, r: int, i: int, x: int) -> bool {
    if g.body(a, r)[i] matches Symbol::Nonterminal(b) && b as int == x {
        fo.endmarker(x) || (first_after(g, fs, a, r, i).1 && fo.endmarker(a))
    } else {
        fo.endmarker(x)
    }
}

/// What holds of the FOLLOW sets at every round of their computation.
pub open spec fn follow_inv(g: Grammar, fs: FirstSets, fo: FollowSets, ts: Set<usize>, k: nat) -> bool {
    &&& fo.wf(g)
    &&& fo.endmarker(g.start as int)
    &&& forall|x: int| 0 <= x < g.num_nonterminals() ==> #[trigger] fo.terms(x).subset_of(ts)
    &&& forall|s: FollowSets| #[trigger] follow_closed(g, fs, s) ==> follow_le(fo, s, g.num_nonterminals())
    &&& follow_total(fo.sets@) <= g.num_nonterminals() * (k + 1)
}

proof fn lemma_follow_entry_bound(fo: FollowSets, g: Grammar, ts: Set<usize>, k: nat)
    requires
        fo.wf(g),
        ts.finite(),
        ts.len() == k,
        forall|x: int| 0 <= x < g.num_nonterminals() ==> #[trigger] fo.terms(x).subset_of(ts),
    ensures
        forall|x: int| 0 <= x < fo.sets@.len() ==> follow_entry_size(#[trigger] fo.sets@[x]) <= k + 1,
{
    assert forall|x: int| 0 <= x < fo.sets@.len() implies follow_entry_size(#[trigger] fo.sets@[x]) <= k + 1 by {
        fo.sets@[x].terminals@.unique_seq_to_set();
        assert(fo.terms(x).subset_of(ts));
        vstd::set_lib::lemma_len_subset(fo.terms(x), ts);
    }
}

impl Grammar {
    /// One step of the FOLLOW computation at position `i` of production `r`
    /// of `a`: if a nonterminal `B` stands there, add FIRST of the rest of
    /// the body to FOLLOW(B), and FOLLOW(a) too if the rest can be empty.
    /// Tells whether FOLLOW(B) grew.
    fn follow_step(&self, first_sets: &FirstSets, cur: &mut FollowSets, a: usize, r: usize, i: usize) -> (grew: bool)
        requires
            self.wf(),
            first_sets.wf(*self),
            old(cur).wf(*self),
            self.has_prod(a as int, r as int),
            i < self.body(a as int, r as int).len(),
        ensures
            final(cur).wf(*self),
            forall|x: int| 0 <= x < self.num_nonterminals() ==> #[trigger] final(cur).terms(x) == step_terms(*self, *first_sets, *old(cur), a as int, r as int, i as int, x),
            forall|x: int| 0 <= x < self.num_nonterminals() ==> #[trigger] final(cur).endmarker(x) == step_end(*self, *first_sets, *old(cur), a as int, r as int, i as int, x),
            follow_total(final(cur).sets@) >= follow_total(old(cur).sets@),
            grew ==> follow_total(final(cur).sets@) > follow_total(old(cur).sets@),
            !grew ==> follow_total(final(cur).sets@) == follow_total(old(cur).sets@),
            !grew ==> follow_same(*final(cur), *old(cur), self.num_nonterminals()),
    {
        let n = self.rules.len();
        let ghost body = self.body(a as int, r as int);
        assert(body_defined(body, n as nat));
        let blen = self.rules[a][r].body.len();
        match self.rules[a][r].body[i] {
            Symbol::Terminal(_) => {
                assert forall|x: int| 0 <= x < n implies #[trigger] cur.terms(x) == step_terms(*self, *first_sets, *old(cur), a as int, r as int, i as int, x) by {}
                assert(follow_same(*cur, *old(cur), n as nat));
                false
            },
            Symbol::Nonterminal(b) => {
                assert(body[i as int] == Symbol::Nonterminal(b));
                assert(b < n);
                let (f, nl) = first_of_body(first_sets, &self.rules[a][r].body, i + 1, n);
                let mut add = f;
                let mut add_end = false;
                if nl {
                    extend_unique(&mut add, &cur.sets[a].terminals);
                    add_end = cur.sets[a].endmarker;
                }
                let ghost before = *cur;
                let mut entry = FollowSet { terminals: Vec::new(), endmarker: false };
                cur.sets.set_and_swap(b, &mut entry);
                let ghost old_entry = entry;
                let old_len = entry.terminals.len();
                extend_unique(&mut entry.terminals, &add);
                let mut grew = entry.terminals.len() > old_len;
                if add_end && !entry.endmarker {
                    entry.endmarker = true;
                    grew = true;
                }
                cur.sets.set_and_swap(b, &mut entry);
                proof {
                    assert(old_entry == before.sets@[b as int]);
                    assert(cur.sets@ == before.sets@.update(b as int, cur.sets@[b as int]));
                    let e = cur.sets@[b as int];
                    lemma_follow_total_update(before.sets@, b as int, e);
                    assert forall|x: int| 0 <= x < n implies #[trigger] cur.terms(x) == step_terms(*self, *first_sets, before, a as int, r as int, i as int, x) by {
                        if x == b {
                            assert(e.terminals@.to_set() =~= step_terms(*self, *first_sets, before, a as int, r as int, i as int, x));
                        }
                    }
                    assert forall|x: int| 0 <= x < n implies (#[trigger] cur.sets@[x]).terminals@.no_duplicates() by {}
                    if !grew {
                        assert(e.terminals@ == old_entry.terminals@);
                        assert(follow_entry_size(e) == follow_entry_size(old_entry));
                        assert(follow_same(*cur, before, n as nat)) by {
                            assert forall|x: int| 0 <= x < n implies #[trigger] cur.terms(x) == before.terms(x) && cur.endmarker(x) == before.endmarker(x) by {}
                        }
                    }
                }
                grew
            },
        }
    }

    /// Computes the FOLLOW sets of the nonterminals with the FIRST sets
    /// `first_sets`: the least sets closed under the rules that define
    /// FOLLOW, the endmarker following the start symbol.
    pub fn follow_sets(&self, first_sets: &FirstSets) -> (fo: FollowSets)
        requires
            self.wf(),
            first_sets.wf(*self),
        ensures
            fo.wf(*self),
            follow_closed(*self, *first_sets, fo),
            forall|s: FollowSets| #[trigger] follow_closed(*self, *first_sets, s) ==> follow_le(fo, s, self.num_nonterminals()),
    {
        let n = self.rules.len();
        let mut tv = self.terminals();
        for x in 0..n
            invariant
                n == self.num_nonterminals(),
                first_sets.wf(*self),
                tv@.no_duplicates(),
                forall|t: usize| occurs_terminal(*self, t) ==> tv@.contains(t),
                forall|y: int| 0 <= y < x ==> #[trigger] first_sets.terms(y).subset_of(tv@.to_set()),
        {
            let ghost before = tv@;
            extend_unique(&mut tv, &first_sets.sets[x].terminals);
            proof {
                assert forall|t: usize| occurs_terminal(*self, t) implies tv@.contains(t) by {
                    assert(before.to_set().contains(t));
                    assert(tv@.to_set().contains(t));
                }
                assert forall|y: int| 0 <= y < x + 1 implies #[trigger] first_sets.terms(y).subset_of(tv@.to_set()) by {
                    if y < x {
                        assert(first_sets.terms(y).subset_of(before.to_set()));
                    }
                }
            }
        }
        let ghost ts = tv@.to_set();
        let ghost k = tv@.len();
        proof {
            tv@.unique_seq_to_set();
        }
        let mut cur = FollowSets { sets: Vec::new() };
        for x in 0..n
            invariant
                n == self.num_nonterminals(),
                self.start < n,
                cur.sets@.len() == x,
                forall|j: int| 0 <= j < x ==> (#[trigger] cur.sets@[j]).terminals@.len() == 0 && cur.sets@[j].endmarker == (j == self.start),
        {
            cur.sets.push(FollowSet { terminals: Vec::new(), endmarker: x == self.start });
        }
        proof {
            assert forall|x: int| 0 <= x < n implies #[trigger] cur.terms(x).subset_of(ts) by {
                assert(cur.terms(x) =~= Set::<usize>::empty());
            }
            assert forall|s: FollowSets| #[trigger] follow_closed(*self, *first_sets, s) implies follow_le(cur, s, n as nat) by {
                assert forall|x: int| 0 <= x < n implies cur.terms(x).subset_of(s.terms(x)) && (cur.endmarker(x) ==> s.endmarker(x)) by {
                    assert(cur.terms(x) =~= Set::<usize>::empty());
                }
            }
            lemma_follow_entry_bound(cur, *self, ts, k);
            lemma_follow_total_bound(cur.sets@, k + 1);
        }
        loop
            invariant_except_break
                self.wf(),
                first_sets.wf(*self),
                n == self.num_nonterminals(),
                ts.finite(),
                ts.len() == k,
                forall|t: usize| occurs_terminal(*self, t) ==> ts.contains(t),
                forall|y: int| 0 <= y < n ==> #[trigger] first_sets.terms(y).subset_of(ts),
                follow_inv(*self, *first_sets, cur, ts, k),
            ensures
                follow_inv(*self, *first_sets, cur, ts, k),
                follow_closed(*self, *first_sets, cur),
            decreases n * (k + 1) - follow_total(cur.sets@),
        {
            let ghost start = cur;
            let mut changed = false;
            for a in 0..n
                invariant
                    self.wf(),
                    first_sets.wf(*self),
                    n == self.num_nonterminals(),
                    ts.finite(),
                    ts.len() == k,
                    forall|t: usize| occurs_terminal(*self, t) ==> ts.contains(t),
                    forall|y: int| 0 <= y < n ==> #[trigger] first_sets.terms(y).subset_of(ts),
                    follow_inv(*self, *first_sets, cur, ts, k),
                    follow_inv(*self, *first_sets, start, ts, k),
                    !changed ==> follow_same(cur, start, n as nat),
                    !changed ==> follow_total(cur.sets@) == follow_total(start.sets@),
                    changed ==> follow_total(cur.sets@) > follow_total(start.sets@),
                    follow_total(cur.sets@) >= follow_total(start.sets@),
                    !changed ==> forall|x: int, r: int, i: int| 0 <= x < a && self.has_prod(x, r) && 0 <= i < self.body(x, r).len() ==> #[trigger] follow_closed_at(*self, *first_sets, start, x, r, i),
            {
                let m = self.rules[a].len();
                for r in 0..m
                    invariant
                        self.wf(),
                        first_sets.wf(*self),
                        n == self.num_nonterminals(),
                        a < n,
                        m == self.num_prods(a as int),
                        ts.finite(),
                        ts.len() == k,
                        forall|t: usize| occurs_terminal(*self, t) ==> ts.contains(t),
                        forall|y: int| 0 <= y < n ==> #[trigger] first_sets.terms(y).subset_of(ts),
                        follow_inv(*self, *first_sets, cur, ts, k),
                        follow_inv(*self, *first_sets, start, ts, k),
                        !changed ==> follow_same(cur, start, n as nat),
                    !changed ==> follow_total(cur.sets@) == follow_total(start.sets@),
                        changed ==> follow_total(cur.sets@) > follow_total(start.sets@),
                        follow_total(cur.sets@) >= follow_total(start.sets@),
                        !changed ==> forall|x: int, r2: int, i: int| 0 <= x < a && self.has_prod(x, r2) && 0 <= i < self.body(x, r2).len() ==> #[trigger] follow_closed_at(*self, *first_sets, start, x, r2, i),
                        !changed ==> forall|r2: int, i: int| 0 <= r2 < r && 0 <= i < self.body(a as int, r2).len() ==> #[trigger] follow_closed_at(*self, *first_sets, start, a as int, r2, i),
                {
                    let len = self.rules[a][r].body.len();
                    for i in 0..len
                        invariant
                            self.wf(),
                            first_sets.wf(*self),
                            n == self.num_nonterminals(),
                            a < n,
                            m == self.num_prods(a as int),
                            r < m,
                            len == self.body(a as int, r as int).len(),
                            ts.finite(),
                            ts.len() == k,
                            forall|t: usize| occurs_terminal(*self, t) ==> ts.contains(t),
                            forall|y: int| 0 <= y < n ==> #[trigger] first_sets.terms(y).subset_of(ts),
                            follow_inv(*self, *first_sets, cur, ts, k),
                            follow_inv(*self, *first_sets, start, ts, k),
                            !changed ==> follow_same(cur, start, n as nat),
                    !changed ==> follow_total(cur.sets@) == follow_total(start.sets@),
                            changed ==> follow_total(cur.sets@) > follow_total(start.sets@),
                            follow_total(cur.sets@) >= follow_total(start.sets@),
                            !changed ==> forall|x: int, r2: int, i2: int| 0 <= x < a && self.has_prod(x, r2) && 0 <= i2 < self.body(x, r2).len() ==> #[trigger] follow_closed_at(*self, *first_sets, start, x, r2, i2),
                            !changed ==> forall|r2: int, i2: int| 0 <= r2 < r && 0 <= i2 < self.body(a as int, r2).len() ==> #[trigger] follow_closed_at(*self, *first_sets, start, a as int, r2, i2),
                            !changed ==> forall|i2: int| 0 <= i2 < i ==> #[trigger] follow_closed_at(*self, *first_sets, start, a as int, r as int, i2),
                    {
                        let ghost before = cur;
                        assert(self.has_prod(a as int, r as int));
                        let grew = self.follow_step(first_sets, &mut cur, a, r, i);
                        proof {
                            self.lemma_follow_step(*first_sets, before, cur, a as int, r as int, i as int, ts, k);
                            if !grew && !changed {
                                assert(follow_same(cur, start, n as nat)) by {
                                    assert forall|x: int| 0 <= x < n implies #[trigger] cur.terms(x) == start.terms(x) && cur.endmarker(x) == start.endmarker(x) by {
                                        assert(cur.terms(x) == before.terms(x) && cur.endmarker(x) == before.endmarker(x));
                                    }
                                }
                                lemma_closed_at_same(*self, *first_sets, cur, start, a as int, r as int, i as int);
                            }
                        }
                        if grew {
                            changed = true;
                        }
                    }
                }
            }
            if !changed {
                proof {
                    assert forall|x: int, r: int, i: int| self.has_prod(x, r) && 0 <= i < self.body(x, r).len() implies #[trigger] follow_closed_at(*self, *first_sets, cur, x, r, i) by {
                        assert(follow_closed_at(*self, *first_sets, start, x, r, i));
                        lemma_closed_at_same(*self, *first_sets, cur, start, x, r, i);
                    }
                }
                break;
            }
        }
        cur
    }

    /// What one step keeps of the invariant, and that a step that adds
    /// nothing leaves its position respected.
    proof fn lemma_follow_step(&self, fs: FirstSets, before: FollowSets, after: FollowSets, a: int, r: int, i: int, ts: Set<usize>, k: nat)
        requires
            self.wf(),
            fs.wf(*self),
            self.has_prod(a, r),
            0 <= i < self.body(a, r).len(),
            ts.finite(),
            ts.len() == k,
            forall|t: usize| occurs_terminal(*self, t) ==> ts.contains(t),
            forall|y: int| 0 <= y < self.num_nonterminals() ==> #[trigger] fs.terms(y).subset_of(ts),
            follow_inv(*self, fs, before, ts, k),
            after.wf(*self),
            forall|x: int| 0 <= x < self.num_nonterminals() ==> #[trigger] after.terms(x) == step_terms(*self, fs, before, a, r, i, x),
            forall|x: int| 0 <= x < self.num_nonterminals() ==> #[trigger] after.endmarker(x) == step_end(*self, fs, before, a, r, i, x),
        ensures
            follow_inv(*self, fs, after, ts, k),
            follow_same(after, before, self.num_nonterminals()) ==> follow_closed_at(*self, fs, after, a, r, i),
    {
        let n = self.num_nonterminals();
        let body = self.body(a, r);
        let beta = body.skip(i + 1);
        assert(body_defined(body, n));
        assert(body_defined(beta, n)) by {
            assert forall|j: int| 0 <= j < beta.len() implies (#[trigger] beta[j] matches Symbol::Nonterminal(m) ==> m < n) by {
                assert(beta[j] == body[i + 1 + j]);
            }
        }
        assert forall|j: int| 0 <= j < beta.len() implies (#[trigger] beta[j] matches Symbol::Terminal(t) ==> ts.contains(t)) by {
            assert(beta[j] == body[i + 1 + j]);
            if let Symbol::Terminal(t) = beta[j] {
                assert(occurs_terminal(*self, t));
            }
        }
        lemma_first_of_within(fs, beta, ts, n);
        assert(after.endmarker(self.start as int));
        assert forall|x: int| 0 <= x < n implies #[trigger] after.terms(x).subset_of(ts) by {
            assert(before.terms(x).subset_of(ts));
            assert(before.terms(a).subset_of(ts));
        }
        assert forall|s: FollowSets| #[trigger] follow_closed(*self, fs, s) implies follow_le(after, s, n) by {
            assert(follow_le(before, s, n));
            assert(follow_closed_at(*self, fs, s, a, r, i));
            assert(a < n);
            assert(before.terms(a).subset_of(s.terms(a)));
            assert(before.endmarker(a) ==> s.endmarker(a));
            assert forall|x: int| 0 <= x < n implies after.terms(x).subset_of(s.terms(x)) && (after.endmarker(x) ==> s.endmarker(x)) by {
                assert(before.terms(x).subset_of(s.terms(x)));
                assert(before.endmarker(x) ==> s.endmarker(x));
                if let Symbol::Nonterminal(b) = body[i] {
                    assert(follow_closed_at(*self, fs, s, a, r, i));
                    if b as int == x {
                        assert(first_after(*self, fs, a, r, i).0.subset_of(s.terms(x)));
                    }
                }
            }
        }
        lemma_follow_entry_bound(after, *self, ts, k);
        lemma_follow_total_bound(after.sets@, k + 1);
        if follow_same(after, before, n) {
            if let Symbol::Nonterminal(b) = body[i] {
                assert(b < n);
                assert(after.terms(b as int) == before.terms(b as int));
                assert(after.terms(b as int) == step_terms(*self, fs, before, a, r, i, b as int));
                assert(after.terms(a) == before.terms(a));
                assert(after.endmarker(b as int) == step_end(*self, fs, before, a, r, i, b as int));
                assert(after.endmarker(a) == before.endmarker(a));
                assert(after.endmarker(b as int) == before.endmarker(b as int));
            }
        }
    }
}

} // verus!
