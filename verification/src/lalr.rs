use vstd::prelude::*;

use crate::grammar::{Grammar, Symbol, FirstSets, first_of, first_of_body, body_defined, occurs_terminal, lemma_first_of_within};
use crate::lr0::{Item, LR0State, LR0Automaton, lr0_box, lemma_lr0_box, all_valid0, state_sets, state_trans, initial_kernel, is_lr0_collection, trans_ok};
use crate::lr1::{LR1Table, LR1State, LR1Action, LRConflict, first_union, lemma_first_union, spec_determine_conflict};
use crate::slr::{goto_of, is_first_sets, trans_distinct};
use crate::lr0::lr0_canonical;
use crate::seqs::{lemma_push_to_set, lemma_push_no_duplicates, pairs, lemma_pairs_finite};

verus! {

/// The three kinds of lookahead met when computing LALR(1) item kernels.
#[derive(Debug, Clone, Copy, PartialEq, Eq, Structural)]
pub enum LR1Lookahead {
    /// A terminal from the grammar.
    Terminal(usize),
    /// The endmarker terminal.
    Endmarker,
    /// A symbol not in the grammar (#), used to determine which items
    /// lookaheads are propagated to.
    NonSymbol,
}

/// The lookaheads of FIRST(βa): a terminal for each terminal of FIRST(β),
/// and `a` if β can be empty.
pub open spec fn lalr_first(fs: FirstSets, beta: Seq<Symbol>, a: LR1Lookahead) -> Set<LR1Lookahead> {
    let f = first_of(fs, beta);
    let s = f.0.map(|t: usize| LR1Lookahead::Terminal(t));
    if f.1 {
        s.insert(a)
    } else {
        s
    }
}

/// Closing `it = [A -> α·Bβ, a]` adds `x = [B -> ·γ, b]` for a production
/// `B -> γ` and `b` among the lookaheads of FIRST(βa).
pub open spec fn lalr_adds(g: Grammar, fs: FirstSets, it: (Item, LR1Lookahead), x: (Item, LR1Lookahead)) -> bool {
    &&& it.0.spec_next_symbol(g) == Some(Symbol::Nonterminal(x.0.lhs))
    &&& g.has_prod(x.0.lhs as int, x.0.rhs as int)
    &&& x.0.pos == 0
    &&& lalr_first(fs, g.body(it.0.lhs as int, it.0.rhs as int).skip(it.0.pos + 1), it.1).contains(x.1)
}

/// The set `s` holds every item that closing one of its items adds.
pub open spec fn lalr_closed(g: Grammar, fs: FirstSets, s: Set<(Item, LR1Lookahead)>) -> bool {
    forall|it: (Item, LR1Lookahead), x: (Item, LR1Lookahead)| s.contains(it) && #[trigger] lalr_adds(g, fs, it, x) ==> s.contains(x)
}

/// Every item of `s` is valid for `g`.
pub open spec fn lalr_valid(g: Grammar, s: Set<(Item, LR1Lookahead)>) -> bool {
    forall|it: (Item, LR1Lookahead)| #[trigger] s.contains(it) ==> it.0.valid(g)
}

/// The items that closing `it` adds.
pub open spec fn lalr_adds_of(g: Grammar, fs: FirstSets, it: (Item, LR1Lookahead)) -> Set<(Item, LR1Lookahead)> {
    Set::new(|x: (Item, LR1Lookahead)| lalr_adds(g, fs, it, x))
}

/// `x` is in every closed superset of `s0`.
pub open spec fn lalr_forced(g: Grammar, fs: FirstSets, s0: Set<(Item, LR1Lookahead)>, x: (Item, LR1Lookahead)) -> bool {
    forall|s: Set<(Item, LR1Lookahead)>| s0.subset_of(s) && #[trigger] lalr_closed(g, fs, s) ==> s.contains(x)
}

/// Whether `v` holds `x`.
fn contains_pair(v: &Vec<(Item, LR1Lookahead)>, x: (Item, LR1Lookahead)) -> (r: bool)
    ensures
        r == v@.contains(x),
{
    let n = v.len();
    for i in 0..n
        invariant
            n == v@.len(),
            forall|j: int| 0 <= j < i ==> v@[j] != x,
    {
        let y = v[i];
        if y.0 == x.0 && y.1 == x.1 {
            assert(v@[i as int] == x);
            return true;
        }
    }
    false
}

/// Adds `x` to `v` unless it is there, and tells whether it was new.
fn insert_pair(v: &mut Vec<(Item, LR1Lookahead)>, x: (Item, LR1Lookahead)) -> (r: bool)
    requires
        old(v)@.no_duplicates(),
    ensures
        final(v)@.no_duplicates(),
        final(v)@.to_set() == old(v)@.to_set().insert(x),
        r == !old(v)@.contains(x),
        r ==> final(v)@ == old(v)@.push(x),
        !r ==> final(v)@ == old(v)@,
{
    if contains_pair(v, x) {
        assert(v@.to_set() =~= v@.to_set().insert(x));
        false
    } else {
        proof {
            lemma_push_no_duplicates(v@, x);
            lemma_push_to_set(v@, x);
        }
        v.push(x);
        true
    }
}

impl Grammar {
    /// Adds to `added` the items that closing `item` adds.
    fn lalr_close_item(&self, item: (Item, LR1Lookahead), first_sets: &FirstSets, added: &mut Vec<(Item, LR1Lookahead)>, la: Ghost<Set<LR1Lookahead>>)
        requires
            self.wf(),
            first_sets.wf(*self),
            old(added)@.no_duplicates(),
            item.0.valid(*self),
            la@.contains(item.1),
            forall|t: usize| first_union(*first_sets, self.num_nonterminals()).contains(t) ==> la@.contains(LR1Lookahead::Terminal(t)),
            forall|t: usize| occurs_terminal(*self, t) ==> la@.contains(LR1Lookahead::Terminal(t)),
        ensures
            final(added)@.no_duplicates(),
            final(added)@.to_set() == old(added)@.to_set().union(lalr_adds_of(*self, *first_sets, item)),
            forall|x: (Item, LR1Lookahead)| #[trigger] lalr_adds_of(*self, *first_sets, item).contains(x) ==> x.0.valid(*self) && la@.contains(x.1),
    {
        let n = self.rules.len();
        let ghost g = *self;
        let ghost fs = *first_sets;
        let (it, a) = item;
        match it.next_symbol(self) {
            Some(Symbol::Nonterminal(b)) => {
                let ghost body = self.body(it.lhs as int, it.rhs as int);
                let ghost beta = body.skip(it.pos + 1);
                assert(self.has_prod(it.lhs as int, it.rhs as int));
                assert(body_defined(body, n as nat));
                assert(b < n) by {
                    assert(body[it.pos as int] == Symbol::Nonterminal(b));
                }
                assert(it.pos < self.rules@[it.lhs as int]@[it.rhs as int].body.len());
                let (f, nl) = first_of_body(first_sets, &self.rules[it.lhs][it.rhs].body, it.pos + 1, n);
                let mut fla: Vec<LR1Lookahead> = Vec::new();
                let fl = f.len();
                for q in 0..fl
                    invariant
                        fl == f@.len(),
                        fla@.len() == q,
                        forall|j: int| 0 <= j < q ==> #[trigger] fla@[j] == LR1Lookahead::Terminal(f@[j]),
                {
                    fla.push(LR1Lookahead::Terminal(f[q]));
                }
                if nl {
                    fla.push(a);
                }
                proof {
                    let fl_set = lalr_first(fs, beta, a);
                    assert forall|y: LR1Lookahead| fla@.contains(y) <==> fl_set.contains(y) by {
                        if fla@.contains(y) {
                            let j = choose|j: int| 0 <= j < fla@.len() && fla@[j] == y;
                            if j < fl {
                                assert(f@.to_set().contains(f@[j]));
                                assert(first_of(fs, beta).0.map(|t: usize| LR1Lookahead::Terminal(t)).contains(LR1Lookahead::Terminal(f@[j])));
                            }
                        }
                        if fl_set.contains(y) {
                            if first_of(fs, beta).0.map(|t: usize| LR1Lookahead::Terminal(t)).contains(y) {
                                let t = choose|t: usize| first_of(fs, beta).0.contains(t) && LR1Lookahead::Terminal(t) == y;
                                assert(f@.to_set().contains(t));
                                let j = choose|j: int| 0 <= j < f@.len() && f@[j] == t;
                                assert(fla@[j] == y);
                            } else {
                                assert(fla@[fla@.len() - 1] == y);
                            }
                        }
                    }
                    // lookaheads stay within `la`
                    let ts = Set::new(|t: usize| la@.contains(LR1Lookahead::Terminal(t)));
                    assert forall|x: int| 0 <= x < n implies #[trigger] fs.terms(x).subset_of(ts) by {
                        lemma_first_union(fs, n as nat);
                    }
                    assert forall|i: int| 0 <= i < beta.len() implies (#[trigger] beta[i] matches Symbol::Terminal(t) ==> ts.contains(t)) by {
                        if let Symbol::Terminal(t) = beta[i] {
                            assert(body[it.pos + 1 + i] == beta[i]);
                            assert(occurs_terminal(g, t));
                        }
                    }
                    assert(body_defined(beta, n as nat)) by {
                        assert forall|i: int| 0 <= i < beta.len() implies (#[trigger] beta[i] matches Symbol::Nonterminal(m) ==> m < n) by {
                            assert(body[it.pos + 1 + i] == beta[i]);
                        }
                    }
                    lemma_first_of_within(fs, beta, ts, n as nat);
                }
                let m = self.rules[b].len();
                let k = fla.len();
                for r in 0..m
                    invariant
                        self.wf(),
                        b < n,
                        m == self.num_prods(b as int),
                        k == fla@.len(),
                        added@.no_duplicates(),
                        added@.to_set() == old(added)@.to_set().union(Set::new(|x: (Item, LR1Lookahead)| x.0.lhs == b && x.0.rhs < r && x.0.pos == 0 && fla@.contains(x.1))),
                {
                    for q in 0..k
                        invariant
                            b < n,
                            r < m,
                            k == fla@.len(),
                            added@.no_duplicates(),
                            added@.to_set() == old(added)@.to_set().union(Set::new(|x: (Item, LR1Lookahead)| x.0.lhs == b && x.0.rhs < r && x.0.pos == 0 && fla@.contains(x.1))).union(
                                Set::new(|x: (Item, LR1Lookahead)| x.0.lhs == b && x.0.rhs == r && x.0.pos == 0 && fla@.subrange(0, q as int).contains(x.1))),
                    {
                        let x = (Item { lhs: b, rhs: r, pos: 0 }, fla[q]);
                        insert_pair(added, x);
                        proof {
                            let pre = fla@.subrange(0, q as int);
                            let post = fla@.subrange(0, q + 1);
                            assert(post == pre.push(fla@[q as int]));
                            lemma_push_to_set(pre, fla@[q as int]);
                            assert forall|y: LR1Lookahead| post.contains(y) <==> (pre.contains(y) || y == fla@[q as int]) by {
                                assert(post.to_set().contains(y) == post.contains(y));
                                assert(pre.to_set().contains(y) == pre.contains(y));
                            }
                            assert(added@.to_set() =~= old(added)@.to_set().union(Set::new(|x: (Item, LR1Lookahead)| x.0.lhs == b && x.0.rhs < r && x.0.pos == 0 && fla@.contains(x.1))).union(
                                Set::new(|x: (Item, LR1Lookahead)| x.0.lhs == b && x.0.rhs == r && x.0.pos == 0 && fla@.subrange(0, q + 1).contains(x.1))));
                        }
                    }
                    assert(fla@.subrange(0, k as int) =~= fla@);
                    assert(added@.to_set() =~= old(added)@.to_set().union(Set::new(|x: (Item, LR1Lookahead)| x.0.lhs == b && x.0.rhs < r + 1 && x.0.pos == 0 && fla@.contains(x.1))));
                }
                proof {
                    assert forall|x: (Item, LR1Lookahead)| lalr_adds_of(g, fs, item).contains(x) <==> (x.0.lhs == b && x.0.rhs < m && x.0.pos == 0 && fla@.contains(x.1)) by {}
                    assert(added@.to_set() =~= old(added)@.to_set().union(lalr_adds_of(g, fs, item)));
                    assert forall|x: (Item, LR1Lookahead)| #[trigger] lalr_adds_of(g, fs, item).contains(x) implies x.0.valid(g) && la@.contains(x.1) by {
                        assert(lalr_first(fs, beta, a).contains(x.1));
                        if x.1 != a || !first_of(fs, beta).1 {
                            let t = choose|t: usize| first_of(fs, beta).0.contains(t) && LR1Lookahead::Terminal(t) == x.1;
                        }
                    }
                }
            },
            _ => {
                proof {
                    assert(lalr_adds_of(g, fs, item) =~= Set::<(Item, LR1Lookahead)>::empty());
                    assert(added@.to_set() =~= old(added)@.to_set().union(lalr_adds_of(g, fs, item)));
                }
            },
        }
    }
}

/// The lookaheads that a closure can bring in besides those it starts
/// with: the endmarker, `#`, and each terminal of a FIRST set or of a body.
pub open spec fn lalr_lookahead_pool(g: Grammar, fs: FirstSets) -> Set<LR1Lookahead> {
    set![LR1Lookahead::Endmarker, LR1Lookahead::NonSymbol].union(
        first_union(fs, g.num_nonterminals()).union(Set::new(|t: usize| occurs_terminal(g, t))).map(|t: usize| LR1Lookahead::Terminal(t)),
    )
}

/// What holds of the item set at every round of the closure.
pub open spec fn lalr_closure_inv(g: Grammar, fs: FirstSets, s_init: Set<(Item, LR1Lookahead)>, la: Set<LR1Lookahead>, universe: Set<(Item, LR1Lookahead)>, items: Seq<(Item, LR1Lookahead)>) -> bool {
    &&& items.no_duplicates()
    &&& lalr_valid(g, items.to_set())
    &&& s_init.subset_of(items.to_set())
    &&& items.to_set().subset_of(universe)
    &&& forall|it: (Item, LR1Lookahead)| #[trigger] items.to_set().contains(it) ==> la.contains(it.1) && lalr_forced(g, fs, s_init, it)
}

impl Grammar {
    /// The closure of a set of LR(0) items with lookaheads: for each item
    /// `[A -> α·Bβ, a]`, each production `B -> γ` and each lookahead `b` of
    /// FIRST(βa), `[B -> ·γ, b]` is added, until nothing more is added. The
    /// result is the least closed set that holds the given items.
    pub fn lalr1_closure(&self, items: &mut Vec<(Item, LR1Lookahead)>, first_sets: &FirstSets)
        requires
            self.wf(),
            first_sets.wf(*self),
            old(items)@.no_duplicates(),
            lalr_valid(*self, old(items)@.to_set()),
        ensures
            final(items)@.no_duplicates(),
            lalr_valid(*self, final(items)@.to_set()),
            old(items)@.to_set().subset_of(final(items)@.to_set()),
            lalr_closed(*self, *first_sets, final(items)@.to_set()),
            forall|s: Set<(Item, LR1Lookahead)>| old(items)@.to_set().subset_of(s) && #[trigger] lalr_closed(*self, *first_sets, s) ==> final(items)@.to_set().subset_of(s),
            forall|it: (Item, LR1Lookahead)| #[trigger] final(items)@.to_set().contains(it) ==> lalr_lookahead_pool(*self, *first_sets).contains(it.1)
                || old(items)@.to_set().map(|q: (Item, LR1Lookahead)| q.1).contains(it.1),
    {
        let n = self.rules.len();
        let tv = self.terminals();
        let ghost g = *self;
        let ghost fs = *first_sets;
        let ghost s_init = items@.to_set();
        let ghost la = set![LR1Lookahead::Endmarker, LR1Lookahead::NonSymbol].union(
            first_union(fs, n as nat).union(tv@.to_set()).map(|t: usize| LR1Lookahead::Terminal(t)),
        ).union(s_init.map(|it: (Item, LR1Lookahead)| it.1));
        let ghost universe = s_init.union(pairs(lr0_box(g), la));
        proof {
            lemma_first_union(fs, n as nat);
            vstd::seq_lib::seq_to_set_is_finite(tv@);
            vstd::seq_lib::seq_to_set_is_finite(items@);
            first_union(fs, n as nat).union(tv@.to_set()).lemma_map_finite(|t: usize| LR1Lookahead::Terminal(t));
            s_init.lemma_map_finite(|it: (Item, LR1Lookahead)| it.1);
            lemma_lr0_box(g);
            lemma_pairs_finite(lr0_box(g), la);
            assert forall|t: usize| first_union(fs, n as nat).contains(t) implies la.contains(LR1Lookahead::Terminal(t)) by {
                assert(first_union(fs, n as nat).union(tv@.to_set()).contains(t));
            }
            assert forall|t: usize| occurs_terminal(g, t) implies la.contains(LR1Lookahead::Terminal(t)) by {
                assert(tv@.contains(t));
                assert(first_union(fs, n as nat).union(tv@.to_set()).contains(t));
            }
            assert forall|it: (Item, LR1Lookahead)| #[trigger] items@.to_set().contains(it) implies la.contains(it.1) && lalr_forced(g, fs, s_init, it) by {
                assert(s_init.map(|it: (Item, LR1Lookahead)| it.1).contains(it.1));
            }
        }
        loop
            invariant_except_break
                self.wf(),
                first_sets.wf(*self),
                g == *self,
                fs == *first_sets,
                n == g.num_nonterminals(),
                universe.finite(),
                forall|t: usize| first_union(fs, n as nat).contains(t) ==> la.contains(LR1Lookahead::Terminal(t)),
                forall|t: usize| occurs_terminal(g, t) ==> la.contains(LR1Lookahead::Terminal(t)),
                forall|x: (Item, LR1Lookahead)| x.0.valid(g) && la.contains(x.1) ==> #[trigger] universe.contains(x),
                lalr_closure_inv(g, fs, s_init, la, universe, items@),
            ensures
                lalr_closure_inv(g, fs, s_init, la, universe, items@),
                lalr_closed(g, fs, items@.to_set()),
            decreases universe.len() - items@.len(),
        {
            let ghost s0 = items@.to_set();
            let ghost items0 = items@;
            let mut added: Vec<(Item, LR1Lookahead)> = Vec::new();
            let k = items.len();
            for i in 0..k
                invariant
                    self.wf(),
                    first_sets.wf(*self),
                    g == *self,
                    fs == *first_sets,
                    n == g.num_nonterminals(),
                    k == items0.len(),
                    items@ == items0,
                    s0 == items0.to_set(),
                    forall|t: usize| first_union(fs, n as nat).contains(t) ==> la.contains(LR1Lookahead::Terminal(t)),
                    forall|t: usize| occurs_terminal(g, t) ==> la.contains(LR1Lookahead::Terminal(t)),
                    lalr_closure_inv(g, fs, s_init, la, universe, items@),
                    added@.no_duplicates(),
                    forall|x: (Item, LR1Lookahead)| #[trigger] added@.to_set().contains(x) ==> x.0.valid(g) && la.contains(x.1) && lalr_forced(g, fs, s_init, x),
                    forall|j: int, x: (Item, LR1Lookahead)| 0 <= j < i && #[trigger] lalr_adds_of(g, fs, items0[j]).contains(x) ==> added@.to_set().contains(x),
            {
                let item = items[i];
                assert(items@.to_set().contains(item));
                let ghost before = added@.to_set();
                self.lalr_close_item(item, first_sets, &mut added, Ghost(la));
                proof {
                    assert forall|x: (Item, LR1Lookahead)| #[trigger] added@.to_set().contains(x) implies x.0.valid(g) && la.contains(x.1) && lalr_forced(g, fs, s_init, x) by {
                        if !before.contains(x) {
                            assert(lalr_adds_of(g, fs, item).contains(x));
                            assert forall|s: Set<(Item, LR1Lookahead)>| s_init.subset_of(s) && #[trigger] lalr_closed(g, fs, s) implies s.contains(x) by {
                                assert(lalr_forced(g, fs, s_init, item));
                                assert(s.contains(item));
                                assert(lalr_adds(g, fs, item, x));
                            }
                        }
                    }
                }
            }
            let mut changed = false;
            let ak = added.len();
            for i in 0..ak
                invariant
                    self.wf(),
                    g == *self,
                    n == g.num_nonterminals(),
                    ak == added@.len(),
                    items@.no_duplicates(),
                    items@.to_set() == s0.union(added@.subrange(0, i as int).to_set()),
                    !changed ==> items@ == items0,
                    changed ==> items@.len() > items0.len(),
                    items@.len() >= items0.len(),
                    forall|x: (Item, LR1Lookahead)| #[trigger] added@.to_set().contains(x) ==> x.0.valid(g) && la.contains(x.1) && lalr_forced(g, fs, s_init, x),
                    s_init.subset_of(s0),
                    items0.no_duplicates(),
                    forall|x: (Item, LR1Lookahead)| x.0.valid(g) && la.contains(x.1) ==> #[trigger] universe.contains(x),
                    forall|it: (Item, LR1Lookahead)| #[trigger] items@.to_set().contains(it) ==> it.0.valid(g) && la.contains(it.1) && lalr_forced(g, fs, s_init, it),
            {
                let x = added[i];
                assert(added@.to_set().contains(x));
                if insert_pair(items, x) {
                    changed = true;
                }
                proof {
                    assert(added@.subrange(0, i + 1) == added@.subrange(0, i as int).push(x));
                    lemma_push_to_set(added@.subrange(0, i as int), x);
                    assert(items@.to_set() =~= s0.union(added@.subrange(0, i + 1).to_set()));
                }
            }
            proof {
                assert(added@.subrange(0, ak as int) =~= added@);
                assert(items@.to_set() == s0.union(added@.to_set()));
                assert forall|it: (Item, LR1Lookahead)| #[trigger] items@.to_set().contains(it) implies it.0.valid(g) by {}
                assert(lalr_valid(g, items@.to_set()));
                assert forall|it: (Item, LR1Lookahead)| #[trigger] items@.to_set().contains(it) implies universe.contains(it) by {
                    assert(it.0.valid(g));
                }
                assert(items@.to_set().subset_of(universe));
                items@.unique_seq_to_set();
                vstd::set_lib::lemma_len_subset(items@.to_set(), universe);
            }
            if !changed {
                proof {
                    assert forall|it: (Item, LR1Lookahead), x: (Item, LR1Lookahead)| items@.to_set().contains(it) && #[trigger] lalr_adds(g, fs, it, x) implies items@.to_set().contains(x) by {
                        let j = choose|j: int| 0 <= j < items0.len() && items0[j] == it;
                        assert(lalr_adds_of(g, fs, items0[j]).contains(x));
                        assert(added@.to_set().contains(x));
                    }
                }
                break;
            }
        }
        proof {
            assert(tv@.to_set() =~= Set::new(|t: usize| occurs_terminal(g, t)));
            assert(la =~= lalr_lookahead_pool(g, fs).union(s_init.map(|it: (Item, LR1Lookahead)| it.1)));
            assert forall|s: Set<(Item, LR1Lookahead)>| s_init.subset_of(s) && #[trigger] lalr_closed(g, fs, s) implies items@.to_set().subset_of(s) by {
                assert forall|it: (Item, LR1Lookahead)| items@.to_set().contains(it) implies s.contains(it) by {
                    assert(lalr_forced(g, fs, s_init, it));
                }
            }
        }
    }
}

/// The item `it` with its dot moved over one symbol.
pub open spec fn advance(it: Item) -> Item {
    Item { lhs: it.lhs, rhs: it.rhs, pos: (it.pos + 1) as usize }
}

/// The lookaheads `s` of the kernel items of the LR(0) states with the
/// transitions `trans` are closed: the start items of state 0 have the
/// endmarker, and for each kernel item `p` of a state `i`, each item
/// `[B -> γ·Xδ, b]` of the closure of `{p}` gives `[B -> γX·δ, b]` in the
/// state that `i` goes to on `X`. An element `(i, p)` of `s` is the item
/// with lookahead `p` in the kernel of state `i`.
pub open spec fn la_closed(g: Grammar, fs: FirstSets, trans: Seq<Seq<(Symbol, usize)>>, s: Set<(usize, (Item, LR1Lookahead))>) -> bool {
    &&& forall|x: Item| #[trigger] initial_kernel(g).contains(x) ==> s.contains((0usize, (x, LR1Lookahead::Endmarker)))
    &&& forall|i: usize, p: (Item, LR1Lookahead), y: (Item, LR1Lookahead), k: int|
        #![trigger s.contains((i, p)), lalr_forced(g, fs, set![p], y), trans[i as int][k]]
        (i as int) < trans.len() && s.contains((i, p)) && lalr_forced(g, fs, set![p], y) && 0 <= k < trans[i as int].len()
            && y.0.spec_next_symbol(g) == Some(trans[i as int][k].0)
            ==> s.contains((trans[i as int][k].1, (advance(y.0), y.1)))
}

/// `s` are the LALR(1) lookaheads of the kernel items: the least closed
/// lookaheads.
pub open spec fn lalr_lookaheads(g: Grammar, fs: FirstSets, trans: Seq<Seq<(Symbol, usize)>>, s: Set<(usize, (Item, LR1Lookahead))>) -> bool {
    &&& la_closed(g, fs, trans, s)
    &&& forall|s2: Set<(usize, (Item, LR1Lookahead))>| #[trigger] la_closed(g, fs, trans, s2) ==> s.subset_of(s2)
}

/// Whether `v` holds `x`.
fn contains_la(v: &Vec<(usize, (Item, LR1Lookahead))>, x: (usize, (Item, LR1Lookahead))) -> (r: bool)
    ensures
        r == v@.contains(x),
{
    let n = v.len();
    for i in 0..n
        invariant
            n == v@.len(),
            forall|j: int| 0 <= j < i ==> v@[j] != x,
    {
        let y = v[i];
        if y.0 == x.0 && y.1.0 == x.1.0 && y.1.1 == x.1.1 {
            assert(v@[i as int] == x);
            return true;
        }
    }
    false
}

/// The target of the transition on `x` among `tr`, if there is one.
fn find_transition(tr: &Vec<(Symbol, usize)>, x: Symbol) -> (r: Option<usize>)
    ensures
        r matches Some(d) ==> exists|k: int| 0 <= k < tr@.len() && #[trigger] tr@[k] == (x, d),
        r is None ==> forall|k: int| 0 <= k < tr@.len() ==> (#[trigger] tr@[k]).0 != x,
{
    let n = tr.len();
    for k in 0..n
        invariant
            n == tr@.len(),
            forall|j: int| 0 <= j < k ==> (#[trigger] tr@[j]).0 != x,
    {
        if tr[k].0 == x {
            assert(tr@[k as int] == (x, tr@[k as int].1));
            return Some(tr[k].1);
        }
    }
    None
}

/// The numbers below `n`, as a set.
pub open spec fn below(n: nat) -> Set<usize> {
    Seq::new(n, |j: int| j as usize).to_set()
}

proof fn lemma_below(n: nat)
    requires
        n <= usize::MAX + 1,
    ensures
        below(n).finite(),
        forall|i: usize| (i as int) < n ==> #[trigger] below(n).contains(i),
{
    vstd::seq_lib::seq_to_set_is_finite(Seq::new(n, |j: int| j as usize));
    assert forall|i: usize| (i as int) < n implies #[trigger] below(n).contains(i) by {
        assert(Seq::new(n, |j: int| j as usize)[i as int] == i);
    }
}

proof fn lemma_pool_finite(g: Grammar, fs: FirstSets)
    requires
        first_union(fs, g.num_nonterminals()).finite(),
        Set::new(|t: usize| occurs_terminal(g, t)).finite(),
    ensures
        lalr_lookahead_pool(g, fs).finite(),
{
    let u = first_union(fs, g.num_nonterminals()).union(Set::new(|t: usize| occurs_terminal(g, t)));
    u.lemma_map_finite(|t: usize| LR1Lookahead::Terminal(t));
}

/// What holds of the lookaheads found so far while they are propagated.
pub open spec fn la_found(g: Grammar, fs: FirstSets, trans: Seq<Seq<(Symbol, usize)>>, la: Seq<(usize, (Item, LR1Lookahead))>) -> bool {
    &&& la.no_duplicates()
    &&& forall|e: (usize, (Item, LR1Lookahead))| #[trigger] la.contains(e) ==>
        (e.0 as int) < trans.len() && e.1.0.valid(g) && lalr_lookahead_pool(g, fs).contains(e.1.1)
    &&& forall|e: (usize, (Item, LR1Lookahead)), s2: Set<(usize, (Item, LR1Lookahead))>|
        #[trigger] la.contains(e) && #[trigger] la_closed(g, fs, trans, s2) ==> s2.contains(e)
    &&& forall|x: Item| #[trigger] initial_kernel(g).contains(x) ==> la.contains((0usize, (x, LR1Lookahead::Endmarker)))
}

/// Each item of the closure of the kernel item `la[q]` has its lookahead
/// propagated in `la`.
pub open spec fn la_propagated(g: Grammar, fs: FirstSets, trans: Seq<Seq<(Symbol, usize)>>, la: Seq<(usize, (Item, LR1Lookahead))>, e: (usize, (Item, LR1Lookahead))) -> bool {
    forall|y: (Item, LR1Lookahead), k: int|
        #![trigger lalr_forced(g, fs, set![e.1], y), trans[e.0 as int][k]]
        lalr_forced(g, fs, set![e.1], y) && 0 <= k < trans[e.0 as int].len()
            && y.0.spec_next_symbol(g) == Some(trans[e.0 as int][k].0)
            ==> la.contains((trans[e.0 as int][k].1, (advance(y.0), y.1)))
}

proof fn lemma_la_push(g: Grammar, fs: FirstSets, trans: Seq<Seq<(Symbol, usize)>>, la: Seq<(usize, (Item, LR1Lookahead))>, e: (usize, (Item, LR1Lookahead)))
    requires
        la_found(g, fs, trans, la),
        !la.contains(e),
        (e.0 as int) < trans.len(),
        e.1.0.valid(g),
        lalr_lookahead_pool(g, fs).contains(e.1.1),
        forall|s2: Set<(usize, (Item, LR1Lookahead))>| #[trigger] la_closed(g, fs, trans, s2) ==> s2.contains(e),
    ensures
        la_found(g, fs, trans, la.push(e)),
{
    let l2 = la.push(e);
    assert forall|x: (usize, (Item, LR1Lookahead))| #[trigger] l2.contains(x) implies x == e || la.contains(x) by {
        let j = choose|j: int| 0 <= j < l2.len() && l2[j] == x;
        if j < la.len() {
            assert(la[j] == x);
        }
    }
    assert forall|x: (usize, (Item, LR1Lookahead))| la.contains(x) implies #[trigger] l2.contains(x) by {
        let j = choose|j: int| 0 <= j < la.len() && la[j] == x;
        assert(l2[j] == x);
    }
    assert(l2.no_duplicates()) by {
        assert forall|j1: int, j2: int| 0 <= j1 < l2.len() && 0 <= j2 < l2.len() && j1 != j2 implies l2[j1] != l2[j2] by {
            if j1 < la.len() && j2 < la.len() {
                assert(la[j1] != la[j2]);
            } else if j1 < la.len() {
                assert(la.contains(la[j1]));
            } else {
                assert(la.contains(la[j2]));
            }
        }
    }
}

proof fn lemma_propagated_grow(g: Grammar, fs: FirstSets, trans: Seq<Seq<(Symbol, usize)>>, la: Seq<(usize, (Item, LR1Lookahead))>, l2: Seq<(usize, (Item, LR1Lookahead))>, e: (usize, (Item, LR1Lookahead)))
    requires
        la_propagated(g, fs, trans, la, e),
        forall|x: (usize, (Item, LR1Lookahead))| la.contains(x) ==> #[trigger] l2.contains(x),
    ensures
        la_propagated(g, fs, trans, l2, e),
{
}

impl Grammar {
    /// The LALR(1) lookaheads of the kernel items of the LR(0) automaton
    /// `a`: the start items of state 0 get the endmarker, and each kernel
    /// item passes the lookaheads of its closure on to the kernels of the
    /// states its state goes to, until nothing more is passed on.
    fn lalr_propagate(&self, a: &LR0Automaton, first_sets: &FirstSets) -> (la: Vec<(usize, (Item, LR1Lookahead))>)
        requires
            self.wf(),
            first_sets.wf(*self),
            is_lr0_collection(*self, a.states@),
        ensures
            la_found(*self, *first_sets, state_trans(a.states@), la@),
            lalr_lookaheads(*self, *first_sets, state_trans(a.states@), la@.to_set()),
    {
        let ghost g = *self;
        let ghost fs = *first_sets;
        let ghost trans = state_trans(a.states@);
        let ghost pool = lalr_lookahead_pool(g, fs);
        let n = a.states.len();
        let ghost universe = pairs(below(n as nat), pairs(lr0_box(g), pool));
        let tv = self.terminals();
        proof {
            vstd::seq_lib::seq_to_set_is_finite(tv@);
            lemma_below(n as nat);
            lemma_lr0_box(g);
            lemma_first_union(fs, g.num_nonterminals());
            assert(Set::new(|t: usize| occurs_terminal(g, t)) =~= tv@.to_set());
            lemma_pool_finite(g, fs);
            lemma_pairs_finite(lr0_box(g), pool);
            lemma_pairs_finite(below(n as nat), pairs(lr0_box(g), pool));
            assert(a.states@.len() == trans.len());
        }
        let init = self.initial_items();
        let mut la: Vec<(usize, (Item, LR1Lookahead))> = Vec::new();
        let ni = init.len();
        for q in 0..ni
            invariant
                ni == init@.len(),
                init@.no_duplicates(),
                init@.to_set() == initial_kernel(g),
                all_valid0(g, init@.to_set()),
                la@ == Seq::new(q as nat, |j: int| (0usize, (init@[j], LR1Lookahead::Endmarker))),
        {
            la.push((0, (init[q], LR1Lookahead::Endmarker)));
            assert(la@ =~= Seq::new((q + 1) as nat, |j: int| (0usize, (init@[j], LR1Lookahead::Endmarker))));
        }
        proof {
            assert(la_found(g, fs, trans, la@)) by {
                assert forall|j1: int, j2: int| 0 <= j1 < la@.len() && 0 <= j2 < la@.len() && j1 != j2 implies la@[j1] != la@[j2] by {
                    assert(init@[j1] != init@[j2]);
                }
                assert forall|e: (usize, (Item, LR1Lookahead))| #[trigger] la@.contains(e) implies
                    (e.0 as int) < trans.len() && e.1.0.valid(g) && pool.contains(e.1.1) by {
                    let j = choose|j: int| 0 <= j < la@.len() && la@[j] == e;
                    assert(init@.to_set().contains(init@[j]));
                }
                assert forall|e: (usize, (Item, LR1Lookahead)), s2: Set<(usize, (Item, LR1Lookahead))>|
                    #[trigger] la@.contains(e) && #[trigger] la_closed(g, fs, trans, s2) implies s2.contains(e) by {
                    let j = choose|j: int| 0 <= j < la@.len() && la@[j] == e;
                    assert(init@.to_set().contains(init@[j]));
                    assert(initial_kernel(g).contains(init@[j]));
                }
                assert forall|x: Item| #[trigger] initial_kernel(g).contains(x) implies la@.contains((0usize, (x, LR1Lookahead::Endmarker))) by {
                    assert(init@.to_set().contains(x));
                    let j = choose|j: int| 0 <= j < init@.len() && init@[j] == x;
                    assert(la@[j] == (0usize, (x, LR1Lookahead::Endmarker)));
                }
            }
        }
        loop
            invariant_except_break
                self.wf(),
                first_sets.wf(*self),
                g == *self,
                fs == *first_sets,
                pool == lalr_lookahead_pool(g, fs),
                trans == state_trans(a.states@),
                is_lr0_collection(g, a.states@),
                n == a.states@.len(),
                universe == pairs(below(n as nat), pairs(lr0_box(g), pool)),
                universe.finite(),
                forall|x: Item| #[trigger] x.valid(g) ==> lr0_box(g).contains(x),
                forall|i: usize| (i as int) < n ==> #[trigger] below(n as nat).contains(i),
                la_found(g, fs, trans, la@),
            ensures
                la_found(g, fs, trans, la@),
                forall|e: (usize, (Item, LR1Lookahead))| #[trigger] la@.contains(e) ==> la_propagated(g, fs, trans, la@, e),
            decreases universe.len() - la@.len(),
        {
            let m = la.len();
            let ghost la0 = la@;
            let mut changed = false;
            for q in 0..m
                invariant
                    self.wf(),
                    first_sets.wf(*self),
                    g == *self,
                    fs == *first_sets,
                    pool == lalr_lookahead_pool(g, fs),
                    trans == state_trans(a.states@),
                    is_lr0_collection(g, a.states@),
                    n == a.states@.len(),
                    m == la0.len(),
                    la_found(g, fs, trans, la@),
                    la0.is_prefix_of(la@),
                    changed ==> la@.len() > m,
                    !changed ==> la@ == la0,
                    forall|q2: int| 0 <= q2 < q ==> la_propagated(g, fs, trans, la@, #[trigger] la0[q2]),
            {
                assert(la@[q as int] == la0[q as int]);
                let (i, p) = la[q];
                assert(la@.contains((i, p)));
                let mut c: Vec<(Item, LR1Lookahead)> = Vec::new();
                c.push(p);
                proof {
                    assert(c@ =~= seq![p]);
                    assert forall|x: (Item, LR1Lookahead)| c@.to_set().contains(x) <==> set![p].contains(x) by {
                        if x == p {
                            assert(c@[0] == p);
                        }
                    }
                    assert(c@.to_set() =~= set![p]);
                    assert(c@.no_duplicates());
                }
                self.lalr1_closure(&mut c, first_sets);
                proof {
                    assert(a.states@[i as int].transitions@ == trans[i as int]);
                    assert(trans_ok(g, state_sets(a.states@), a.states@[i as int].transitions@, i as int));
                    assert(set![p].contains(p));
                    assert(set![p].map(|x: (Item, LR1Lookahead)| x.1) =~= set![p.1]);
                }
                let tr = &a.states[i].transitions;
                let nc = c.len();
                for r in 0..nc
                    invariant
                        self.wf(),
                        g == *self,
                        fs == *first_sets,
                        pool == lalr_lookahead_pool(g, fs),
                        trans == state_trans(a.states@),
                        n == a.states@.len(),
                        (i as int) < n,
                        tr@ == trans[i as int],
                        trans_ok(g, state_sets(a.states@), tr@, i as int),
                        nc == c@.len(),
                        lalr_valid(g, c@.to_set()),
                        pool.contains(p.1),
                        la0.contains((i, p)),
                        forall|y: (Item, LR1Lookahead)| #[trigger] c@.to_set().contains(y) ==> pool.contains(y.1) || y.1 == p.1,
                        forall|y: (Item, LR1Lookahead)| #[trigger] c@.to_set().contains(y) ==> lalr_forced(g, fs, set![p], y),
                        m == la0.len(),
                        la_found(g, fs, trans, la@),
                        la0.is_prefix_of(la@),
                        changed ==> la@.len() > m,
                        !changed ==> la@ == la0,
                        forall|q2: int| 0 <= q2 < q ==> la_propagated(g, fs, trans, la@, #[trigger] la0[q2]),
                        forall|r2: int, k: int| 0 <= r2 < r && 0 <= k < tr@.len() && (#[trigger] c@[r2]).0.spec_next_symbol(g) == Some((#[trigger] tr@[k]).0)
                            ==> la@.contains((tr@[k].1, (advance(c@[r2].0), c@[r2].1))),
                {
                    let y = c[r];
                    assert(c@.to_set().contains(y));
                    match y.0.next_symbol(self) {
                        Some(x) => {
                            match find_transition(tr, x) {
                                Some(d) => {
                                    let blen = self.rules[y.0.lhs][y.0.rhs].body.len();
                                    assert(y.0.pos < blen);
                                    let e = (d, (Item { lhs: y.0.lhs, rhs: y.0.rhs, pos: y.0.pos + 1 }, y.1));
                                    proof {
                                        let k0 = choose|k: int| 0 <= k < tr@.len() && #[trigger] tr@[k] == (x, d);
                                        assert(e == (trans[i as int][k0].1, (advance(y.0), y.1)));
                                        assert forall|s2: Set<(usize, (Item, LR1Lookahead))>| #[trigger] la_closed(g, fs, trans, s2) implies s2.contains(e) by {
                                            assert(la@.contains((i, p)));
                                            assert(s2.contains((i, p)));
                                            assert(lalr_forced(g, fs, set![p], y));
                                            assert(trans[i as int][k0] == (x, d));
                                        }
                                    }
                                    if !contains_la(&la, e) {
                                        let ghost before = la@;
                                        la.push(e);
                                        changed = true;
                                        proof {
                                            let k0 = choose|k: int| 0 <= k < tr@.len() && #[trigger] tr@[k] == (x, d);
                                            assert(tr@[k0].1 < state_sets(a.states@).len());
                                            lemma_la_push(g, fs, trans, before, e);
                                            assert(la@[la@.len() - 1] == e);
                                            assert forall|x2: (usize, (Item, LR1Lookahead))| before.contains(x2) implies #[trigger] la@.contains(x2) by {
                                                let j = choose|j: int| 0 <= j < before.len() && before[j] == x2;
                                                assert(la@[j] == x2);
                                            }
                                            assert forall|r2: int, k: int| 0 <= r2 < r && 0 <= k < tr@.len() && (#[trigger] c@[r2]).0.spec_next_symbol(g) == Some((#[trigger] tr@[k]).0)
                                                implies la@.contains((tr@[k].1, (advance(c@[r2].0), c@[r2].1))) by {
                                                assert(before.contains((tr@[k].1, (advance(c@[r2].0), c@[r2].1))));
                                            }
                                            assert(la0.is_prefix_of(la@)) by {
                                                assert forall|j: int| 0 <= j < la0.len() implies la@[j] == la0[j] by {
                                                    assert(before[j] == la0[j]);
                                                }
                                            }
                                            assert forall|q2: int| 0 <= q2 < q implies la_propagated(g, fs, trans, la@, #[trigger] la0[q2]) by {
                                                lemma_propagated_grow(g, fs, trans, before, la@, la0[q2]);
                                            }
                                        }
                                    }
                                    proof {
                                        assert(la@.contains(e));
                                        assert forall|k: int| 0 <= k < tr@.len() && y.0.spec_next_symbol(g) == Some((#[trigger] tr@[k]).0) implies la@.contains((tr@[k].1, (advance(y.0), y.1))) by {
                                            let k0 = choose|k: int| 0 <= k < tr@.len() && #[trigger] tr@[k] == (x, d);
                                            if k != k0 {
                                                assert(tr@[k].0 != tr@[k0].0);
                                            }
                                        }
                                    }
                                },
                                None => {},
                            }
                        },
                        None => {},
                    }
                    proof {
                        assert(c@[r as int] == y);
                        assert forall|r2: int, k: int| 0 <= r2 < r + 1 && 0 <= k < tr@.len() && (#[trigger] c@[r2]).0.spec_next_symbol(g) == Some((#[trigger] tr@[k]).0)
                            implies la@.contains((tr@[k].1, (advance(c@[r2].0), c@[r2].1))) by {
                            if r2 == r {
                                assert(y.0.spec_next_symbol(g) == Some(tr@[k].0));
                            }
                        }
                    }
                }
                proof {
                    assert forall|yy: (Item, LR1Lookahead), k: int|
                        lalr_forced(g, fs, set![p], yy) && 0 <= k < trans[i as int].len() && yy.0.spec_next_symbol(g) == Some(trans[i as int][k].0)
                        implies la@.contains((trans[i as int][k].1, (advance(yy.0), yy.1))) by {
                        assert(set![p].subset_of(c@.to_set()));
                        assert(c@.to_set().contains(yy));
                        let r2 = choose|r2: int| 0 <= r2 < c@.len() && c@[r2] == yy;
                        assert(tr@[k] == trans[i as int][k]);
                    }
                    assert(la_propagated(g, fs, trans, la@, la0[q as int]));
                }
            }
            proof {
                assert forall|e: (usize, (Item, LR1Lookahead))| #[trigger] la@.contains(e) implies universe.contains(e) by {
                    assert(lr0_box(g).contains(e.1.0));
                    assert(below(n as nat).contains(e.0));
                }
                la@.unique_seq_to_set();
                vstd::set_lib::lemma_len_subset(la@.to_set(), universe);
            }
            if !changed {
                proof {
                    assert forall|e: (usize, (Item, LR1Lookahead))| #[trigger] la@.contains(e) implies la_propagated(g, fs, trans, la@, e) by {
                        let j = choose|j: int| 0 <= j < la0.len() && la0[j] == e;
                    }
                }
                break;
            }
        }
        proof {
            let st = la@.to_set();
            assert forall|i: usize, p: (Item, LR1Lookahead), y: (Item, LR1Lookahead), k: int|
                (i as int) < trans.len() && st.contains((i, p)) && lalr_forced(g, fs, set![p], y) && 0 <= k < trans[i as int].len()
                    && y.0.spec_next_symbol(g) == Some(trans[i as int][k].0)
                implies st.contains((trans[i as int][k].1, (advance(y.0), y.1))) by {
                assert(la@.contains((i, p)));
                assert(la_propagated(g, fs, trans, la@, (i, p)));
            }
            assert forall|x: Item| #[trigger] initial_kernel(g).contains(x) implies st.contains((0usize, (x, LR1Lookahead::Endmarker))) by {}
            assert(la_closed(g, fs, trans, st));
            assert forall|s2: Set<(usize, (Item, LR1Lookahead))>| #[trigger] la_closed(g, fs, trans, s2) implies st.subset_of(s2) by {
                assert forall|e: (usize, (Item, LR1Lookahead))| st.contains(e) implies s2.contains(e) by {
                    assert(la@.contains(e));
                }
            }
        }
        la
    }
}

/// The kernel items of state `i`, with their lookaheads, among `s`.
pub open spec fn lalr_kernel(s: Set<(usize, (Item, LR1Lookahead))>, i: int) -> Set<(Item, LR1Lookahead)> {
    Set::new(|p: (Item, LR1Lookahead)| s.contains((i as usize, p)))
}

/// The entry that the item `y` gives, with its lookahead: none unless its
/// dot is at the end; for `[S -> γ·, $]` with `S` the start symbol, accept
/// on the endmarker; for `[A -> α·, a]` with `A` another nonterminal, a
/// reduction on `a`.
pub open spec fn lalr_item_entry(g: Grammar, y: (Item, LR1Lookahead)) -> Option<(Option<usize>, LR1Action)> {
    if y.0.pos == g.body(y.0.lhs as int, y.0.rhs as int).len() {
        if y.0.lhs == g.start {
            if y.1 == LR1Lookahead::Endmarker {
                Some((None, LR1Action::Accept))
            } else {
                None
            }
        } else {
            match y.1 {
                LR1Lookahead::Terminal(t) => Some((Some(t), LR1Action::Reduce(y.0.lhs, y.0.rhs))),
                LR1Lookahead::Endmarker => Some((None, LR1Action::Reduce(y.0.lhs, y.0.rhs))),
                LR1Lookahead::NonSymbol => None,
            }
        }
    } else {
        None
    }
}

/// `a` on `sy` is an entry of the LALR(1) state with the transitions `tr`
/// and the kernel items with lookaheads `k`: a shift on a terminal
/// transition, or the entry of an item of the closure of `k`.
pub open spec fn lalr_entry(g: Grammar, fs: FirstSets, tr: Seq<(Symbol, usize)>, k: Set<(Item, LR1Lookahead)>, sy: Option<usize>, a: LR1Action) -> bool {
    ||| (sy is Some && a is Shift && tr.contains((Symbol::Terminal(sy->Some_0), a->Shift_0)))
    ||| exists|y: (Item, LR1Lookahead)| lalr_forced(g, fs, k, y) && #[trigger] lalr_item_entry(g, y) == Some((sy, a))
}

/// The LR(1) state `s` holds exactly the entries of the LALR(1) state with
/// the transitions `tr` and the kernel `k`, and a goto for each
/// nonterminal transition.
pub open spec fn lalr_state_of(g: Grammar, fs: FirstSets, tr: Seq<(Symbol, usize)>, k: Set<(Item, LR1Lookahead)>, s: LR1State) -> bool {
    &&& forall|sy: Option<usize>, a: LR1Action| s.action_on(sy) == Some(a) <==> #[trigger] lalr_entry(g, fs, tr, k, sy, a)
    &&& goto_of(tr, s.goto@)
}

/// Two different entries of that state on one symbol make the conflict `c`.
pub open spec fn lalr_collision(g: Grammar, fs: FirstSets, tr: Seq<(Symbol, usize)>, k: Set<(Item, LR1Lookahead)>, c: LRConflict) -> bool {
    exists|sy: Option<usize>, a1: LR1Action, a2: LR1Action|
        #[trigger] lalr_entry(g, fs, tr, k, sy, a1) && #[trigger] lalr_entry(g, fs, tr, k, sy, a2) && a1 != a2
            && spec_determine_conflict(a1, a2, sy) == Some(c)
}

/// Any two different entries of that state on one symbol make a conflict
/// that can be reported: a shift and a reduction, or two reductions.
pub open spec fn lalr_state_reportable(g: Grammar, fs: FirstSets, tr: Seq<(Symbol, usize)>, k: Set<(Item, LR1Lookahead)>) -> bool {
    forall|sy: Option<usize>, a1: LR1Action, a2: LR1Action|
        #[trigger] lalr_entry(g, fs, tr, k, sy, a1) && #[trigger] lalr_entry(g, fs, tr, k, sy, a2) && a1 != a2
            ==> spec_determine_conflict(a1, a2, sy) is Some
}

/// In the LALR(1) table of `g`, no symbol of any state would get an accept
/// together with another action.
pub open spec fn lalr_reportable(g: Grammar) -> bool {
    forall|fs: FirstSets, s: Set<(usize, (Item, LR1Lookahead))>|
        #![trigger is_first_sets(g, fs), lalr_lookaheads(g, fs, lr0_canonical(g).1, s)]
        is_first_sets(g, fs) && lalr_lookaheads(g, fs, lr0_canonical(g).1, s)
            ==> forall|i: int| 0 <= i < lr0_canonical(g).1.len() ==> lalr_state_reportable(g, fs, lr0_canonical(g).1[i], #[trigger] lalr_kernel(s, i))
}

/// `r` is the LALR(1) table of the LR(0) states with the transitions
/// `trans`, whose kernel items have the lookaheads `s`: one state for each
/// LR(0) state, state 0 first; or a conflict of one of its states.
pub open spec fn lalr_result(g: Grammar, fs: FirstSets, trans: Seq<Seq<(Symbol, usize)>>, s: Set<(usize, (Item, LR1Lookahead))>, r: Result<LR1Table, LRConflict>) -> bool {
    match r {
        Ok(t) => {
            &&& t.initial == 0
            &&& t.states@.len() == trans.len()
            &&& forall|i: int| 0 <= i < trans.len() ==> lalr_state_of(g, fs, trans[i], lalr_kernel(s, i), #[trigger] t.states@[i])
        },
        Err(c) => exists|i: int| 0 <= i < trans.len() && lalr_collision(g, fs, trans[i], #[trigger] lalr_kernel(s, i), c),
    }
}

/// `r` is what building the LALR(1) table gives: the table or a conflict
/// (see `lalr_result`), or nothing where a state has two entries on one
/// symbol that make no conflict to report.
pub open spec fn lalr_outcome(g: Grammar, fs: FirstSets, trans: Seq<Seq<(Symbol, usize)>>, s: Set<(usize, (Item, LR1Lookahead))>, r: Option<Result<LR1Table, LRConflict>>) -> bool {
    match r {
        Some(res) => lalr_result(g, fs, trans, s, res),
        None => exists|i: int| 0 <= i < trans.len() && !lalr_state_reportable(g, fs, trans[i], #[trigger] lalr_kernel(s, i)),
    }
}

proof fn lemma_action_set(s0: LR1State, s1: LR1State, sy: Option<usize>, a: LR1Action)
    requires
        s0.action_on(sy) is None,
        s1.actions@ == (match sy {
            Some(t) => s0.actions@.insert(t, a),
            None => s0.actions@,
        }),
        s1.endmarker == (match sy {
            Some(_) => s0.endmarker,
            None => Some(a),
        }),
    ensures
        forall|sy2: Option<usize>| #[trigger] s1.action_on(sy2) == if sy2 == sy { Some(a) } else { s0.action_on(sy2) },
{
}

/// The kernel items of state `i` with their lookaheads, from `la`.
fn kernel_of(la: &Vec<(usize, (Item, LR1Lookahead))>, i: usize) -> (k: Vec<(Item, LR1Lookahead)>)
    ensures
        k@.no_duplicates(),
        k@.to_set() == lalr_kernel(la@.to_set(), i as int),
{
    let mut k: Vec<(Item, LR1Lookahead)> = Vec::new();
    let n = la.len();
    for j in 0..n
        invariant
            n == la@.len(),
            k@.no_duplicates(),
            k@.to_set() == Set::new(|p: (Item, LR1Lookahead)| la@.subrange(0, j as int).contains((i, p))),
    {
        let e = la[j];
        let ghost before = k@.to_set();
        if e.0 == i {
            insert_pair(&mut k, e.1);
        }
        proof {
            let sub = la@.subrange(0, j + 1);
            assert(sub == la@.subrange(0, j as int).push(e));
            assert forall|p: (Item, LR1Lookahead)| k@.to_set().contains(p) <==> sub.contains((i, p)) by {
                if sub.contains((i, p)) {
                    let q = choose|q: int| 0 <= q < sub.len() && sub[q] == (i, p);
                    if q < j {
                        assert(la@.subrange(0, j as int)[q] == (i, p));
                    }
                }
                if la@.subrange(0, j as int).contains((i, p)) {
                    let q = choose|q: int| 0 <= q < j && la@.subrange(0, j as int)[q] == (i, p);
                    assert(sub[q] == (i, p));
                }
                if e.0 == i && p == e.1 {
                    assert(sub[j as int] == (i, p));
                }
            }
            assert(k@.to_set() =~= Set::new(|p: (Item, LR1Lookahead)| la@.subrange(0, j + 1).contains((i, p))));
        }
    }
    proof {
        assert(la@.subrange(0, n as int) =~= la@);
        assert(k@.to_set() =~= lalr_kernel(la@.to_set(), i as int));
    }
    k
}

impl Grammar {
    /// The LALR(1) state of the LR(0) state `st` whose kernel items have
    /// the lookaheads `k`: a shift on each terminal transition and a goto on
    /// each nonterminal one; then, for each item of the closure of `k` with
    /// its dot at the end, accept or a reduction on its lookahead. Fails with
    /// the conflict of the first entry that meets another on its symbol.
    fn lalr1_state(&self, st: &LR0State, k: Vec<(Item, LR1Lookahead)>, first_sets: &FirstSets) -> (r: Option<Result<LR1State, LRConflict>>)
        requires
            self.wf(),
            first_sets.wf(*self),
            k@.no_duplicates(),
            lalr_valid(*self, k@.to_set()),
            trans_distinct(st.transitions@),
        ensures
            r matches Some(Ok(s)) ==> lalr_state_of(*self, *first_sets, st.transitions@, k@.to_set(), s),
            r matches Some(Err(c)) ==> lalr_collision(*self, *first_sets, st.transitions@, k@.to_set(), c),
            r is None ==> !lalr_state_reportable(*self, *first_sets, st.transitions@, k@.to_set()),
    {
        let ghost g = *self;
        let ghost fs = *first_sets;
        let ghost tr = st.transitions@;
        let ghost ks = k@.to_set();
        let mut full = k;
        self.lalr1_closure(&mut full, first_sets);
        proof {
            assert forall|y: (Item, LR1Lookahead)| #[trigger] full@.to_set().contains(y) <==> lalr_forced(g, fs, ks, y) by {
                if full@.to_set().contains(y) {
                    assert forall|s2: Set<(Item, LR1Lookahead)>| ks.subset_of(s2) && #[trigger] lalr_closed(g, fs, s2) implies s2.contains(y) by {
                        assert(full@.to_set().subset_of(s2));
                    }
                }
            }
        }
        let mut s = LR1State::new();
        let ntr = st.transitions.len();
        for q in 0..ntr
            invariant
                tr == st.transitions@,
                ntr == tr.len(),
                trans_distinct(tr),
                forall|sy: Option<usize>| #[trigger] s.action_on(sy) is Some ==> sy is Some && s.action_on(sy)->Some_0 is Shift
                    && exists|q2: int| 0 <= q2 < q && #[trigger] tr[q2] == (Symbol::Terminal(sy->Some_0), s.action_on(sy)->Some_0->Shift_0),
                forall|q2: int| 0 <= q2 < q && (#[trigger] tr[q2]).0 is Terminal ==> s.action_on(Some(tr[q2].0->Terminal_0)) == Some(LR1Action::Shift(tr[q2].1)),
                forall|m: usize| s.goto@.contains_key(m) <==> exists|k2: int| 0 <= k2 < q && (#[trigger] tr[k2]).0 == Symbol::Nonterminal(m),
                forall|k2: int| 0 <= k2 < q ==> ((#[trigger] tr[k2]).0 matches Symbol::Nonterminal(m) ==> s.goto@[m] == tr[k2].1),
        {
            let (sym, d) = st.transitions[q];
            match sym {
                Symbol::Terminal(t) => {
                    let ghost s0 = s;
                    proof {
                        if s0.action_on(Some(t)) is Some {
                            let q2 = choose|q2: int| 0 <= q2 < q && #[trigger] tr[q2] == (Symbol::Terminal(t), s0.action_on(Some(t))->Some_0->Shift_0);
                            assert(tr[q2].0 == tr[q as int].0);
                        }
                    }
                    let _r = s.set_action(Some(t), LR1Action::Shift(d));
                    proof {
                        lemma_action_set(s0, s, Some(t), LR1Action::Shift(d));
                        assert(tr[q as int] == (Symbol::Terminal(t), d));
                        assert forall|sy: Option<usize>| #[trigger] s.action_on(sy) is Some implies sy is Some && s.action_on(sy)->Some_0 is Shift
                            && exists|q2: int| 0 <= q2 < q + 1 && #[trigger] tr[q2] == (Symbol::Terminal(sy->Some_0), s.action_on(sy)->Some_0->Shift_0) by {
                            if sy != Some(t) {
                                assert(s0.action_on(sy) is Some);
                                let q2 = choose|q2: int| 0 <= q2 < q && #[trigger] tr[q2] == (Symbol::Terminal(sy->Some_0), s0.action_on(sy)->Some_0->Shift_0);
                                assert(tr[q2] == (Symbol::Terminal(sy->Some_0), s.action_on(sy)->Some_0->Shift_0));
                            } else {
                                assert(tr[q as int] == (Symbol::Terminal(sy->Some_0), s.action_on(sy)->Some_0->Shift_0));
                            }
                        }
                        assert forall|q2: int| 0 <= q2 < q + 1 && (#[trigger] tr[q2]).0 is Terminal implies s.action_on(Some(tr[q2].0->Terminal_0)) == Some(LR1Action::Shift(tr[q2].1)) by {
                            if q2 < q && tr[q2].0->Terminal_0 == t {
                                assert(tr[q2].0 == tr[q as int].0);
                            }
                        }
                    }
                },
                Symbol::Nonterminal(m) => {
                    let ghost s0 = s;
                    s.set_goto(m, d);
                    proof {
                        assert forall|sy: Option<usize>| #[trigger] s.action_on(sy) is Some implies sy is Some && s.action_on(sy)->Some_0 is Shift
                            && exists|q2: int| 0 <= q2 < q + 1 && #[trigger] tr[q2] == (Symbol::Terminal(sy->Some_0), s.action_on(sy)->Some_0->Shift_0) by {
                            assert(s.action_on(sy) == s0.action_on(sy));
                            assert(s0.action_on(sy) is Some);
                            let q2 = choose|q2: int| 0 <= q2 < q && #[trigger] tr[q2] == (Symbol::Terminal(sy->Some_0), s0.action_on(sy)->Some_0->Shift_0);
                            assert(tr[q2] == (Symbol::Terminal(sy->Some_0), s.action_on(sy)->Some_0->Shift_0));
                        }
                        assert forall|q2: int| 0 <= q2 < q + 1 && (#[trigger] tr[q2]).0 is Terminal implies s.action_on(Some(tr[q2].0->Terminal_0)) == Some(LR1Action::Shift(tr[q2].1)) by {
                            assert(s.action_on(Some(tr[q2].0->Terminal_0)) == s0.action_on(Some(tr[q2].0->Terminal_0)));
                        }
                        assert forall|k2: int| 0 <= k2 < q implies (#[trigger] tr[k2]).0 != Symbol::Nonterminal(m) by {
                            assert(tr[k2].0 != tr[q as int].0);
                        }
                        assert forall|m2: usize| s.goto@.contains_key(m2) <==> exists|k2: int| 0 <= k2 < q + 1 && (#[trigger] tr[k2]).0 == Symbol::Nonterminal(m2) by {
                            if m2 == m {
                                assert(tr[q as int].0 == Symbol::Nonterminal(m2));
                            } else if exists|k2: int| 0 <= k2 < q + 1 && (#[trigger] tr[k2]).0 == Symbol::Nonterminal(m2) {
                                let k2 = choose|k2: int| 0 <= k2 < q + 1 && (#[trigger] tr[k2]).0 == Symbol::Nonterminal(m2);
                                assert(k2 < q);
                            }
                        }
                        assert forall|k2: int| 0 <= k2 < q + 1 implies ((#[trigger] tr[k2]).0 matches Symbol::Nonterminal(m2) ==> s.goto@[m2] == tr[k2].1) by {
                            if k2 < q {
                                if let Symbol::Nonterminal(m2) = tr[k2].0 {
                                    assert(m2 != m);
                                }
                            }
                        }
                    }
                },
            }
        }
        proof {
            assert forall|sy: Option<usize>, a: LR1Action| s.action_on(sy) == Some(a) implies #[trigger] lalr_entry(g, fs, tr, ks, sy, a) by {
                assert(s.action_on(sy) is Some);
                let q2 = choose|q2: int| 0 <= q2 < ntr && #[trigger] tr[q2] == (Symbol::Terminal(sy->Some_0), s.action_on(sy)->Some_0->Shift_0);
                assert(tr.contains((Symbol::Terminal(sy->Some_0), a->Shift_0)));
            }
            assert(goto_of(tr, s.goto@));
        }
        let nf = full.len();
        for r in 0..nf
            invariant
                self.wf(),
                g == *self,
                fs == *first_sets,
                tr == st.transitions@,
                nf == full@.len(),
                lalr_valid(g, full@.to_set()),
                ks == k@.to_set(),
                forall|y: (Item, LR1Lookahead)| #[trigger] full@.to_set().contains(y) <==> lalr_forced(g, fs, ks, y),
                forall|sy: Option<usize>, a: LR1Action| s.action_on(sy) == Some(a) ==> #[trigger] lalr_entry(g, fs, tr, ks, sy, a),
                forall|q2: int| 0 <= q2 < tr.len() && (#[trigger] tr[q2]).0 is Terminal ==> s.action_on(Some(tr[q2].0->Terminal_0)) == Some(LR1Action::Shift(tr[q2].1)),
                forall|r2: int| 0 <= r2 < r && (#[trigger] lalr_item_entry(g, full@[r2])) is Some
                    ==> s.action_on(lalr_item_entry(g, full@[r2])->Some_0.0) == Some(lalr_item_entry(g, full@[r2])->Some_0.1),
                goto_of(tr, s.goto@),
        {
            let y = full[r];
            proof {
                assert(full@.to_set().contains(y));
            }
            let blen = self.rules[y.0.lhs][y.0.rhs].body.len();
            let mut ent: Option<(Option<usize>, LR1Action)> = None;
            if y.0.pos == blen {
                if y.0.lhs == self.start {
                    if y.1 == LR1Lookahead::Endmarker {
                        ent = Some((None, LR1Action::Accept));
                    }
                } else {
                    match y.1 {
                        LR1Lookahead::Terminal(t) => {
                            ent = Some((Some(t), LR1Action::Reduce(y.0.lhs, y.0.rhs)));
                        },
                        LR1Lookahead::Endmarker => {
                            ent = Some((None, LR1Action::Reduce(y.0.lhs, y.0.rhs)));
                        },
                        LR1Lookahead::NonSymbol => {},
                    }
                }
            }
            assert(ent == lalr_item_entry(g, y));
            let ghost s_top = s;
            if let Some((sy, act)) = ent {
                assert(lalr_entry(g, fs, tr, ks, sy, act));
                match s.action(sy) {
                    None => {
                        let _r = s.set_action(sy, act);
                        proof {
                            lemma_action_set(s_top, s, sy, act);
                        }
                    },
                    Some(existing) => {
                        if existing != act {
                            assert(lalr_entry(g, fs, tr, ks, sy, existing));
                            if LR1State::determine_conflict(&existing, &act, sy).is_none() {
                                return None;
                            }
                            let res = s.set_action(sy, act);
                            match res {
                                Err(c) => {
                                    proof {
                                        assert(spec_determine_conflict(existing, act, sy) == Some(c));
                                        assert(lalr_collision(g, fs, tr, ks, c));
                                    }
                                    return Some(Err(c));
                                },
                                Ok(()) => {},
                            }
                        }
                    },
                }
            }
            proof {
                assert forall|r2: int| 0 <= r2 < r + 1 && (#[trigger] lalr_item_entry(g, full@[r2])) is Some
                    implies s.action_on(lalr_item_entry(g, full@[r2])->Some_0.0) == Some(lalr_item_entry(g, full@[r2])->Some_0.1) by {
                    if r2 < r {
                        let e2 = lalr_item_entry(g, full@[r2])->Some_0;
                        assert(s_top.action_on(e2.0) == Some(e2.1));
                    }
                }
            }
        }
        proof {
            assert forall|sy: Option<usize>, a: LR1Action| #[trigger] lalr_entry(g, fs, tr, ks, sy, a) implies s.action_on(sy) == Some(a) by {
                if sy is Some && a is Shift && tr.contains((Symbol::Terminal(sy->Some_0), a->Shift_0)) {
                    let q2 = choose|q2: int| 0 <= q2 < tr.len() && tr[q2] == (Symbol::Terminal(sy->Some_0), a->Shift_0);
                    assert(tr[q2] == (Symbol::Terminal(sy->Some_0), a->Shift_0));
                    assert(tr[q2].0 is Terminal);
                } else {
                    let y = choose|y: (Item, LR1Lookahead)| lalr_forced(g, fs, ks, y) && #[trigger] lalr_item_entry(g, y) == Some((sy, a));
                    assert(full@.to_set().contains(y));
                    let r2 = choose|r2: int| 0 <= r2 < full@.len() && full@[r2] == y;
                    assert(lalr_item_entry(g, full@[r2]) is Some);
                }
            }
        }
        Some(Ok(s))
    }
}

impl Grammar {
    /// Construct an LALR(1) parse table for the grammar.
    ///
    /// Computes the kernels of the LALR(1) collection of item sets, those
    /// of Algorithm 4.63: the LR(0) automaton gives the states and their
    /// transitions, and each kernel item gets its lookaheads, the endmarker
    /// for the start items and, for the others, those generated in or
    /// propagated through the closures of the kernel items that lead to
    /// them. Here each kernel item with a lookahead is closed and passes
    /// its lookaheads on, round after round, until nothing more is passed
    /// on (`lalr_lookaheads`: the least such lookaheads). The table has one
    /// state for each LR(0) state, state 0 first: a
    /// shift on each terminal transition, a goto on each nonterminal one,
    /// and for each item `[A -> α·, a]` of the closure of its kernel a
    /// reduction on `a`, or accept on the endmarker where `A` is the start
    /// symbol. Fails with a conflict where two entries of a state fall on
    /// one symbol.
    pub fn lalr1_table(&self) -> (r: Result<LR1Table, LRConflict>)
        requires
            self.wf(),
            lalr_reportable(*self),
        ensures
            exists|fs: FirstSets, s: Set<(usize, (Item, LR1Lookahead))>|
                is_first_sets(*self, fs) && lalr_lookaheads(*self, fs, lr0_canonical(*self).1, s)
                    && lalr_result(*self, fs, lr0_canonical(*self).1, s, r),
    {
        self.try_lalr1_table().unwrap()
    }

    /// The LALR(1) table of the grammar as `lalr1_table` builds it, for any
    /// grammar: `None` where two entries of a state on one symbol make no
    /// conflict to report (an accept meeting another action), which never
    /// happens where `lalr_reportable` holds.
    pub fn try_lalr1_table(&self) -> (r: Option<Result<LR1Table, LRConflict>>)
        requires
            self.wf(),
        ensures
            exists|fs: FirstSets, s: Set<(usize, (Item, LR1Lookahead))>|
                is_first_sets(*self, fs) && lalr_lookaheads(*self, fs, lr0_canonical(*self).1, s)
                    && lalr_outcome(*self, fs, lr0_canonical(*self).1, s, r),
            lalr_reportable(*self) ==> r is Some,
    {
        // Compute the LR(0) item set.
        let lr0_automaton = self.lr0_automaton();
        // Compute the first sets.
        let first_sets = self.first_sets();
        let ghost g = *self;
        let ghost fs = first_sets;
        let ghost trans = state_trans(lr0_automaton.states@);
        // The lookaheads of the kernel items.
        let la = self.lalr_propagate(&lr0_automaton, &first_sets);
        let ghost ls = la@.to_set();
        proof {
            assert(is_first_sets(g, fs));
            assert(lalr_lookaheads(g, fs, lr0_canonical(g).1, ls));
        }
        let n = lr0_automaton.states.len();
        let mut states: Vec<LR1State> = Vec::new();
        for i in 0..n
            invariant
                self.wf(),
                first_sets.wf(*self),
                g == *self,
                fs == first_sets,
                trans == state_trans(lr0_automaton.states@),
                trans == lr0_canonical(g).1,
                n == lr0_automaton.states@.len(),
                is_lr0_collection(g, lr0_automaton.states@),
                la_found(g, fs, trans, la@),
                ls == la@.to_set(),
                is_first_sets(g, fs),
                lalr_lookaheads(g, fs, trans, ls),
                states@.len() == i,
                forall|i2: int| 0 <= i2 < i ==> lalr_state_of(g, fs, trans[i2], lalr_kernel(ls, i2), #[trigger] states@[i2]),
        {
            let st = &lr0_automaton.states[i];
            let kernel = kernel_of(&la, i);
            proof {
                assert(st.transitions@ == trans[i as int]);
                assert(trans_ok(g, state_sets(lr0_automaton.states@), st.transitions@, i as int));
                let tr = st.transitions@;
                assert forall|k1: int, k2: int| 0 <= k1 < k2 < tr.len() implies (#[trigger] tr[k1]).0 != (#[trigger] tr[k2]).0 by {}
                assert(trans_distinct(tr));
                assert forall|p: (Item, LR1Lookahead)| #[trigger] kernel@.to_set().contains(p) implies p.0.valid(g) by {
                    assert(la@.contains((i, p)));
                }
            }
            match self.lalr1_state(st, kernel, &first_sets) {
                Some(Ok(s)) => {
                    states.push(s);
                },
                None => {
                    proof {
                        assert(!lalr_state_reportable(g, fs, trans[i as int], lalr_kernel(ls, i as int)));
                        assert(lalr_outcome(g, fs, trans, ls, None));
                    }
                    return None;
                },
                Some(Err(c)) => {
                    proof {
                        assert(lalr_collision(g, fs, trans[i as int], lalr_kernel(ls, i as int), c));
                        assert(lalr_result(g, fs, trans, ls, Err(c)));
                    }
                    return Some(Err(c));
                },
            }
        }
        let t = LR1Table { states, initial: lr0_automaton.start };
        proof {
            assert(lalr_result(g, fs, trans, ls, Ok(t)));
        }
        Some(Ok(t))
    }
}

} // verus!
