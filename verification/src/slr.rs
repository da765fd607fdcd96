use vstd::prelude::*;

use crate::grammar::{Grammar, Symbol, FirstSets, first_closed, first_le};
use crate::follow::{FollowSets, follow_closed, follow_le};
use crate::lr0::{Item, LR0State, LR0Automaton, all_valid0, is_lr0_collection, state_sets, state_trans, lr0_canonical};
use crate::lr1::{LR1Action, LRConflict, LR1State, LR1Table, spec_determine_conflict};

verus! {

/// The shift entries of a state with transitions `tr`, in order: a shift to
/// `d` on `t` for each transition `(t, d)` on a terminal.
pub open spec fn shift_entries(tr: Seq<(Symbol, usize)>) -> Seq<(Option<usize>, LR1Action)>
    decreases tr.len(),
{
    if tr.len() == 0 {
        Seq::empty()
    } else {
        let rest = shift_entries(tr.drop_last());
        match tr.last().0 {
            Symbol::Terminal(t) => rest.push((Some(t), LR1Action::Shift(tr.last().1))),
            Symbol::Nonterminal(_) => rest,
        }
    }
}

/// The entries that the item `it` gives: none unless its dot is at the
/// end; for `[S -> γ·]` with `S` the start symbol, accept on the endmarker;
/// otherwise a reduction on each terminal of FOLLOW of its nonterminal, in
/// the order of `fo`, then on the endmarker if it is in that FOLLOW set.
pub open spec fn item_entries(g: Grammar, fo: FollowSets, it: Item) -> Seq<(Option<usize>, LR1Action)> {
    if it.pos == g.body(it.lhs as int, it.rhs as int).len() {
        if it.lhs != g.start {
            let red = LR1Action::Reduce(it.lhs, it.rhs);
            let ts = fo.sets@[it.lhs as int].terminals@;
            let on_terms = Seq::new(ts.len(), |q: int| (Some(ts[q]), red));
            if fo.sets@[it.lhs as int].endmarker {
                on_terms.push((None, red))
            } else {
                on_terms
            }
        } else {
            seq![(None::<usize>, LR1Action::Accept)]
        }
    } else {
        Seq::empty()
    }
}

/// The entries of the items `items`, in order.
pub open spec fn items_entries(g: Grammar, fo: FollowSets, items: Seq<Item>) -> Seq<(Option<usize>, LR1Action)>
    decreases items.len(),
{
    if items.len() == 0 {
        Seq::empty()
    } else {
        items_entries(g, fo, items.drop_last()) + item_entries(g, fo, items.last())
    }
}

/// The SLR(1) entries of an LR(0) state, in the order they are set: its
/// shifts, then the entries of its items.
pub open spec fn state_entries(g: Grammar, fo: FollowSets, st: LR0State) -> Seq<(Option<usize>, LR1Action)> {
    shift_entries(st.transitions@) + items_entries(g, fo, st.items@)
}

/// No two entries are on the same symbol.
pub open spec fn distinct_syms(e: Seq<(Option<usize>, LR1Action)>) -> bool {
    forall|p: int, q: int| 0 <= p < q < e.len() ==> (#[trigger] e[p]).0 != (#[trigger] e[q]).0
}

/// Any two entries on the same symbol make a conflict that can be
/// reported: a shift and a reduction, or two reductions.
pub open spec fn collisions_reportable(e: Seq<(Option<usize>, LR1Action)>) -> bool {
    forall|p: int, q: int| 0 <= p < q < e.len() && (#[trigger] e[p]).0 == (#[trigger] e[q]).0
        ==> spec_determine_conflict(e[p].1, e[q].1, e[q].0) is Some
}

/// The state `s` holds the entries `d`: the action on each symbol of `d` is
/// its entry, and every action it holds is an entry of `d`.
pub open spec fn applied(s: LR1State, d: Seq<(Option<usize>, LR1Action)>) -> bool {
    &&& forall|p: int| 0 <= p < d.len() ==> s.action_on((#[trigger] d[p]).0) == Some(d[p].1)
    &&& forall|sy: Option<usize>, a: LR1Action| s.action_on(sy) == Some(a) ==> #[trigger] d.contains((sy, a))
}

/// The transitions `tr` on a symbol are pairwise distinct.
pub open spec fn trans_distinct(tr: Seq<(Symbol, usize)>) -> bool {
    forall|k1: int, k2: int| 0 <= k1 < k2 < tr.len() ==> (#[trigger] tr[k1]).0 != (#[trigger] tr[k2]).0
}

/// `goto` maps each nonterminal with a transition in `tr` to its target,
/// and nothing else.
pub open spec fn goto_of(tr: Seq<(Symbol, usize)>, goto: Map<usize, usize>) -> bool {
    &&& forall|m: usize| goto.contains_key(m) <==> exists|k: int| 0 <= k < tr.len() && (#[trigger] tr[k]).0 == Symbol::Nonterminal(m)
    &&& forall|k: int| 0 <= k < tr.len() ==> ((#[trigger] tr[k]).0 matches Symbol::Nonterminal(m) ==> goto[m] == tr[k].1)
}

/// The LR(1) state `s` is the SLR(1) state built from the LR(0) state `st`
/// with the FOLLOW sets `fo`.
pub open spec fn slr_state_of(g: Grammar, fo: FollowSets, st: LR0State, s: LR1State) -> bool {
    let e = state_entries(g, fo, st);
    &&& distinct_syms(e)
    &&& forall|sy: Option<usize>, a: LR1Action| s.action_on(sy) == Some(a) <==> #[trigger] e.contains((sy, a))
    &&& goto_of(st.transitions@, s.goto@)
}

/// `c` is the conflict met at the first entry of `e` on a symbol that an
/// earlier entry has.
pub open spec fn first_conflict(e: Seq<(Option<usize>, LR1Action)>, c: LRConflict) -> bool {
    exists|p: int, q: int|
        0 <= p < q < e.len() && distinct_syms(e.take(q)) && (#[trigger] e[p]).0 == (#[trigger] e[q]).0
            && spec_determine_conflict(e[p].1, e[q].1, e[q].0) == Some(c)
}

/// The first entry of `e` on a symbol that an earlier entry has meets it
/// in a pair that is no conflict to report: an accept and another action,
/// or two shifts.
pub open spec fn first_unreportable(e: Seq<(Option<usize>, LR1Action)>) -> bool {
    exists|p: int, q: int|
        0 <= p < q < e.len() && distinct_syms(e.take(q)) && (#[trigger] e[p]).0 == (#[trigger] e[q]).0
            && spec_determine_conflict(e[p].1, e[q].1, e[q].0) is None
}

/// `r` is the SLR(1) table of the LR(0) states `st` with the FOLLOW sets
/// `fo` and initial state `start`, or the first conflict met in building it.
pub open spec fn slr_result(g: Grammar, fo: FollowSets, st: Seq<LR0State>, start: usize, r: Result<LR1Table, LRConflict>) -> bool {
    match r {
        Ok(t) => {
            &&& t.initial == start
            &&& t.states@.len() == st.len()
            &&& forall|i: int| 0 <= i < st.len() ==> slr_state_of(g, fo, #[trigger] st[i], t.states@[i])
        },
        Err(c) => exists|i: int| 0 <= i < st.len() && first_conflict(state_entries(g, fo, #[trigger] st[i]), c)
            && forall|i2: int| 0 <= i2 < i ==> distinct_syms(state_entries(g, fo, #[trigger] st[i2])),
    }
}

/// `r` is what building the SLR(1) table of the LR(0) states `st` with
/// the FOLLOW sets `fo` gives: the table or the first conflict, or nothing
/// where the first collision of entries is no conflict to report.
pub open spec fn slr_outcome(g: Grammar, fo: FollowSets, st: Seq<LR0State>, start: usize, r: Option<Result<LR1Table, LRConflict>>) -> bool {
    match r {
        Some(res) => slr_result(g, fo, st, start, res),
        None => exists|i: int| 0 <= i < st.len() && first_unreportable(state_entries(g, fo, #[trigger] st[i]))
            && forall|i2: int| 0 <= i2 < i ==> distinct_syms(state_entries(g, fo, #[trigger] st[i2])),
    }
}

proof fn lemma_shift_prefix(tr: Seq<(Symbol, usize)>, k: int)
    requires
        0 <= k <= tr.len(),
    ensures
        shift_entries(tr.take(k)).is_prefix_of(shift_entries(tr)),
    decreases tr.len(),
{
    if k == tr.len() {
        assert(tr.take(k) =~= tr);
    } else {
        lemma_shift_prefix(tr.drop_last(), k);
        assert(tr.drop_last().take(k) =~= tr.take(k));
    }
}

proof fn lemma_items_prefix(g: Grammar, fo: FollowSets, items: Seq<Item>, j: int)
    requires
        0 <= j <= items.len(),
    ensures
        items_entries(g, fo, items.take(j)).is_prefix_of(items_entries(g, fo, items)),
    decreases items.len(),
{
    if j == items.len() {
        assert(items.take(j) =~= items);
    } else {
        lemma_items_prefix(g, fo, items.drop_last(), j);
        assert(items.drop_last().take(j) =~= items.take(j));
    }
}

/// Sets the entry `e[q]` on the state `s`, which holds the entries before
/// it; tells the conflict if an earlier entry is on the same symbol.
fn apply_entry(s: &mut LR1State, sy: Option<usize>, act: LR1Action, e: Ghost<Seq<(Option<usize>, LR1Action)>>, q: Ghost<int>) -> (r: Option<Result<(), LRConflict>>)
    requires
        0 <= q@ < e@.len(),
        e@[q@] == (sy, act),
        distinct_syms(e@.take(q@)),
        applied(*old(s), e@.take(q@)),
    ensures
        final(s).goto@ == old(s).goto@,
        r is None ==> first_unreportable(e@),
        r matches Some(Ok(_)) ==> distinct_syms(e@.take(q@ + 1)) && applied(*final(s), e@.take(q@ + 1)),
        r matches Some(Err(c)) ==> first_conflict(e@, c),
{
    let ghost d = e@.take(q@);
    let ghost d1 = e@.take(q@ + 1);
    assert(d1 == d.push((sy, act)));
    match s.action(sy) {
        Some(existing) => {
            let ghost p = choose|p: int| 0 <= p < d.len() && d[p] == (sy, existing);
            assert(d.contains((sy, existing)));
            assert(e@[p] == d[p]);
            assert(e@[p].0 == e@[q@].0);
            if LR1State::determine_conflict(&existing, &act, sy).is_none() {
                return None;
            }
            let r = s.set_action(sy, act);
            proof {
                if let Err(c) = r {
                    assert(spec_determine_conflict(e@[p].1, e@[q@].1, e@[q@].0) == Some(c));
                }
            }
            Some(r)
        },
        None => {
            let ghost before = *s;
            let r = s.set_action(sy, act);
            proof {
                assert forall|p: int| 0 <= p < q@ implies d[p].0 != sy by {
                    assert(before.action_on(d[p].0) == Some(d[p].1));
                }
                assert forall|p1: int, p2: int| 0 <= p1 < p2 < d1.len() implies (#[trigger] d1[p1]).0 != (#[trigger] d1[p2]).0 by {
                    if p2 < q@ {
                        assert(d[p1] == d1[p1] && d[p2] == d1[p2]);
                    } else {
                        assert(d1[p1] == d[p1]);
                    }
                }
                assert forall|p: int| 0 <= p < d1.len() implies s.action_on((#[trigger] d1[p]).0) == Some(d1[p].1) by {
                    if p < q@ {
                        assert(d1[p] == d[p]);
                        assert(before.action_on(d[p].0) == Some(d[p].1));
                    }
                }
                assert forall|sy2: Option<usize>, a: LR1Action| s.action_on(sy2) == Some(a) implies #[trigger] d1.contains((sy2, a)) by {
                    if sy2 == sy {
                        assert(d1[q@] == (sy, act));
                    } else {
                        assert(before.action_on(sy2) == Some(a));
                        assert(d.contains((sy2, a)));
                        let p = choose|p: int| 0 <= p < d.len() && d[p] == (sy2, a);
                        assert(d1[p] == d[p]);
                    }
                }
            }
            Some(r)
        },
    }
}

proof fn lemma_prefix_take<A>(a: Seq<A>, b: Seq<A>, c: Seq<A>, x: int)
    requires
        (a + b).is_prefix_of(c),
        0 <= x <= b.len(),
    ensures
        c.take(a.len() + x) == a + b.take(x),
        x < b.len() ==> c[a.len() + x] == b[x],
{
    assert(c.take(a.len() + x) =~= a + b.take(x)) by {
        assert forall|y: int| 0 <= y < a.len() + x implies c.take(a.len() + x)[y] == (a + b.take(x))[y] by {
            assert(c[y] == (a + b)[y]);
        }
    }
    if x < b.len() {
        assert(c[a.len() + x] == (a + b)[a.len() + x]);
    }
}

impl Grammar {
    /// The SLR(1) state of the LR(0) state `st` with the FOLLOW sets
    /// `follow`: a shift on each terminal transition and a goto on each
    /// nonterminal one; for each item `[A -> α·]`, a reduction on each
    /// symbol of FOLLOW(A), or accept on the endmarker if `A` is the start
    /// symbol. Fails with the first conflict met.
    fn slr1_state(&self, st: &LR0State, follow: &FollowSets) -> (r: Option<Result<LR1State, LRConflict>>)
        requires
            self.wf(),
            follow.wf(*self),
            all_valid0(*self, st.items@.to_set()),
            trans_distinct(st.transitions@),
        ensures
            r is None ==> first_unreportable(state_entries(*self, *follow, *st)),
            r matches Some(Ok(s)) ==> slr_state_of(*self, *follow, *st, s),
            r matches Some(Err(c)) ==> first_conflict(state_entries(*self, *follow, *st), c),
    {
        let ghost g = *self;
        let ghost fo = *follow;
        let ghost e = state_entries(g, fo, *st);
        let ghost tr = st.transitions@;
        let ghost items = st.items@;
        let ghost sh = shift_entries(tr);
        let mut s = LR1State::new();
        let ghost mut q: int = 0;
        proof {
            assert(e.take(0) =~= Seq::<(Option<usize>, LR1Action)>::empty());
            assert(tr.take(0) =~= Seq::<(Symbol, usize)>::empty());
            assert(s.goto@ =~= Map::<usize, usize>::empty());
        }
        let ntr = st.transitions.len();
        for k in 0..ntr
            invariant
                g == *self,
                fo == *follow,
                ntr == tr.len(),
                tr == st.transitions@,
                items == st.items@,
                e == state_entries(g, fo, *st),
                sh == shift_entries(tr),
                e == sh + items_entries(g, fo, items),
                trans_distinct(tr),
                q == shift_entries(tr.take(k as int)).len(),
                e.take(q) == shift_entries(tr.take(k as int)),
                distinct_syms(e.take(q)),
                applied(s, e.take(q)),
                forall|m: usize| s.goto@.contains_key(m) <==> exists|k2: int| 0 <= k2 < k && (#[trigger] tr[k2]).0 == Symbol::Nonterminal(m),
                forall|k2: int| 0 <= k2 < k ==> ((#[trigger] tr[k2]).0 matches Symbol::Nonterminal(m) ==> s.goto@[m] == tr[k2].1),
        {
            proof {
                lemma_shift_prefix(tr, k + 1);
                assert(tr.take(k + 1).drop_last() =~= tr.take(k as int));
                assert(tr.take(k + 1).last() == tr[k as int]);
            }
            let (sym, d) = st.transitions[k];
            match sym {
                Symbol::Terminal(t) => {
                    proof {
                        let pre = shift_entries(tr.take(k as int));
                        assert(shift_entries(tr.take(k + 1)) == pre.push((Some(t), LR1Action::Shift(d))));
                        lemma_prefix_take(pre, seq![(Some(t), LR1Action::Shift(d))], sh, 1);
                        assert((pre + seq![(Some(t), LR1Action::Shift(d))]) =~= pre.push((Some(t), LR1Action::Shift(d))));
                        assert(pre.push((Some(t), LR1Action::Shift(d))).is_prefix_of(sh));
                        lemma_prefix_take(pre, seq![(Some(t), LR1Action::Shift(d))], sh, 1);
                        lemma_prefix_take(sh, items_entries(g, fo, items), e, 0);
                        assert(sh.is_prefix_of(e)) by {
                            assert(e.subrange(0, sh.len() as int) =~= sh);
                        }
                        assert(e[q] == sh[q]);
                        assert(e.take(q + 1) =~= sh.take(q + 1));
                        assert(seq![(Some(t), LR1Action::Shift(d))].take(1) =~= seq![(Some(t), LR1Action::Shift(d))]);
                    }
                    match apply_entry(&mut s, Some(t), LR1Action::Shift(d), Ghost(e), Ghost(q)) {
                        None => {
                            return None;
                        },
                        Some(Err(c)) => {
                            return Some(Err(c));
                        },
                        Some(Ok(())) => {},
                    }
                    proof {
                        q = q + 1;
                    }
                },
                Symbol::Nonterminal(m) => {
                    let ghost before = s.goto@;
                    s.set_goto(m, d);
                    proof {
                        assert(shift_entries(tr.take(k + 1)) == shift_entries(tr.take(k as int)));
                        assert forall|k2: int| 0 <= k2 < k implies (#[trigger] tr[k2]).0 != Symbol::Nonterminal(m) by {
                            assert(tr[k2].0 != tr[k as int].0);
                        }
                        assert forall|m2: usize| s.goto@.contains_key(m2) <==> exists|k2: int| 0 <= k2 < k + 1 && (#[trigger] tr[k2]).0 == Symbol::Nonterminal(m2) by {
                            if m2 == m {
                                assert(tr[k as int].0 == Symbol::Nonterminal(m2));
                            } else if exists|k2: int| 0 <= k2 < k + 1 && (#[trigger] tr[k2]).0 == Symbol::Nonterminal(m2) {
                                let k2 = choose|k2: int| 0 <= k2 < k + 1 && (#[trigger] tr[k2]).0 == Symbol::Nonterminal(m2);
                                assert(k2 < k);
                            }
                        }
                        assert forall|k2: int| 0 <= k2 < k + 1 implies ((#[trigger] tr[k2]).0 matches Symbol::Nonterminal(m2) ==> s.goto@[m2] == tr[k2].1) by {
                            if k2 < k {
                                if let Symbol::Nonterminal(m2) = tr[k2].0 {
                                    assert(m2 != m);
                                }
                            }
                        }
                    }
                },
            }
        }
        proof {
            assert(tr.take(ntr as int) =~= tr);
            lemma_prefix_take(sh, items_entries(g, fo, items), e, 0);
            assert(items.take(0) =~= Seq::<Item>::empty());
            assert(sh + items_entries(g, fo, items.take(0)) =~= sh);
            assert forall|m: usize| s.goto@.contains_key(m) <==> exists|k2: int| 0 <= k2 < tr.len() && (#[trigger] tr[k2]).0 == Symbol::Nonterminal(m) by {}
        }
        let ni = st.items.len();
        for j in 0..ni
            invariant
                self.wf(),
                follow.wf(*self),
                g == *self,
                fo == *follow,
                tr == st.transitions@,
                items == st.items@,
                ni == items.len(),
                all_valid0(g, items.to_set()),
                e == state_entries(g, fo, *st),
                sh == shift_entries(tr),
                e == sh + items_entries(g, fo, items),
                q == (sh + items_entries(g, fo, items.take(j as int))).len(),
                e.take(q) == sh + items_entries(g, fo, items.take(j as int)),
                distinct_syms(e.take(q)),
                applied(s, e.take(q)),
                goto_of(tr, s.goto@),
        {
            let it = st.items[j];
            let ghost base = sh + items_entries(g, fo, items.take(j as int));
            let ghost ie = item_entries(g, fo, it);
            proof {
                lemma_items_prefix(g, fo, items, j + 1);
                assert(items.take(j + 1).drop_last() =~= items.take(j as int));
                assert(items.take(j + 1).last() == it);
                assert(items_entries(g, fo, items.take(j + 1)) == items_entries(g, fo, items.take(j as int)) + ie);
                assert((base + ie).is_prefix_of(e)) by {
                    let x = items_entries(g, fo, items.take(j + 1));
                    assert(x.is_prefix_of(items_entries(g, fo, items)));
                    assert(base + ie =~= sh + x);
                    assert(e.subrange(0, (sh + x).len() as int) =~= sh + x) by {
                        assert forall|y: int| 0 <= y < (sh + x).len() implies e[y] == (sh + x)[y] by {
                            if y >= sh.len() {
                                assert(items_entries(g, fo, items)[y - sh.len()] == x[y - sh.len()]);
                            }
                        }
                    }
                }
                assert(items.to_set().contains(it));
                assert(it.valid(g));
                lemma_prefix_take(base, ie, e, 0);
                assert(ie.take(0) =~= Seq::<(Option<usize>, LR1Action)>::empty());
                assert(base + ie.take(0) =~= base);
            }
            let blen = self.rules[it.lhs][it.rhs].body.len();
            if it.pos == blen {
                let red = LR1Action::Reduce(it.lhs, it.rhs);
                if it.lhs != self.start {
                    let fl = &follow.sets[it.lhs];
                    let nt = fl.terminals.len();
                    for x in 0..nt
                        invariant
                            g == *self,
                            fo == *follow,
                            e == state_entries(g, fo, *st),
                                        (base + ie).is_prefix_of(e),
                            ie == item_entries(g, fo, it),
                            it.pos == g.body(it.lhs as int, it.rhs as int).len(),
                            it.lhs != g.start,
                            it.lhs < g.num_nonterminals(),
                            *fl == fo.sets@[it.lhs as int],
                            nt == fl.terminals@.len(),
                            red == LR1Action::Reduce(it.lhs, it.rhs),
                            q == base.len() + x,
                            e.take(q) == base + ie.take(x as int),
                            distinct_syms(e.take(q)),
                            applied(s, e.take(q)),
                            goto_of(tr, s.goto@),
                    {
                        let t = fl.terminals[x];
                        proof {
                            assert(ie[x as int] == (Some(t), red));
                            lemma_prefix_take(base, ie, e, x as int);
                            lemma_prefix_take(base, ie, e, x + 1);
                        }
                        match apply_entry(&mut s, Some(t), red, Ghost(e), Ghost(q)) {
                            None => {
                                return None;
                            },
                            Some(Err(c)) => {
                                return Some(Err(c));
                            },
                            Some(Ok(())) => {},
                        }
                        proof {
                            q = q + 1;
                        }
                    }
                    if fl.endmarker {
                        proof {
                            assert(ie[nt as int] == (None::<usize>, red));
                            lemma_prefix_take(base, ie, e, nt as int);
                            lemma_prefix_take(base, ie, e, nt + 1);
                        }
                        match apply_entry(&mut s, None, red, Ghost(e), Ghost(q)) {
                            None => {
                                return None;
                            },
                            Some(Err(c)) => {
                                return Some(Err(c));
                            },
                            Some(Ok(())) => {},
                        }
                        proof {
                            q = q + 1;
                            assert(ie.take(nt + 1) =~= ie);
                        }
                    } else {
                        assert(ie.take(nt as int) =~= ie);
                    }
                } else {
                    proof {
                        assert(ie[0] == (None::<usize>, LR1Action::Accept));
                        lemma_prefix_take(base, ie, e, 0);
                        lemma_prefix_take(base, ie, e, 1);
                    }
                    match apply_entry(&mut s, None, LR1Action::Accept, Ghost(e), Ghost(q)) {
                        None => {
                            return None;
                        },
                        Some(Err(c)) => {
                            return Some(Err(c));
                        },
                        Some(Ok(())) => {},
                    }
                    proof {
                        q = q + 1;
                        assert(ie.take(1) =~= ie);
                    }
                }
            } else {
                assert(ie =~= Seq::<(Option<usize>, LR1Action)>::empty());
            }
            proof {
                assert(base + ie =~= sh + items_entries(g, fo, items.take(j + 1)));
            }
        }
        proof {
            assert(items.take(ni as int) =~= items);
            assert(e.take(q) =~= e);
            assert forall|sy: Option<usize>, a: LR1Action| s.action_on(sy) == Some(a) <==> #[trigger] e.contains((sy, a)) by {
                if e.contains((sy, a)) {
                    let p = choose|p: int| 0 <= p < e.len() && e[p] == (sy, a);
                    assert(s.action_on(e[p].0) == Some(e[p].1));
                }
            }
        }
        Some(Ok(s))
    }
}

/// `fs` are the FIRST sets of `g`: the least sets closed under its
/// productions.
pub open spec fn is_first_sets(g: Grammar, fs: FirstSets) -> bool {
    &&& fs.wf(g)
    &&& first_closed(g, fs)
    &&& forall|s: FirstSets| #[trigger] first_closed(g, s) ==> first_le(fs, s, g.num_nonterminals())
}

/// `fo` are the FOLLOW sets of `g` with the FIRST sets `fs`: the least sets
/// closed under the rules that define FOLLOW.
pub open spec fn is_follow_sets(g: Grammar, fs: FirstSets, fo: FollowSets) -> bool {
    &&& fo.wf(g)
    &&& follow_closed(g, fs, fo)
    &&& forall|s: FollowSets| #[trigger] follow_closed(g, fs, s) ==> follow_le(fo, s, g.num_nonterminals())
}

/// In the SLR(1) table of `g`, no symbol of any state would get an accept
/// together with another action: every collision of entries is a
/// shift-reduce or a reduce-reduce conflict.
pub open spec fn slr_reportable(g: Grammar) -> bool {
    forall|st: Seq<LR0State>, fs: FirstSets, fo: FollowSets|
        #![trigger is_lr0_collection(g, st), is_first_sets(g, fs), is_follow_sets(g, fs, fo)]
        is_lr0_collection(g, st) && is_first_sets(g, fs) && is_follow_sets(g, fs, fo)
            ==> forall|i: int| 0 <= i < st.len() ==> collisions_reportable(state_entries(g, fo, #[trigger] st[i]))
}

impl Grammar {
    /// The SLR(1) parse table of the LR(0) automaton `lr0` with the FOLLOW
    /// sets `follow`, state by state, or the first conflict met in building
    /// it; nothing if the first collision of two entries on one symbol is no
    /// conflict to report (an accept and another action).
    pub fn slr1_table_from(&self, lr0: &LR0Automaton, follow: &FollowSets) -> (r: Option<Result<LR1Table, LRConflict>>)
        requires
            self.wf(),
            follow.wf(*self),
            forall|i: int| 0 <= i < lr0.states@.len() ==> all_valid0(*self, (#[trigger] lr0.states@[i]).items@.to_set()),
            forall|i: int| 0 <= i < lr0.states@.len() ==> trans_distinct((#[trigger] lr0.states@[i]).transitions@),
        ensures
            slr_outcome(*self, *follow, lr0.states@, lr0.start, r),
    {
        let mut states: Vec<LR1State> = Vec::new();
        let n = lr0.states.len();
        for i in 0..n
            invariant
                self.wf(),
                follow.wf(*self),
                n == lr0.states@.len(),
                forall|i: int| 0 <= i < lr0.states@.len() ==> all_valid0(*self, (#[trigger] lr0.states@[i]).items@.to_set()),
                forall|i: int| 0 <= i < lr0.states@.len() ==> trans_distinct((#[trigger] lr0.states@[i]).transitions@),
                states@.len() == i,
                forall|i2: int| 0 <= i2 < i ==> slr_state_of(*self, *follow, #[trigger] lr0.states@[i2], states@[i2]),
        {
            let built = self.slr1_state(&lr0.states[i], follow);
            proof {
                assert forall|i2: int| 0 <= i2 < i implies distinct_syms(state_entries(*self, *follow, #[trigger] lr0.states@[i2])) by {
                    assert(slr_state_of(*self, *follow, lr0.states@[i2], states@[i2]));
                }
            }
            match built {
                Some(Ok(s)) => {
                    states.push(s);
                },
                Some(Err(c)) => {
                    return Some(Err(c));
                },
                None => {
                    return None;
                },
            }
        }
        Some(Ok(LR1Table { states, initial: lr0.start }))
    }

    /// Construct an SLR(1) parse table for the grammar: the table of the
    /// LR(0) automaton of the grammar with its FOLLOW sets, or the first
    /// conflict met in building it. The states are numbered as those of
    /// `lr0_automaton`: state `i` of the table is that of the `i`-th set of
    /// `lr0_canonical`. For a grammar that may not meet `slr_reportable`,
    /// `try_slr1_table` gives the same result or `None`.
    pub fn slr1_table(&self) -> (r: Result<LR1Table, LRConflict>)
        requires
            self.wf(),
            slr_reportable(*self),
        ensures
            exists|a: LR0Automaton, fs: FirstSets, fo: FollowSets|
                a.start == 0 && is_lr0_collection(*self, a.states@) && is_first_sets(*self, fs) && is_follow_sets(*self, fs, fo)
                    && state_sets(a.states@) == lr0_canonical(*self).0 && state_trans(a.states@) == lr0_canonical(*self).1
                    && slr_result(*self, fo, a.states@, a.start, r),
    {
        let r = self.try_slr1_table();
        proof {
            assert(r is Some);
        }
        r.unwrap()
    }

    /// The SLR(1) table as `slr1_table` builds it, for any grammar: `None`
    /// where the first collision of two entries on one symbol is no conflict
    /// to report (an accept and another action), which never happens where
    /// `slr_reportable` holds.
    pub fn try_slr1_table(&self) -> (r: Option<Result<LR1Table, LRConflict>>)
        requires
            self.wf(),
        ensures
            slr_reportable(*self) ==> r is Some,
            exists|a: LR0Automaton, fs: FirstSets, fo: FollowSets|
                a.start == 0 && is_lr0_collection(*self, a.states@) && is_first_sets(*self, fs) && is_follow_sets(*self, fs, fo)
                    && state_sets(a.states@) == lr0_canonical(*self).0 && state_trans(a.states@) == lr0_canonical(*self).1
                    && slr_outcome(*self, fo, a.states@, a.start, r),
    {
        let lr0_automaton = self.lr0_automaton();
        let first_sets = self.first_sets();
        let follow_sets = self.follow_sets(&first_sets);
        proof {
            let st = lr0_automaton.states@;
            assert(is_lr0_collection(*self, st) && is_first_sets(*self, first_sets) && is_follow_sets(*self, first_sets, follow_sets));
            assert forall|i: int| 0 <= i < st.len() implies all_valid0(*self, (#[trigger] st[i]).items@.to_set()) by {
                assert(state_sets(st)[i] == st[i].items@.to_set());
            }
            assert forall|i: int| 0 <= i < st.len() implies trans_distinct((#[trigger] st[i]).transitions@) by {
                let tr = st[i].transitions@;
                assert(crate::lr0::trans_ok(*self, state_sets(st), tr, i));
                assert forall|k1: int, k2: int| 0 <= k1 < k2 < tr.len() implies (#[trigger] tr[k1]).0 != (#[trigger] tr[k2]).0 by {}
            }
        }
        let built = self.slr1_table_from(&lr0_automaton, &follow_sets);
        proof {
            let st = lr0_automaton.states@;
            assert(is_lr0_collection(*self, st) && is_first_sets(*self, first_sets) && is_follow_sets(*self, first_sets, follow_sets));
            if built is None && slr_reportable(*self) {
                let i = choose|i: int| 0 <= i < st.len() && first_unreportable(state_entries(*self, follow_sets, #[trigger] st[i]))
                    && forall|i2: int| 0 <= i2 < i ==> distinct_syms(state_entries(*self, follow_sets, #[trigger] st[i2]));
                assert(collisions_reportable(state_entries(*self, follow_sets, st[i])));
            }
        }
        built
    }
}

} // verus!
