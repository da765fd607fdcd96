use vstd::prelude::*;

use crate::grammar::{Grammar, Symbol, FirstSets, first_of, first_of_body, body_defined, occurs_terminal, lemma_first_of_within};
use vstd::std_specs::iter::IteratorSpec;
use std::collections::BTreeMap;
use crate::seqs::{lemma_push_to_set, lemma_push_no_duplicates};

verus! {

/// LR(1) action to be taken for some terminal.
#[derive(Debug, Clone, Copy, PartialEq, Eq, Structural)]
pub enum LR1Action {
    /// Reduce by production `1` of nonterminal `0`.
    Reduce(usize, usize),
    /// Shift to some state.
    Shift(usize),
    /// Accept the input.
    Accept,
}

/// A conflict encountered when constructing an LR(1) parse table.
#[derive(Debug, Clone, Copy)]
pub enum LRConflict {
    /// Shift-reduce conflict
    ShiftReduce {
        /// Shift action involved in the conflict.
        /// 0: Terminal to shift on; endmarker terminal if [`None`].
        /// 1: Destination state of the shift.
        shift: (Option<usize>, usize),
        /// Reduce rule involved in the conflict: nonterminal and production.
        reduce: (usize, usize),
    },
    /// Reduce-reduce conflict
    ReduceReduce { r1: (usize, usize), r2: (usize, usize) },
}

/// The conflict between an action `a1` already set on the terminal `sy` and
/// a new action `a2`: two reductions, or a shift and a reduction. Any other
/// pair has no conflict to report.
pub open spec fn spec_determine_conflict(a1: LR1Action, a2: LR1Action, sy: Option<usize>) -> Option<LRConflict> {
    match a1 {
        LR1Action::Reduce(n1, rhs1) => match a2 {
            LR1Action::Reduce(n2, rhs2) => Some(LRConflict::ReduceReduce { r1: (n1, rhs1), r2: (n2, rhs2) }),
            LR1Action::Shift(dest2) => Some(LRConflict::ShiftReduce { shift: (sy, dest2), reduce: (n1, rhs1) }),
            _ => None,
        },
        LR1Action::Shift(dest1) => match a2 {
            LR1Action::Reduce(n2, rhs2) => Some(LRConflict::ShiftReduce { shift: (sy, dest1), reduce: (n2, rhs2) }),
            _ => None,
        },
        _ => None,
    }
}

/// State in an LR(1) automaton.
#[derive(Debug)]
pub struct LR1State {
    /// Map of actions to be taken on terminals. Terminals with no action have no map entry.
    pub actions: BTreeMap<usize, LR1Action>,
    /// Action to taken when lookahead is endmarker symbol.
    pub endmarker: Option<LR1Action>,
    /// Map of GOTO transitions to other states. Nonterminals with no GOTO have no map entry.
    pub goto: BTreeMap<usize, usize>,
}

impl LR1State {
    /// The action already set on `sy` (the endmarker if `None`).
    pub open spec fn action_on(self, sy: Option<usize>) -> Option<LR1Action> {
        match sy {
            Some(t) => if self.actions@.contains_key(t) {
                Some(self.actions@[t])
            } else {
                None
            },
            None => self.endmarker,
        }
    }

    /// Setting `action` on `sy` is possible or gives a conflict to report:
    /// it is not a second action on `sy` that involves an accept or two
    /// shifts.
    pub open spec fn can_set(self, sy: Option<usize>, action: LR1Action) -> bool {
        self.action_on(sy) matches Some(existing) ==> spec_determine_conflict(existing, action, sy) is Some
    }

    /// The action already set on `sy` (the endmarker if `None`).
    pub fn action(&self, sy: Option<usize>) -> (r: Option<LR1Action>)
        ensures
            r == self.action_on(sy),
    {
        broadcast use vstd::std_specs::btree::group_btree_axioms, vstd::laws_cmp::group_laws_cmp;
        match sy {
            Some(t) => match self.actions.get(&t) {
                Some(a) => Some(*a),
                None => None,
            },
            None => self.endmarker,
        }
    }

    /// Sets the GOTO transition on the nonterminal `n` to `dest`.
    pub fn set_goto(&mut self, n: usize, dest: usize)
        ensures
            final(self).goto@ == old(self).goto@.insert(n, dest),
            final(self).actions@ == old(self).actions@,
            final(self).endmarker == old(self).endmarker,
    {
        broadcast use vstd::std_specs::btree::group_btree_axioms, vstd::laws_cmp::group_laws_cmp;
        self.goto.insert(n, dest);
    }

    /// A state with no actions and no transitions.
    pub fn new() -> (s: LR1State)
        ensures
            s.actions@ == Map::<usize, LR1Action>::empty(),
            s.endmarker is None,
            s.goto@ == Map::<usize, usize>::empty(),
    {
        LR1State { actions: BTreeMap::new(), endmarker: None, goto: BTreeMap::new() }
    }

    /// Insert an action for a symbol, returning an [`LRConflict`] error if some action already
    /// exists for that symbol.
    ///
    /// If `sy` is [`None`], it is interpreted as the endmarker terminal. An [`LRConflict`] is a
    /// shift-reduce or a reduce-reduce conflict; a second action of which one is an accept, or
    /// two shifts, is no such conflict, and the precondition rules it out.
    pub fn set_action(&mut self, sy: Option<usize>, action: LR1Action) -> (r: Result<(), LRConflict>)
        requires
            old(self).can_set(sy, action),
        ensures
            final(self).goto@ == old(self).goto@,
            old(self).action_on(sy) matches Some(existing) ==> {
                &&& r == Err::<(), LRConflict>(spec_determine_conflict(existing, action, sy).unwrap())
                &&& final(self).actions@ == old(self).actions@
                &&& final(self).endmarker == old(self).endmarker
            },
            old(self).action_on(sy) is None ==> {
                &&& r is Ok
                &&& final(self).actions@ == (match sy {
                    Some(t) => old(self).actions@.insert(t, action),
                    None => old(self).actions@,
                })
                &&& final(self).endmarker == (match sy {
                    Some(_) => old(self).endmarker,
                    None => Some(action),
                })
            },
    {
        broadcast use vstd::std_specs::btree::group_btree_axioms, vstd::laws_cmp::group_laws_cmp;
        match sy {
            Some(t) => {
                // Check for existing action; if there is one, there is a conflict.
                // If no existing, set the action.
                match self.actions.get(&t) {
                    Some(existing) => {
                        // Only reduce-reduce and shift-reduce should occur.
                        let conflict = Self::determine_conflict(existing, &action, Some(t)).unwrap();
                        Err(conflict)
                    },
                    None => {
                        self.actions.insert(t, action);
                        Ok(())
                    },
                }
            },
            // sy is endmarker terminal.
            None => match &self.endmarker {
                Some(existing) => {
                    let conflict = Self::determine_conflict(existing, &action, None).unwrap();
                    Err(conflict)
                },
                None => {
                    self.endmarker = Some(action);
                    Ok(())
                },
            },
        }
    }

    /// The conflict between an existing action `a1` and a new action `a2` on
    /// `sy` (see `spec_determine_conflict`).
    pub fn determine_conflict(a1: &LR1Action, a2: &LR1Action, sy: Option<usize>) -> (r: Option<LRConflict>)
        ensures
            r == spec_determine_conflict(*a1, *a2, sy),
    {
        match *a1 {
            LR1Action::Reduce(n1, rhs1) => match *a2 {
                LR1Action::Reduce(n2, rhs2) => Some(LRConflict::ReduceReduce { r1: (n1, rhs1), r2: (n2, rhs2) }),
                LR1Action::Shift(dest2) => Some(LRConflict::ShiftReduce { shift: (sy, dest2), reduce: (n1, rhs1) }),
                _ => None,
            },
            LR1Action::Shift(dest1) => match *a2 {
                LR1Action::Reduce(n2, rhs2) => Some(LRConflict::ShiftReduce { shift: (sy, dest1), reduce: (n2, rhs2) }),
                _ => None,
            },
            _ => None,
        }
    }
}

/// An LR(1) parse table: its states, and the index of the initial one.
#[derive(Debug)]
pub struct LR1Table {
    pub states: Vec<LR1State>,
    pub initial: usize,
}

/// A parser driven by an LR(1) parse table.
#[derive(Debug)]
pub struct LR1Parser {
    table: LR1Table,
}

/// An LR(1) item `[lhs -> α·β, lookahead]`: production `rhs` of nonterminal
/// `lhs` with the dot before position `pos` of its body. A lookahead of
/// `None` is the endmarker.
#[derive(Debug, Clone, Copy, PartialEq, Eq, Structural)]
pub struct LR1Item {
    pub lhs: usize,
    pub rhs: usize,
    /// Position of item, equal to the index of the next symbol.
    pub pos: usize,
    pub lookahead: Option<usize>,
}

impl LR1Item {
    /// Whether the item names an existing production and a position in it.
    pub open spec fn valid(self, g: Grammar) -> bool {
        &&& g.has_prod(self.lhs as int, self.rhs as int)
        &&& self.pos <= g.body(self.lhs as int, self.rhs as int).len()
    }

    /// The symbol after the dot, if there is one.
    pub open spec fn spec_next_symbol(self, g: Grammar) -> Option<Symbol> {
        let body = g.body(self.lhs as int, self.rhs as int);
        if self.pos < body.len() {
            Some(body[self.pos as int])
        } else {
            None
        }
    }

    /// Retrieves B for A -> a.Bb, or None if A -> a.
    pub fn next_symbol(&self, g: &Grammar) -> (r: Option<Symbol>)
        requires
            g.has_prod(self.lhs as int, self.rhs as int),
        ensures
            r == self.spec_next_symbol(*g),
    {
        let body = &g.rules[self.lhs][self.rhs].body;
        if self.pos < body.len() {
            Some(body[self.pos])
        } else {
            None
        }
    }
}

/// The order of lookaheads: the endmarker first, then the terminals in
/// increasing order.
pub open spec fn lookahead_lt(a: Option<usize>, b: Option<usize>) -> bool {
    match (a, b) {
        (None, Some(_)) => true,
        (Some(x), Some(y)) => x < y,
        _ => false,
    }
}

/// The order of LR(1) items: by nonterminal, then production, then
/// position, then lookahead.
pub open spec fn item_lt(a: LR1Item, b: LR1Item) -> bool {
    ||| a.lhs < b.lhs
    ||| a.lhs == b.lhs && a.rhs < b.rhs
    ||| a.lhs == b.lhs && a.rhs == b.rhs && a.pos < b.pos
    ||| a.lhs == b.lhs && a.rhs == b.rhs && a.pos == b.pos && lookahead_lt(a.lookahead, b.lookahead)
}

/// Whether `a` comes before `b` in the order of items.
pub fn item_less(a: &LR1Item, b: &LR1Item) -> (r: bool)
    ensures
        r == item_lt(*a, *b),
{
    if a.lhs != b.lhs {
        a.lhs < b.lhs
    } else if a.rhs != b.rhs {
        a.rhs < b.rhs
    } else if a.pos != b.pos {
        a.pos < b.pos
    } else {
        match (a.lookahead, b.lookahead) {
            (None, Some(_)) => true,
            (Some(x), Some(y)) => x < y,
            _ => false,
        }
    }
}

/// The items of `s` stand in strictly increasing order.
pub open spec fn items_sorted(s: Seq<LR1Item>) -> bool {
    forall|i: int, j: int| 0 <= i < j < s.len() ==> item_lt(#[trigger] s[i], #[trigger] s[j])
}

/// A set of LR(1) items. The items are held in a vector in strictly
/// increasing order, so that none occurs twice.
#[derive(Debug, Clone)]
pub struct LR1ItemSet {
    pub items: Vec<LR1Item>,
}

impl View for LR1ItemSet {
    type V = Set<LR1Item>;

    open spec fn view(&self) -> Set<LR1Item> {
        self.items@.to_set()
    }
}

impl LR1ItemSet {
    /// The items stand in strictly increasing order, so none occurs twice.
    pub open spec fn wf(self) -> bool {
        &&& items_sorted(self.items@)
        &&& self.items@.no_duplicates()
    }

    /// The empty set.
    pub fn new() -> (s: Self)
        ensures
            s.wf(),
            s@ == Set::<LR1Item>::empty(),
            s.items@ == Seq::<LR1Item>::empty(),
    {
        let s = LR1ItemSet { items: Vec::new() };
        assert(s@ =~= Set::<LR1Item>::empty());
        s
    }

    /// Whether the set holds `item`.
    pub fn contains(&self, item: &LR1Item) -> (r: bool)
        ensures
            r == self@.contains(*item),
    {
        let n = self.items.len();
        for i in 0..n
            invariant
                n == self.items@.len(),
                forall|j: int| 0 <= j < i ==> self.items@[j] != *item,
        {
            if self.items[i] == *item {
                assert(self.items@.contains(*item));
                return true;
            }
        }
        assert(!self.items@.contains(*item));
        false
    }

    /// Adds `item`, and tells whether it was new.
    pub fn insert(&mut self, item: LR1Item) -> (r: bool)
        requires
            old(self).wf(),
        ensures
            final(self).wf(),
            final(self)@ == old(self)@.insert(item),
            r == !old(self)@.contains(item),
            r ==> final(self).items@.len() == old(self).items@.len() + 1,
            !r ==> final(self).items@ == old(self).items@,
    {
        let n = self.items.len();
        let mut i: usize = 0;
        while i < n && item_less(&self.items[i], &item)
            invariant
                n == self.items@.len(),
                i <= n,
                self.items@ == old(self).items@,
                forall|j: int| 0 <= j < i ==> item_lt(#[trigger] self.items@[j], item),
            decreases n - i,
        {
            i += 1;
        }
        if i < n && self.items[i] == item {
            assert(self.items@.contains(item));
            assert(self@ =~= old(self)@.insert(item));
            return false;
        }
        let ghost s0 = self.items@;
        proof {
            // Every item from position `i` on comes after `item`.
            assert forall|j: int| i <= j < n implies item_lt(item, #[trigger] s0[j]) by {
                assert(!item_lt(s0[i as int], item));
                assert(s0[i as int] != item);
                if j > i {
                    assert(item_lt(s0[i as int], s0[j]));
                }
            }
            assert(!s0.contains(item)) by {
                if s0.contains(item) {
                    let j = choose|j: int| 0 <= j < s0.len() && s0[j] == item;
                    if j < i {
                        assert(item_lt(s0[j], item));
                    } else {
                        assert(item_lt(item, s0[j]));
                    }
                }
            }
        }
        self.items.insert(i, item);
        proof {
            let t = self.items@;
            assert(t == s0.insert(i as int, item));
            assert forall|a: int, b: int| 0 <= a < b < t.len() implies item_lt(#[trigger] t[a], #[trigger] t[b]) by {
                if b < i {
                    assert(t[a] == s0[a] && t[b] == s0[b]);
                } else if b == i {
                    assert(t[a] == s0[a]);
                } else if a < i {
                    assert(t[a] == s0[a] && t[b] == s0[b - 1]);
                    assert(item_lt(item, s0[b - 1]));
                } else if a == i {
                    assert(t[b] == s0[b - 1]);
                } else {
                    assert(t[a] == s0[a - 1] && t[b] == s0[b - 1]);
                }
            }
            assert forall|a: int, b: int| 0 <= a < t.len() && 0 <= b < t.len() && a != b implies t[a] != t[b] by {
                if a < b {
                    assert(item_lt(t[a], t[b]));
                } else {
                    assert(item_lt(t[b], t[a]));
                }
            }
            assert forall|x: LR1Item| t.contains(x) <==> (s0.contains(x) || x == item) by {
                if t.contains(x) {
                    let j = choose|j: int| 0 <= j < t.len() && t[j] == x;
                    if j < i {
                        assert(s0[j] == x);
                    } else if j > i {
                        assert(s0[j - 1] == x);
                    }
                }
                if s0.contains(x) {
                    let j = choose|j: int| 0 <= j < s0.len() && s0[j] == x;
                    if j < i {
                        assert(t[j] == x);
                    } else {
                        assert(t[j + 1] == x);
                    }
                }
                if x == item {
                    assert(t[i as int] == x);
                }
            }
            assert(self@ =~= old(self)@.insert(item));
        }
        true
    }

    /// Moves every item of `set` into `self`, leaving `set` empty.
    pub fn append(&mut self, set: &mut Self)
        requires
            old(self).wf(),
            old(set).wf(),
        ensures
            final(self).wf(),
            final(set).wf(),
            final(self)@ == old(self)@.union(old(set)@),
            final(set)@ == Set::<LR1Item>::empty(),
    {
        let n = set.items.len();
        for i in 0..n
            invariant
                n == set.items@.len(),
                set.items@ == old(set).items@,
                self.wf(),
                self@ == old(self)@.union(set.items@.subrange(0, i as int).to_set()),
        {
            let item = set.items[i];
            self.insert(item);
            assert(set.items@.subrange(0, i + 1) == set.items@.subrange(0, i as int).push(item));
            proof { lemma_push_to_set(set.items@.subrange(0, i as int), item); }
            assert(self@ =~= old(self)@.union(set.items@.subrange(0, i + 1).to_set()));
        }
        assert(set.items@.subrange(0, n as int) =~= set.items@);
        set.items.clear();
        assert(set@ =~= Set::<LR1Item>::empty());
    }

    pub fn is_empty(&self) -> (r: bool)
        ensures
            r == (self@ == Set::<LR1Item>::empty()),
    {
        let r = self.items.len() == 0;
        proof {
            if !r {
                assert(self@.contains(self.items@[0]));
            } else {
                assert(self@ =~= Set::<LR1Item>::empty());
            }
        }
        r
    }

    /// The number of items.
    pub fn len(&self) -> (r: usize)
        requires
            self.wf(),
        ensures
            r == self@.len(),
    {
        proof {
            self.items@.unique_seq_to_set();
        }
        self.items.len()
    }

    /// The set of the items `items`, each once.
    pub fn from_items(items: Vec<LR1Item>) -> (s: Self)
        ensures
            s.wf(),
            s@ == items@.to_set(),
    {
        let mut s = LR1ItemSet::new();
        let n = items.len();
        for i in 0..n
            invariant
                n == items@.len(),
                s.wf(),
                s@ == items@.subrange(0, i as int).to_set(),
        {
            s.insert(items[i]);
            proof {
                assert(items@.subrange(0, i + 1) == items@.subrange(0, i as int).push(items@[i as int]));
                lemma_push_to_set(items@.subrange(0, i as int), items@[i as int]);
            }
        }
        assert(items@.subrange(0, n as int) =~= items@);
        s
    }

    /// The items of the set, in the order they were added.
    pub fn into_items(self) -> (r: Vec<LR1Item>)
        ensures
            r@ == self.items@,
    {
        self.items
    }

    /// Iterates through the items, in increasing order (see `item_lt`).
    pub fn iter(&self) -> (r: std::slice::Iter<'_, LR1Item>)
        ensures
            r.remaining().unref() == self.items@,
    {
        self.items.iter()
    }
}

/// The items `[lhs -> α·β, a]` with production `rhs` of `lhs` and the dot at
/// one of the first `p` positions, for every lookahead `a` in `la`.
pub open spec fn box_pos(lhs: usize, rhs: usize, p: nat, la: Set<Option<usize>>) -> Set<LR1Item>
    decreases p,
{
    if p == 0 {
        Set::empty()
    } else {
        box_pos(lhs, rhs, (p - 1) as nat, la).union(
            la.map(|a: Option<usize>| LR1Item { lhs, rhs, pos: (p - 1) as usize, lookahead: a }),
        )
    }
}

/// The valid items of the first `r` productions of `lhs` with lookaheads in `la`.
pub open spec fn box_rhs(g: Grammar, lhs: usize, r: nat, la: Set<Option<usize>>) -> Set<LR1Item>
    decreases r,
{
    if r == 0 {
        Set::empty()
    } else {
        box_rhs(g, lhs, (r - 1) as nat, la).union(
            box_pos(lhs, (r - 1) as usize, g.body(lhs as int, r - 1).len() + 1, la),
        )
    }
}

/// The valid items of the first `n` nonterminals with lookaheads in `la`.
pub open spec fn box_all(g: Grammar, n: nat, la: Set<Option<usize>>) -> Set<LR1Item>
    decreases n,
{
    if n == 0 {
        Set::empty()
    } else {
        box_all(g, (n - 1) as nat, la).union(box_rhs(g, (n - 1) as usize, g.num_prods(n - 1), la))
    }
}

proof fn lemma_box_pos(lhs: usize, rhs: usize, p: nat, la: Set<Option<usize>>)
    requires
        la.finite(),
        p <= usize::MAX + 1,
    ensures
        box_pos(lhs, rhs, p, la).finite(),
        forall|x: LR1Item| x.lhs == lhs && x.rhs == rhs && x.pos < p && la.contains(x.lookahead) ==> #[trigger] box_pos(lhs, rhs, p, la).contains(x),
    decreases p,
{
    if p > 0 {
        lemma_box_pos(lhs, rhs, (p - 1) as nat, la);
        let f = |a: Option<usize>| LR1Item { lhs, rhs, pos: (p - 1) as usize, lookahead: a };
        la.lemma_map_finite(f);
        assert forall|x: LR1Item| x.lhs == lhs && x.rhs == rhs && x.pos < p && la.contains(x.lookahead) implies #[trigger] box_pos(lhs, rhs, p, la).contains(x) by {
            if x.pos == p - 1 {
                assert(f(x.lookahead) == x);
                assert(la.map(f).contains(x));
            }
        }
    }
}

proof fn lemma_box_rhs(g: Grammar, lhs: usize, r: nat, la: Set<Option<usize>>)
    requires
        la.finite(),
        0 <= lhs < g.num_nonterminals(),
        r <= g.num_prods(lhs as int),
    ensures
        box_rhs(g, lhs, r, la).finite(),
        forall|x: LR1Item| x.lhs == lhs && x.rhs < r && x.pos <= g.body(lhs as int, x.rhs as int).len() && la.contains(x.lookahead) ==> #[trigger] box_rhs(g, lhs, r, la).contains(x),
    decreases r,
{
    if r > 0 {
        lemma_box_rhs(g, lhs, (r - 1) as nat, la);
        let len = g.body(lhs as int, r - 1).len();
        assert(len <= usize::MAX) by {
            assert(g.rules@[lhs as int]@[r - 1].body.len() == g.rules@[lhs as int]@[r - 1].body@.len());
        }
        lemma_box_pos(lhs, (r - 1) as usize, len + 1, la);
    }
}

pub proof fn lemma_box_all(g: Grammar, n: nat, la: Set<Option<usize>>)
    requires
        la.finite(),
        n <= g.num_nonterminals(),
    ensures
        box_all(g, n, la).finite(),
        forall|x: LR1Item| x.lhs < n && x.valid(g) && la.contains(x.lookahead) ==> #[trigger] box_all(g, n, la).contains(x),
    decreases n,
{
    if n > 0 {
        lemma_box_all(g, (n - 1) as nat, la);
        assert(g.rules.len() == g.rules@.len());
        lemma_box_rhs(g, (n - 1) as usize, g.num_prods(n - 1), la);
    }
}

/// The lookaheads of FIRST(βa): the terminals of FIRST(β), and `a` if β can
/// be empty.
pub open spec fn first_la(fs: FirstSets, beta: Seq<Symbol>, a: Option<usize>) -> Set<Option<usize>> {
    let f = first_of(fs, beta);
    let s = f.0.map(|t: usize| Some(t));
    if f.1 {
        s.insert(a)
    } else {
        s
    }
}

/// Closing the item `it` adds `x`: `it` is `[A -> α·Bβ, a]` and `x` is
/// `[B -> ·γ, b]` for a production `B -> γ` and `b` in FIRST(βa).
pub open spec fn closure_adds(g: Grammar, fs: FirstSets, it: LR1Item, x: LR1Item) -> bool {
    &&& it.spec_next_symbol(g) == Some(Symbol::Nonterminal(x.lhs))
    &&& g.has_prod(x.lhs as int, x.rhs as int)
    &&& x.pos == 0
    &&& first_la(fs, g.body(it.lhs as int, it.rhs as int).skip(it.pos + 1), it.lookahead).contains(x.lookahead)
}

/// The set `s` is closed: it holds every item that closing one of its
/// items adds.
pub open spec fn lr1_closed(g: Grammar, fs: FirstSets, s: Set<LR1Item>) -> bool {
    forall|it: LR1Item, x: LR1Item| s.contains(it) && #[trigger] closure_adds(g, fs, it, x) ==> s.contains(x)
}

/// Every item of `s` is valid for `g`.
pub open spec fn all_valid(g: Grammar, s: Set<LR1Item>) -> bool {
    forall|it: LR1Item| #[trigger] s.contains(it) ==> it.valid(g)
}

/// The union of the FIRST sets of the first `n` nonterminals.
pub open spec fn first_union(fs: FirstSets, n: nat) -> Set<usize>
    decreases n,
{
    if n == 0 {
        Set::empty()
    } else {
        first_union(fs, (n - 1) as nat).union(fs.terms(n - 1))
    }
}

pub proof fn lemma_first_union(fs: FirstSets, n: nat)
    requires
        n <= fs.sets@.len(),
    ensures
        first_union(fs, n).finite(),
        forall|x: int, t: usize| 0 <= x < n && #[trigger] fs.terms(x).contains(t) ==> first_union(fs, n).contains(t),
    decreases n,
{
    if n > 0 {
        lemma_first_union(fs, (n - 1) as nat);
        vstd::seq_lib::seq_to_set_is_finite(fs.sets@[n - 1].terminals@);
    }
}

/// The items that closing `it` adds.
pub open spec fn closure_of_item(g: Grammar, fs: FirstSets, it: LR1Item) -> Set<LR1Item> {
    Set::new(|x: LR1Item| closure_adds(g, fs, it, x))
}

/// `x` is in every closed superset of `s0`.
pub open spec fn forced(g: Grammar, fs: FirstSets, s0: Set<LR1Item>, x: LR1Item) -> bool {
    forall|s: Set<LR1Item>| s0.subset_of(s) && #[trigger] lr1_closed(g, fs, s) ==> s.contains(x)
}

impl Grammar {
    /// Adds to `added` the items that closing `item` adds.
    fn close_item(&self, item: LR1Item, first_sets: &FirstSets, added: &mut LR1ItemSet, la: Ghost<Set<Option<usize>>>)
        requires
            self.wf(),
            first_sets.wf(*self),
            old(added).wf(),
            item.valid(*self),
            la@.contains(item.lookahead),
            forall|t: usize| first_union(*first_sets, self.num_nonterminals()).contains(t) ==> la@.contains(Some(t)),
            forall|t: usize| occurs_terminal(*self, t) ==> la@.contains(Some(t)),
        ensures
            final(added).wf(),
            final(added)@ == old(added)@.union(closure_of_item(*self, *first_sets, item)),
            forall|x: LR1Item| #[trigger] closure_of_item(*self, *first_sets, item).contains(x) ==> x.valid(*self) && la@.contains(x.lookahead),
    {
        let n = self.rules.len();
        let ghost g = *self;
        let ghost fs = *first_sets;
        match item.next_symbol(self) {
            Some(Symbol::Nonterminal(b)) => {
                let ghost body = self.body(item.lhs as int, item.rhs as int);
                let ghost beta = body.skip(item.pos + 1);
                assert(self.has_prod(item.lhs as int, item.rhs as int));
                assert(body_defined(body, n as nat));
                assert(b < n) by {
                    assert(body[item.pos as int] == Symbol::Nonterminal(b));
                }
                assert(item.pos < self.rules@[item.lhs as int]@[item.rhs as int].body.len());
                let (f, nl) = first_of_body(first_sets, &self.rules[item.lhs][item.rhs].body, item.pos + 1, n);
                let mut fla: Vec<Option<usize>> = Vec::new();
                let fl = f.len();
                for q in 0..fl
                    invariant
                        fl == f@.len(),
                        fla@.len() == q,
                        forall|j: int| 0 <= j < q ==> #[trigger] fla@[j] == Some(f@[j]),
                {
                    fla.push(Some(f[q]));
                }
                if nl {
                    fla.push(item.lookahead);
                }
                proof {
                    let fl_set = first_la(fs, beta, item.lookahead);
                    assert forall|a: Option<usize>| fla@.contains(a) <==> fl_set.contains(a) by {
                        if fla@.contains(a) {
                            let j = choose|j: int| 0 <= j < fla@.len() && fla@[j] == a;
                            if j < fl {
                                assert(f@.to_set().contains(f@[j]));
                                assert(first_of(fs, beta).0.map(|t: usize| Some(t)).contains(Some(f@[j])));
                            }
                        }
                        if fl_set.contains(a) {
                            if first_of(fs, beta).0.map(|t: usize| Some(t)).contains(a) {
                                let t = choose|t: usize| first_of(fs, beta).0.contains(t) && Some(t) == a;
                                assert(f@.to_set().contains(t));
                                let j = choose|j: int| 0 <= j < f@.len() && f@[j] == t;
                                assert(fla@[j] == a);
                            } else {
                                assert(fla@[fla@.len() - 1] == a);
                            }
                        }
                    }
                    // lookaheads stay within `la`
                    let ts = Set::new(|t: usize| la@.contains(Some(t)));
                    assert forall|x: int| 0 <= x < n implies #[trigger] fs.terms(x).subset_of(ts) by {
                        lemma_first_union(fs, n as nat);
                    }
                    assert forall|i: int| 0 <= i < beta.len() implies (#[trigger] beta[i] matches Symbol::Terminal(t) ==> ts.contains(t)) by {
                        if let Symbol::Terminal(t) = beta[i] {
                            assert(body[item.pos + 1 + i] == beta[i]);
                            assert(occurs_terminal(g, t));
                        }
                    }
                    assert(body_defined(beta, n as nat)) by {
                        assert forall|i: int| 0 <= i < beta.len() implies (#[trigger] beta[i] matches Symbol::Nonterminal(m) ==> m < n) by {
                            assert(body[item.pos + 1 + i] == beta[i]);
                        }
                    }
                    lemma_first_of_within(fs, beta, ts, n as nat);
                }
                let m = self.rules[b].len();
                let k = fla.len();
                for r in 0..m
                    invariant
                        self.wf(),
                        b < n,
                        m == self.num_prods(b as int),
                        k == fla@.len(),
                        added.wf(),
                        added@ == old(added)@.union(Set::new(|x: LR1Item| x.lhs == b && x.rhs < r && x.pos == 0 && fla@.contains(x.lookahead))),
                {
                    for q in 0..k
                        invariant
                            b < n,
                            r < m,
                            k == fla@.len(),
                            added.wf(),
                            added@ == old(added)@.union(Set::new(|x: LR1Item| x.lhs == b && x.rhs < r && x.pos == 0 && fla@.contains(x.lookahead))).union(
                                Set::new(|x: LR1Item| x.lhs == b && x.rhs == r && x.pos == 0 && fla@.subrange(0, q as int).contains(x.lookahead))),
                    {
                        let x = LR1Item { lhs: b, rhs: r, pos: 0, lookahead: fla[q] };
                        let ghost before = added@;
                        added.insert(x);
                        proof {
                            let pre = fla@.subrange(0, q as int);
                            let post = fla@.subrange(0, q + 1);
                            assert(post == pre.push(fla@[q as int]));
                            lemma_push_to_set(pre, fla@[q as int]);
                            assert forall|y: Option<usize>| post.contains(y) <==> (pre.contains(y) || y == fla@[q as int]) by {
                                assert(post.to_set().contains(y) == post.contains(y));
                                assert(pre.to_set().contains(y) == pre.contains(y));
                            }
                            assert(added@ =~= old(added)@.union(Set::new(|x: LR1Item| x.lhs == b && x.rhs < r && x.pos == 0 && fla@.contains(x.lookahead))).union(
                                Set::new(|x: LR1Item| x.lhs == b && x.rhs == r && x.pos == 0 && fla@.subrange(0, q + 1).contains(x.lookahead))));
                        }
                    }
                    assert(fla@.subrange(0, k as int) =~= fla@);
                    assert(added@ =~= old(added)@.union(Set::new(|x: LR1Item| x.lhs == b && x.rhs < r + 1 && x.pos == 0 && fla@.contains(x.lookahead))));
                }
                proof {
                    assert forall|x: LR1Item| closure_of_item(g, fs, item).contains(x) <==> (x.lhs == b && x.rhs < m && x.pos == 0 && fla@.contains(x.lookahead)) by {}
                    assert(added@ =~= old(added)@.union(closure_of_item(g, fs, item)));
                    assert forall|x: LR1Item| #[trigger] closure_of_item(g, fs, item).contains(x) implies x.valid(g) && la@.contains(x.lookahead) by {
                        assert(first_la(fs, beta, item.lookahead).contains(x.lookahead));
                        if x.lookahead != item.lookahead || !first_of(fs, beta).1 {
                            let t = choose|t: usize| first_of(fs, beta).0.contains(t) && Some(t) == x.lookahead;
                        }
                    }
                }
            },
            _ => {
                proof {
                    assert(closure_of_item(g, fs, item) =~= Set::<LR1Item>::empty());
                    assert(added@ =~= old(added)@.union(closure_of_item(g, fs, item)));
                }
            },
        }
    }
}

/// What holds of the item set at every round of the LR(1) closure.
pub open spec fn closure_inv(g: Grammar, fs: FirstSets, s_init: Set<LR1Item>, la: Set<Option<usize>>, universe: Set<LR1Item>, set: LR1ItemSet) -> bool {
    &&& set.wf()
    &&& all_valid(g, set@)
    &&& s_init.subset_of(set@)
    &&& set@.subset_of(universe)
    &&& forall|it: LR1Item| #[trigger] set@.contains(it) ==> la.contains(it.lookahead) && forced(g, fs, s_init, it)
}

impl Grammar {
    /// Compute the LR(1) closure set for the given LR(1) item set.
    ///
    /// For each item `[A -> α·Bβ, a]` of the set, each production `B -> γ`
    /// and each terminal `b` of FIRST(βa), `[B -> ·γ, b]` is added, until
    /// nothing more is added. The result is the least closed set that holds
    /// the given items.
    pub fn lr1_closure(&self, set: &mut LR1ItemSet, first_sets: &FirstSets)
        requires
            self.wf(),
            first_sets.wf(*self),
            old(set).wf(),
            all_valid(*self, old(set)@),
        ensures
            final(set).wf(),
            all_valid(*self, final(set)@),
            old(set)@.subset_of(final(set)@),
            lr1_closed(*self, *first_sets, final(set)@),
            forall|s: Set<LR1Item>| old(set)@.subset_of(s) && #[trigger] lr1_closed(*self, *first_sets, s) ==> final(set)@.subset_of(s),
    {
        let n = self.rules.len();
        let tv = self.terminals();
        let ghost g = *self;
        let ghost fs = *first_sets;
        let ghost s_init = set@;
        let ghost la = set![None::<usize>].union(first_union(fs, n as nat).union(tv@.to_set()).map(|t: usize| Some(t))).union(
            s_init.map(|it: LR1Item| it.lookahead),
        );
        let ghost universe = s_init.union(box_all(g, n as nat, la));
        proof {
            lemma_first_union(fs, n as nat);
            vstd::seq_lib::seq_to_set_is_finite(tv@);
            vstd::seq_lib::seq_to_set_is_finite(set.items@);
            first_union(fs, n as nat).union(tv@.to_set()).lemma_map_finite(|t: usize| Some(t));
            s_init.lemma_map_finite(|it: LR1Item| it.lookahead);
            lemma_box_all(g, n as nat, la);
            assert forall|t: usize| first_union(fs, n as nat).contains(t) implies la.contains(Some(t)) by {
                assert(first_union(fs, n as nat).union(tv@.to_set()).contains(t));
            }
            assert forall|t: usize| occurs_terminal(g, t) implies la.contains(Some(t)) by {
                assert(tv@.contains(t));
                assert(first_union(fs, n as nat).union(tv@.to_set()).contains(t));
            }
            assert forall|it: LR1Item| #[trigger] set@.contains(it) implies la.contains(it.lookahead) && forced(g, fs, s_init, it) by {
                assert(s_init.map(|it: LR1Item| it.lookahead).contains(it.lookahead));
            }
        }
        loop
            invariant_except_break
                self.wf(),
                first_sets.wf(*self),
                g == *self,
                fs == *first_sets,
                n == g.num_nonterminals(),
                universe.finite(),
                forall|t: usize| first_union(fs, n as nat).contains(t) ==> la.contains(Some(t)),
                forall|t: usize| occurs_terminal(g, t) ==> la.contains(Some(t)),
                forall|x: LR1Item| x.lhs < n && x.valid(g) && la.contains(x.lookahead) ==> #[trigger] universe.contains(x),
                closure_inv(g, fs, s_init, la, universe, *set),
            ensures
                closure_inv(g, fs, s_init, la, universe, *set),
                lr1_closed(g, fs, set@),
            decreases universe.len() - set.items@.len(),
        {
            let ghost s0 = set@;
            let ghost items0 = set.items@;
            let mut added = LR1ItemSet::new();
            let k = set.items.len();
            for i in 0..k
                invariant
                    self.wf(),
                    first_sets.wf(*self),
                    g == *self,
                    fs == *first_sets,
                    n == g.num_nonterminals(),
                    k == items0.len(),
                    set.items@ == items0,
                    s0 == items0.to_set(),
                    forall|t: usize| first_union(fs, n as nat).contains(t) ==> la.contains(Some(t)),
                    forall|t: usize| occurs_terminal(g, t) ==> la.contains(Some(t)),
                    closure_inv(g, fs, s_init, la, universe, *set),
                    added.wf(),
                    forall|x: LR1Item| #[trigger] added@.contains(x) ==> x.valid(g) && la.contains(x.lookahead) && forced(g, fs, s_init, x),
                    forall|j: int, x: LR1Item| 0 <= j < i && #[trigger] closure_of_item(g, fs, items0[j]).contains(x) ==> added@.contains(x),
            {
                let item = set.items[i];
                assert(set@.contains(item));
                let ghost before = added@;
                self.close_item(item, first_sets, &mut added, Ghost(la));
                proof {
                    assert forall|x: LR1Item| #[trigger] added@.contains(x) implies x.valid(g) && la.contains(x.lookahead) && forced(g, fs, s_init, x) by {
                        if !before.contains(x) {
                            assert(closure_of_item(g, fs, item).contains(x));
                            assert forall|s: Set<LR1Item>| s_init.subset_of(s) && #[trigger] lr1_closed(g, fs, s) implies s.contains(x) by {
                                assert(forced(g, fs, s_init, item));
                                assert(s.contains(item));
                                assert(closure_adds(g, fs, item, x));
                            }
                        }
                    }
                }
            }
            let mut changed = false;
            let ak = added.items.len();
            for i in 0..ak
                invariant
                    self.wf(),
                    g == *self,
                    n == g.num_nonterminals(),
                    ak == added.items@.len(),
                    added.wf(),
                    set.wf(),
                    set@ == s0.union(added.items@.subrange(0, i as int).to_set()),
                    !changed ==> set.items@ == items0,
                    changed ==> set.items@.len() > items0.len(),
                    set.items@.len() >= items0.len(),
                    forall|x: LR1Item| #[trigger] added@.contains(x) ==> x.valid(g) && la.contains(x.lookahead) && forced(g, fs, s_init, x),
                    s_init.subset_of(s0),
                    items0.no_duplicates(),
                    forall|x: LR1Item| x.lhs < n && x.valid(g) && la.contains(x.lookahead) ==> #[trigger] universe.contains(x),
                    forall|it: LR1Item| #[trigger] set@.contains(it) ==> it.valid(g) && la.contains(it.lookahead) && forced(g, fs, s_init, it),
            {
                let x = added.items[i];
                assert(added@.contains(x));
                if set.insert(x) {
                    changed = true;
                }
                proof {
                    assert(added.items@.subrange(0, i + 1) == added.items@.subrange(0, i as int).push(x));
                    lemma_push_to_set(added.items@.subrange(0, i as int), x);
                    assert(set@ =~= s0.union(added.items@.subrange(0, i + 1).to_set()));
                }
            }
            proof {
                assert(added.items@.subrange(0, ak as int) =~= added.items@);
                assert(set@ == s0.union(added@));
                assert forall|it: LR1Item| #[trigger] set@.contains(it) implies it.valid(g) by {}
                assert(all_valid(g, set@));
                assert forall|it: LR1Item| #[trigger] set@.contains(it) implies universe.contains(it) by {
                    assert(it.valid(g));
                    assert(it.lhs < n);
                }
                assert(set@.subset_of(universe));
                set.items@.unique_seq_to_set();
                vstd::set_lib::lemma_len_subset(set@, universe);
            }
            if !changed {
                proof {
                    assert forall|it: LR1Item, x: LR1Item| set@.contains(it) && #[trigger] closure_adds(g, fs, it, x) implies set@.contains(x) by {
                        let j = choose|j: int| 0 <= j < items0.len() && items0[j] == it;
                        assert(closure_of_item(g, fs, items0[j]).contains(x));
                        assert(added@.contains(x));
                    }
                }
                break;
            }
        }
        proof {
            assert forall|s: Set<LR1Item>| old(set)@.subset_of(s) && #[trigger] lr1_closed(g, fs, s) implies set@.subset_of(s) by {
                assert forall|it: LR1Item| set@.contains(it) implies s.contains(it) by {
                    assert(forced(g, fs, s_init, it));
                }
            }
        }
    }
}

/// The kernel of GOTO(s, x): `[A -> αx·β, a]` for every `[A -> α·xβ, a]` in `s`.
pub open spec fn goto_kernel(g: Grammar, s: Set<LR1Item>, x: Symbol) -> Set<LR1Item> {
    Set::new(|y: LR1Item| y.pos > 0 && s.contains(LR1Item { pos: (y.pos - 1) as usize, ..y })
        && (LR1Item { pos: (y.pos - 1) as usize, ..y }).spec_next_symbol(g) == Some(x))
}

impl Grammar {
    /// GOTO(set, x): the closure of the items of `set` with the dot moved
    /// past an `x`.
    pub fn lr1_goto(&self, set: &LR1ItemSet, x: &Symbol, first_sets: &FirstSets) -> (r: LR1ItemSet)
        requires
            self.wf(),
            first_sets.wf(*self),
            set.wf(),
            all_valid(*self, set@),
        ensures
            r.wf(),
            all_valid(*self, r@),
            goto_kernel(*self, set@, *x).subset_of(r@),
            lr1_closed(*self, *first_sets, r@),
            forall|s: Set<LR1Item>| goto_kernel(*self, set@, *x).subset_of(s) && #[trigger] lr1_closed(*self, *first_sets, s) ==> r@.subset_of(s),
    {
        let mut new_set = LR1ItemSet::new();
        let k = set.items.len();
        // For each item [A -> α·Xβ, a] in I, add item [A -> αX·β, a] to set J.
        for i in 0..k
            invariant
                self.wf(),
                k == set.items@.len(),
                new_set.wf(),
                all_valid(*self, new_set@),
                new_set@ == goto_kernel(*self, set.items@.subrange(0, i as int).to_set(), *x),
                all_valid(*self, set@),
        {
            let item = set.items[i];
            assert(set@.contains(item));
            let ghost before = new_set@;
            let post_dot = item.next_symbol(self);
            let is_x = match post_dot {
                Some(sy) => sy == *x,
                None => false,
            };
            let ghost pre = set.items@.subrange(0, i as int);
            proof {
                assert(set.items@.subrange(0, i + 1) == pre.push(item));
                lemma_push_to_set(pre, item);
            }
            if is_x {
                assert(item.pos < self.rules@[item.lhs as int]@[item.rhs as int].body.len());
                let moved = LR1Item { pos: item.pos + 1, ..item };
                new_set.insert(moved);
                proof {
                    assert(LR1Item { pos: (moved.pos - 1) as usize, ..moved } == item);
                    assert forall|y: LR1Item| #[trigger] goto_kernel(*self, pre.push(item).to_set(), *x).contains(y) <==> (goto_kernel(*self, pre.to_set(), *x).contains(y) || y == moved) by {}
                    assert(new_set@ =~= goto_kernel(*self, set.items@.subrange(0, i + 1).to_set(), *x));
                }
            } else {
                proof {
                    assert forall|y: LR1Item| #[trigger] goto_kernel(*self, pre.push(item).to_set(), *x).contains(y) <==> goto_kernel(*self, pre.to_set(), *x).contains(y) by {}
                    assert(new_set@ =~= goto_kernel(*self, set.items@.subrange(0, i + 1).to_set(), *x));
                }
            }
        }
        assert(set.items@.subrange(0, k as int) =~= set.items@);
        let ghost kernel = new_set@;
        self.lr1_closure(&mut new_set, first_sets);
        new_set
    }
}

} // verus!
