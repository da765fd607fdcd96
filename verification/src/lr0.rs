use vstd::prelude::*;

use crate::grammar::{Grammar, Symbol};
use crate::lr1::{LR1Item, box_all, lemma_box_all};
use crate::seqs::{lemma_push_to_set, lemma_push_no_duplicates, pow2, lemma_distinct_subsets};

verus! {

/// An LR(0) item `[lhs -> α·β]`: production `rhs` of nonterminal `lhs` with
/// the dot before position `pos` of its body.
#[derive(Debug, Clone, Copy, PartialEq, Eq, Structural)]
pub struct Item {
    pub lhs: usize,
    pub rhs: usize,
    pub pos: usize,
}

impl Item {
    /// Whether the item names an existing production and a position in it.
    pub open spec fn valid(self, g: Grammar) -> bool {
        &&& g.has_prod(self.lhs as int, self.rhs as int)
        &&& self.pos <= g.body(self.lhs as int, self.rhs as int).len()
    }

    /// The symbol after the dot, if there is one.
    pub open spec fn spec_next_symbol(self, g: Grammar) -> Option<Symbol> {
        let body = g.body(self.lhs as int, self.rhs as int);
        if self.pos < body.len() {
            Some(body[self.pos as int])
        } else {
            None
        }
    }

    /// Retrieves B for A -> a.Bb, or None if A -> a.
    pub fn next_symbol(&self, g: &Grammar) -> (r: Option<Symbol>)
        requires
            g.has_prod(self.lhs as int, self.rhs as int),
        ensures
            r == self.spec_next_symbol(*g),
    {
        let body = &g.rules[self.lhs][self.rhs].body;
        if self.pos < body.len() {
            Some(body[self.pos])
        } else {
            None
        }
    }
}

/// The LR(0) item of an LR(1) item: its production and position.
pub open spec fn core_of(it: LR1Item) -> Item {
    Item { lhs: it.lhs, rhs: it.rhs, pos: it.pos }
}

/// The valid LR(0) items of `g`.
pub open spec fn lr0_box(g: Grammar) -> Set<Item> {
    box_all(g, g.num_nonterminals(), set![None::<usize>]).map(|it: LR1Item| core_of(it))
}

pub proof fn lemma_lr0_box(g: Grammar)
    ensures
        lr0_box(g).finite(),
        forall|x: Item| #[trigger] x.valid(g) ==> lr0_box(g).contains(x),
{
    let la = set![None::<usize>];
    lemma_box_all(g, g.num_nonterminals(), la);
    box_all(g, g.num_nonterminals(), la).lemma_map_finite(|it: LR1Item| core_of(it));
    assert forall|x: Item| #[trigger] x.valid(g) implies lr0_box(g).contains(x) by {
        let y = LR1Item { lhs: x.lhs, rhs: x.rhs, pos: x.pos, lookahead: None };
        assert(y.valid(g));
        assert(la.contains(y.lookahead));
        assert(box_all(g, g.num_nonterminals(), la).contains(y));
        assert(core_of(y) == x);
    }
}

/// Every item of `s` is valid for `g`.
pub open spec fn all_valid0(g: Grammar, s: Set<Item>) -> bool {
    forall|it: Item| #[trigger] s.contains(it) ==> it.valid(g)
}

/// Closing the item `it` adds `x`: `it` is `[A -> α·Bβ]` and `x` is
/// `[B -> ·γ]` for a production `B -> γ`.
pub open spec fn closure_adds0(g: Grammar, it: Item, x: Item) -> bool {
    &&& it.spec_next_symbol(g) == Some(Symbol::Nonterminal(x.lhs))
    &&& g.has_prod(x.lhs as int, x.rhs as int)
    &&& x.pos == 0
}

/// The set `s` holds every item that closing one of its items adds.
pub open spec fn lr0_closed(g: Grammar, s: Set<Item>) -> bool {
    forall|it: Item, x: Item| s.contains(it) && #[trigger] closure_adds0(g, it, x) ==> s.contains(x)
}

/// `s` is CLOSURE(k): the least closed set that holds `k`.
pub open spec fn is_closure0(g: Grammar, k: Set<Item>, s: Set<Item>) -> bool {
    &&& k.subset_of(s)
    &&& lr0_closed(g, s)
    &&& forall|t: Set<Item>| k.subset_of(t) && #[trigger] lr0_closed(g, t) ==> s.subset_of(t)
}

/// The kernel of GOTO(s, x): `[A -> αx·β]` for every `[A -> α·xβ]` in `s`.
pub open spec fn goto0(g: Grammar, s: Set<Item>, x: Symbol) -> Set<Item> {
    Set::new(|y: Item| y.pos > 0 && s.contains(Item { pos: (y.pos - 1) as usize, ..y })
        && (Item { pos: (y.pos - 1) as usize, ..y }).spec_next_symbol(g) == Some(x))
}

/// Whether `v` holds `x`.
pub fn contains_item(v: &Vec<Item>, x: &Item) -> (r: bool)
    ensures
        r == v@.contains(*x),
{
    let n = v.len();
    for i in 0..n
        invariant
            n == v@.len(),
            forall|j: int| 0 <= j < i ==> v@[j] != *x,
    {
        if v[i] == *x {
            assert(v@.contains(*x));
            return true;
        }
    }
    false
}

/// Adds `x` to `v` unless it is there, and tells whether it was new.
pub fn insert_item(v: &mut Vec<Item>, x: Item) -> (r: bool)
    requires
        old(v)@.no_duplicates(),
    ensures
        final(v)@.no_duplicates(),
        final(v)@.to_set() == old(v)@.to_set().insert(x),
        r == !old(v)@.contains(x),
        r ==> final(v)@ == old(v)@.push(x),
        !r ==> final(v)@ == old(v)@,
{
    if contains_item(v, &x) {
        assert(v@.to_set() =~= v@.to_set().insert(x));
        false
    } else {
        proof {
            lemma_push_no_duplicates(v@, x);
            lemma_push_to_set(v@, x);
        }
        v.push(x);
        true
    }
}

impl Grammar {
    /// CLOSURE of the LR(0) items `set`: for each `[A -> α·Bβ]` add
    /// `[B -> ·γ]` for each production `B -> γ`, until nothing changes.
    pub fn lr0_closure(&self, set: &mut Vec<Item>)
        requires
            self.wf(),
            old(set)@.no_duplicates(),
            all_valid0(*self, old(set)@.to_set()),
        ensures
            final(set)@.no_duplicates(),
            all_valid0(*self, final(set)@.to_set()),
            is_closure0(*self, old(set)@.to_set(), final(set)@.to_set()),
    {
        let ghost g = *self;
        let ghost k0 = set@.to_set();
        let ghost universe = k0.union(lr0_box(g));
        proof {
            lemma_lr0_box(g);
            vstd::seq_lib::seq_to_set_is_finite(set@);
        }
        let mut i: usize = 0;
        while i < set.len()
            invariant
                self.wf(),
                g == *self,
                universe.finite(),
                forall|x: Item| #[trigger] x.valid(g) ==> universe.contains(x),
                set@.no_duplicates(),
                all_valid0(g, set@.to_set()),
                k0.subset_of(set@.to_set()),
                set@.to_set().subset_of(universe),
                i <= set@.len(),
                // items before `i` have been closed
                forall|j: int, x: Item| 0 <= j < i && #[trigger] closure_adds0(g, set@[j], x) ==> set@.contains(x),
                // every item is in every closed superset of the kernel
                forall|t: Set<Item>| k0.subset_of(t) && #[trigger] lr0_closed(g, t) ==> set@.to_set().subset_of(t),
            decreases universe.len() - i,
        {
            proof {
                set@.unique_seq_to_set();
                vstd::set_lib::lemma_len_subset(set@.to_set(), universe);
            }
            let item = set[i];
            assert(set@.to_set().contains(item));
            match item.next_symbol(self) {
                Some(Symbol::Nonterminal(b)) => {
                    assert(b < self.rules@.len()) by {
                        assert(self.has_prod(item.lhs as int, item.rhs as int));
                        assert(self.body(item.lhs as int, item.rhs as int)[item.pos as int] == Symbol::Nonterminal(b));
                    }
                    let m = self.rules[b].len();
                    for r in 0..m
                        invariant
                            self.wf(),
                            g == *self,
                            b < g.num_nonterminals(),
                            m == g.num_prods(b as int),
                            i < set@.len(),
                            set@[i as int] == item,
                            item.spec_next_symbol(g) == Some(Symbol::Nonterminal(b)),
                            universe.finite(),
                            forall|x: Item| #[trigger] x.valid(g) ==> universe.contains(x),
                            set@.no_duplicates(),
                            all_valid0(g, set@.to_set()),
                            k0.subset_of(set@.to_set()),
                            set@.to_set().subset_of(universe),
                            forall|j: int, x: Item| 0 <= j < i && #[trigger] closure_adds0(g, set@[j], x) ==> set@.contains(x),
                            forall|y: Item| y.lhs == b && y.rhs < r && y.pos == 0 ==> #[trigger] set@.contains(y),
                            forall|t: Set<Item>| k0.subset_of(t) && #[trigger] lr0_closed(g, t) ==> set@.to_set().subset_of(t),
                    {
                        let x = Item { lhs: b, rhs: r, pos: 0 };
                        let ghost before = set@;
                        let added = insert_item(set, x);
                        proof {
                            assert forall|y: Item| set@.contains(y) <==> (before.contains(y) || y == x) by {
                                assert(set@.to_set().contains(y) == set@.contains(y));
                                assert(before.to_set().contains(y) == before.contains(y));
                            }
                            assert forall|j: int| 0 <= j < before.len() implies set@[j] == before[j] by {}
                            assert forall|y: Item| y.lhs == b && y.rhs < r + 1 && y.pos == 0 implies #[trigger] set@.contains(y) by {
                                if y.rhs < r {
                                    assert(before.contains(y));
                                } else {
                                    assert(y == x);
                                }
                            }
                            assert forall|j: int, y: Item| 0 <= j < i && #[trigger] closure_adds0(g, set@[j], y) implies set@.contains(y) by {
                                assert(set@[j] == before[j]);
                            }
                            assert(x.valid(g));
                            assert forall|t: Set<Item>| k0.subset_of(t) && #[trigger] lr0_closed(g, t) implies set@.to_set().subset_of(t) by {
                                assert(before.to_set().subset_of(t));
                                assert(t.contains(item));
                                assert(closure_adds0(g, item, x));
                                assert forall|y: Item| set@.to_set().contains(y) implies t.contains(y) by {
                                    assert(before.to_set().contains(y) == before.contains(y));
                                }
                            }
                        }
                    }
                    proof {
                        assert forall|x: Item| #[trigger] closure_adds0(g, item, x) implies set@.contains(x) by {
                            assert(x.lhs == b);
                        }
                    }
                },
                _ => {},
            }
            i += 1;
        }
        proof {
            assert forall|it: Item, x: Item| set@.to_set().contains(it) && #[trigger] closure_adds0(g, it, x) implies set@.to_set().contains(x) by {
                let j = choose|j: int| 0 <= j < set@.len() && set@[j] == it;
                assert(closure_adds0(g, set@[j], x));
            }
        }
    }
}

/// The symbols that stand after the dot in some item of `s`.
pub open spec fn next_symbols(g: Grammar, s: Set<Item>) -> Set<Symbol> {
    Set::new(|x: Symbol| exists|it: Item| s.contains(it) && #[trigger] it.spec_next_symbol(g) == Some(x))
}

/// Whether `v` holds the symbol `x`.
fn contains_symbol(v: &Vec<Symbol>, x: Symbol) -> (r: bool)
    ensures
        r == v@.contains(x),
{
    let n = v.len();
    for i in 0..n
        invariant
            n == v@.len(),
            forall|j: int| 0 <= j < i ==> v@[j] != x,
    {
        if v[i] == x {
            assert(v@.contains(x));
            return true;
        }
    }
    false
}

/// Whether `a` and `b` hold the same items.
pub fn same_items(a: &Vec<Item>, b: &Vec<Item>) -> (r: bool)
    ensures
        r == (a@.to_set() == b@.to_set()),
{
    let n = a.len();
    for i in 0..n
        invariant
            n == a@.len(),
            forall|j: int| 0 <= j < i ==> b@.contains(#[trigger] a@[j]),
    {
        if !contains_item(b, &a[i]) {
            assert(a@.to_set().contains(a@[i as int]));
            assert(!b@.to_set().contains(a@[i as int]));
            return false;
        }
    }
    let m = b.len();
    for i in 0..m
        invariant
            m == b@.len(),
            forall|j: int| 0 <= j < n ==> b@.contains(#[trigger] a@[j]),
            n == a@.len(),
            forall|j: int| 0 <= j < i ==> a@.contains(#[trigger] b@[j]),
    {
        if !contains_item(a, &b[i]) {
            assert(b@.to_set().contains(b@[i as int]));
            assert(!a@.to_set().contains(b@[i as int]));
            return false;
        }
    }
    assert forall|x: Item| a@.to_set().contains(x) <==> b@.to_set().contains(x) by {
        if a@.contains(x) {
            let j = choose|j: int| 0 <= j < a@.len() && a@[j] == x;
            assert(b@.contains(a@[j]));
        }
        if b@.contains(x) {
            let j = choose|j: int| 0 <= j < b@.len() && b@[j] == x;
            assert(a@.contains(b@[j]));
        }
    }
    assert(a@.to_set() =~= b@.to_set());
    true
}

impl Grammar {
    /// The symbols after the dot in the items `items`, each once.
    pub fn lr0_next_symbols(&self, items: &Vec<Item>) -> (r: Vec<Symbol>)
        requires
            all_valid0(*self, items@.to_set()),
        ensures
            r@.no_duplicates(),
            r@.to_set() == next_symbols(*self, items@.to_set()),
    {
        let mut r: Vec<Symbol> = Vec::new();
        let n = items.len();
        for i in 0..n
            invariant
                n == items@.len(),
                all_valid0(*self, items@.to_set()),
                r@.no_duplicates(),
                r@.to_set() == next_symbols(*self, items@.subrange(0, i as int).to_set()),
        {
            let it = items[i];
            assert(items@.to_set().contains(it));
            let ghost pre = items@.subrange(0, i as int);
            proof {
                assert(items@.subrange(0, i + 1) == pre.push(it));
                lemma_push_to_set(pre, it);
            }
            match it.next_symbol(self) {
                Some(x) => {
                    if !contains_symbol(&r, x) {
                        proof {
                            lemma_push_no_duplicates(r@, x);
                            lemma_push_to_set(r@, x);
                        }
                        r.push(x);
                    }
                    proof {
                        assert forall|y: Symbol| r@.to_set().contains(y) <==> next_symbols(*self, pre.push(it).to_set()).contains(y) by {
                            if y == x {
                                assert(pre.push(it).to_set().contains(it));
                            }
                            if next_symbols(*self, pre.push(it).to_set()).contains(y) {
                                let w = choose|w: Item| pre.push(it).to_set().contains(w) && #[trigger] w.spec_next_symbol(*self) == Some(y);
                                if w != it {
                                    assert(pre.to_set().contains(w));
                                }
                            }
                        }
                        assert(r@.to_set() =~= next_symbols(*self, items@.subrange(0, i + 1).to_set()));
                    }
                },
                None => {
                    proof {
                        assert forall|y: Symbol| next_symbols(*self, pre.push(it).to_set()).contains(y) <==> next_symbols(*self, pre.to_set()).contains(y) by {
                            if next_symbols(*self, pre.push(it).to_set()).contains(y) {
                                let w = choose|w: Item| pre.push(it).to_set().contains(w) && #[trigger] w.spec_next_symbol(*self) == Some(y);
                                if w != it {
                                    assert(pre.to_set().contains(w));
                                }
                            }
                            if next_symbols(*self, pre.to_set()).contains(y) {
                                let w = choose|w: Item| pre.to_set().contains(w) && #[trigger] w.spec_next_symbol(*self) == Some(y);
                                assert(pre.push(it).to_set().contains(w));
                            }
                        }
                        assert(r@.to_set() =~= next_symbols(*self, items@.subrange(0, i + 1).to_set()));
                    }
                },
            }
        }
        assert(items@.subrange(0, n as int) =~= items@);
        r
    }

    /// The kernel of GOTO(items, x).
    pub fn lr0_goto_kernel(&self, items: &Vec<Item>, x: Symbol) -> (r: Vec<Item>)
        requires
            all_valid0(*self, items@.to_set()),
        ensures
            r@.no_duplicates(),
            all_valid0(*self, r@.to_set()),
            r@.to_set() == goto0(*self, items@.to_set(), x),
    {
        let mut r: Vec<Item> = Vec::new();
        let n = items.len();
        for i in 0..n
            invariant
                n == items@.len(),
                all_valid0(*self, items@.to_set()),
                r@.no_duplicates(),
                all_valid0(*self, r@.to_set()),
                r@.to_set() == goto0(*self, items@.subrange(0, i as int).to_set(), x),
        {
            let it = items[i];
            assert(items@.to_set().contains(it));
            let ghost pre = items@.subrange(0, i as int);
            proof {
                assert(items@.subrange(0, i + 1) == pre.push(it));
                lemma_push_to_set(pre, it);
            }
            let is_x = match it.next_symbol(self) {
                Some(y) => y == x,
                None => false,
            };
            if is_x {
                assert(it.pos < self.rules@[it.lhs as int]@[it.rhs as int].body.len());
                let moved = Item { pos: it.pos + 1, ..it };
                let ghost before = r@;
                insert_item(&mut r, moved);
                proof {
                    assert(Item { pos: (moved.pos - 1) as usize, ..moved } == it);
                    assert forall|y: Item| r@.to_set().contains(y) implies y.valid(*self) by {
                        if y != moved {
                            assert(before.to_set().contains(y));
                        }
                    }
                    assert(r@.to_set() =~= goto0(*self, items@.subrange(0, i + 1).to_set(), x));
                }
            } else {
                assert(r@.to_set() =~= goto0(*self, items@.subrange(0, i + 1).to_set(), x));
            }
        }
        assert(items@.subrange(0, n as int) =~= items@);
        r
    }
}

/// The order of symbols: terminals before nonterminals, each by number.
pub open spec fn sym_lt(a: Symbol, b: Symbol) -> bool {
    match (a, b) {
        (Symbol::Terminal(x), Symbol::Terminal(y)) => x < y,
        (Symbol::Terminal(_), Symbol::Nonterminal(_)) => true,
        (Symbol::Nonterminal(x), Symbol::Nonterminal(y)) => x < y,
        _ => false,
    }
}

/// The symbols of `s` stand in strictly increasing order.
pub open spec fn syms_sorted(s: Seq<Symbol>) -> bool {
    forall|i: int, j: int| 0 <= i < j < s.len() ==> sym_lt(#[trigger] s[i], #[trigger] s[j])
}

/// The symbols of the finite set `x` in increasing order.
pub open spec fn sorted_symbols(x: Set<Symbol>) -> Seq<Symbol> {
    choose|q: Seq<Symbol>| syms_sorted(q) && q.to_set() == x
}

/// Two sequences of symbols in increasing order with the same symbols are
/// the same sequence.
proof fn lemma_sorted_unique(a: Seq<Symbol>, b: Seq<Symbol>)
    requires
        syms_sorted(a),
        syms_sorted(b),
        a.to_set() == b.to_set(),
    ensures
        a == b,
    decreases a.len() + b.len(),
{
    if a.len() == 0 || b.len() == 0 {
        if a.len() > 0 {
            assert(a.to_set().contains(a[0]));
        }
        if b.len() > 0 {
            assert(b.to_set().contains(b[0]));
        }
        assert(a =~= b);
    } else {
        let x = a.last();
        let y = b.last();
        assert(a.to_set().contains(x));
        assert(b.to_set().contains(y));
        let j = choose|j: int| 0 <= j < b.len() && b[j] == x;
        let i = choose|i: int| 0 <= i < a.len() && a[i] == y;
        if x != y {
            assert(j < b.len() - 1);
            assert(i < a.len() - 1);
            assert(sym_lt(x, y));
            assert(sym_lt(y, x));
        }
        let a2 = a.drop_last();
        let b2 = b.drop_last();
        assert forall|z: Symbol| a2.to_set().contains(z) <==> b2.to_set().contains(z) by {
            if a2.contains(z) {
                let k = choose|k: int| 0 <= k < a2.len() && a2[k] == z;
                assert(sym_lt(a[k], x));
                assert(a.to_set().contains(z));
                let m = choose|m: int| 0 <= m < b.len() && b[m] == z;
                if m == b.len() - 1 {
                    assert(z == y);
                }
                assert(b2[m] == z);
            }
            if b2.contains(z) {
                let k = choose|k: int| 0 <= k < b2.len() && b2[k] == z;
                assert(sym_lt(b[k], y));
                assert(b.to_set().contains(z));
                let m = choose|m: int| 0 <= m < a.len() && a[m] == z;
                if m == a.len() - 1 {
                    assert(z == x);
                }
                assert(a2[m] == z);
            }
        }
        assert(a2.to_set() =~= b2.to_set());
        lemma_sorted_unique(a2, b2);
        assert(a =~= a2.push(x));
        assert(b =~= b2.push(y));
    }
}

/// Sorting: the symbols of `v`, each once, in increasing order.
pub fn sort_symbols(v: &Vec<Symbol>) -> (r: Vec<Symbol>)
    ensures
        syms_sorted(r@),
        r@.to_set() == v@.to_set(),
        r@ == sorted_symbols(v@.to_set()),
{
    let mut r: Vec<Symbol> = Vec::new();
    let n = v.len();
    for q in 0..n
        invariant
            n == v@.len(),
            syms_sorted(r@),
            r@.to_set() == v@.subrange(0, q as int).to_set(),
    {
        let x = v[q];
        let m = r.len();
        let mut i: usize = 0;
        while i < m && sym_less(r[i], x)
            invariant
                m == r@.len(),
                i <= m,
                forall|j: int| 0 <= j < i ==> sym_lt(#[trigger] r@[j], x),
            decreases m - i,
        {
            i += 1;
        }
        let ghost s0 = r@;
        proof {
            assert(v@.subrange(0, q + 1) == v@.subrange(0, q as int).push(x));
            lemma_push_to_set(v@.subrange(0, q as int), x);
        }
        if i < m && r[i] == x {
            assert(r@.to_set() =~= v@.subrange(0, q + 1).to_set()) by {
                assert(r@.to_set().contains(x));
            }
        } else {
            proof {
                assert forall|j: int| i <= j < m implies sym_lt(x, #[trigger] s0[j]) by {
                    assert(!sym_lt(s0[i as int], x));
                    assert(s0[i as int] != x);
                    if j > i {
                        assert(sym_lt(s0[i as int], s0[j]));
                    }
                }
            }
            r.insert(i, x);
            proof {
                let t = r@;
                assert(t == s0.insert(i as int, x));
                assert forall|a: int, b: int| 0 <= a < b < t.len() implies sym_lt(#[trigger] t[a], #[trigger] t[b]) by {
                    if b < i {
                        assert(t[a] == s0[a] && t[b] == s0[b]);
                    } else if b == i {
                        assert(t[a] == s0[a]);
                    } else if a < i {
                        assert(t[a] == s0[a] && t[b] == s0[b - 1]);
                        assert(sym_lt(x, s0[b - 1]));
                    } else if a == i {
                        assert(t[b] == s0[b - 1]);
                    } else {
                        assert(t[a] == s0[a - 1] && t[b] == s0[b - 1]);
                    }
                }
                assert forall|z: Symbol| t.to_set().contains(z) <==> s0.to_set().insert(x).contains(z) by {
                    if t.contains(z) {
                        let j = choose|j: int| 0 <= j < t.len() && t[j] == z;
                        if j < i {
                            assert(s0[j] == z);
                        } else if j > i {
                            assert(s0[j - 1] == z);
                        }
                    }
                    if s0.contains(z) {
                        let j = choose|j: int| 0 <= j < s0.len() && s0[j] == z;
                        if j < i {
                            assert(t[j] == z);
                        } else {
                            assert(t[j + 1] == z);
                        }
                    }
                    if z == x {
                        assert(t[i as int] == z);
                    }
                }
                assert(t.to_set() =~= v@.subrange(0, q + 1).to_set());
            }
        }
    }
    proof {
        assert(v@.subrange(0, n as int) =~= v@);
        let c = sorted_symbols(v@.to_set());
        assert(syms_sorted(r@) && r@.to_set() == v@.to_set());
        lemma_sorted_unique(c, r@);
    }
    r
}

/// Whether `a` comes before `b` in the order of symbols.
pub fn sym_less(a: Symbol, b: Symbol) -> (r: bool)
    ensures
        r == sym_lt(a, b),
{
    match (a, b) {
        (Symbol::Terminal(x), Symbol::Terminal(y)) => x < y,
        (Symbol::Terminal(_), Symbol::Nonterminal(_)) => true,
        (Symbol::Nonterminal(x), Symbol::Nonterminal(y)) => x < y,
        _ => false,
    }
}

/// A state of the LR(0) automaton: its items, and its transitions on
/// symbols to other states.
#[derive(Debug)]
pub struct LR0State {
    pub items: Vec<Item>,
    pub transitions: Vec<(Symbol, usize)>,
}

/// The canonical collection of LR(0) item sets of a grammar, with its
/// transitions; `start` is the state of the start items.
#[derive(Debug)]
pub struct LR0Automaton {
    pub states: Vec<LR0State>,
    pub start: usize,
}

/// The start items: `[S -> ·γ]` for each production of the start symbol.
pub open spec fn initial_kernel(g: Grammar) -> Set<Item> {
    Set::new(|x: Item| x.lhs == g.start && (x.rhs as int) < g.num_prods(g.start as int) && x.pos == 0)
}

/// The item sets of the states `st`.
pub open spec fn state_sets(st: Seq<LR0State>) -> Seq<Set<Item>> {
    Seq::new(st.len(), |j: int| st[j].items@.to_set())
}

/// The transitions `tr` of state `i` are those of the canonical collection
/// `sets`: one for each symbol after a dot in state `i`, to the state that
/// is the closure of GOTO on that symbol.
pub open spec fn trans_ok(g: Grammar, sets: Seq<Set<Item>>, tr: Seq<(Symbol, usize)>, i: int) -> bool {
    &&& forall|k: int| 0 <= k < tr.len() ==> (#[trigger] tr[k]).1 < sets.len()
    &&& forall|k1: int, k2: int| 0 <= k1 < tr.len() && 0 <= k2 < tr.len() && k1 != k2 ==> (#[trigger] tr[k1]).0 != (#[trigger] tr[k2]).0
    &&& forall|x: Symbol| #[trigger] next_symbols(g, sets[i]).contains(x) <==> exists|k: int| 0 <= k < tr.len() && (#[trigger] tr[k]).0 == x
    &&& forall|k: int| 0 <= k < tr.len() ==> is_closure0(g, goto0(g, sets[i], (#[trigger] tr[k]).0), sets[tr[k].1 as int])
}

/// State `j` is the target of a transition of an earlier state.
pub open spec fn entered(st: Seq<LR0State>, j: int) -> bool {
    exists|i: int, k: int| #![trigger st[i].transitions@[k]]
        0 <= i < j && 0 <= k < st[i].transitions@.len() && st[i].transitions@[k].1 == j
}

/// The states `st` are the canonical LR(0) collection of `g` with its
/// transitions: state 0 is the closure of the start items, no two states
/// hold the same items, and every other state is reached from an earlier
/// one.
pub open spec fn is_lr0_collection(g: Grammar, st: Seq<LR0State>) -> bool {
    let sets = state_sets(st);
    &&& st.len() > 0
    &&& forall|i: int| 0 <= i < st.len() ==> (#[trigger] st[i]).items@.no_duplicates()
    &&& forall|i: int| 0 <= i < sets.len() ==> all_valid0(g, #[trigger] sets[i])
    &&& is_closure0(g, initial_kernel(g), sets[0])
    &&& forall|i: int| 0 <= i < st.len() ==> trans_ok(g, sets, #[trigger] st[i].transitions@, i)
    &&& sets.no_duplicates()
    &&& forall|j: int| 0 < j < st.len() ==> #[trigger] entered(st, j)
}

/// The closure of the LR(0) items `k`: the least closed set that holds
/// them.
pub open spec fn closure_of(g: Grammar, k: Set<Item>) -> Set<Item> {
    choose|s: Set<Item>| is_closure0(g, k, s)
}

proof fn lemma_closure_of(g: Grammar, k: Set<Item>, s: Set<Item>)
    requires
        is_closure0(g, k, s),
    ensures
        closure_of(g, k) == s,
{
    let c = closure_of(g, k);
    assert(is_closure0(g, k, c));
    assert(c.subset_of(s) && s.subset_of(c));
    assert(c =~= s);
}

/// Where the item set `x` stands among `sets`, or the number of sets if it
/// is not there.
pub open spec fn index_of_set(sets: Seq<Set<Item>>, x: Set<Item>) -> int {
    if sets.contains(x) {
        choose|j: int| 0 <= j < sets.len() && sets[j] == x
    } else {
        sets.len() as int
    }
}

proof fn lemma_index_of_set(sets: Seq<Set<Item>>, x: Set<Item>, j: int)
    requires
        sets.no_duplicates(),
        0 <= j <= sets.len(),
        j < sets.len() ==> sets[j] == x,
        j == sets.len() ==> forall|q: int| 0 <= q < sets.len() ==> sets[q] != x,
    ensures
        index_of_set(sets, x) == j,
{
    if j < sets.len() {
        assert(sets.contains(x));
    } else {
        assert(!sets.contains(x));
    }
}

/// Adding the transitions of state `i` of `sets` on the symbols `syms`, in
/// order: each goes to the closure of GOTO on its symbol, a new state
/// being added where that closure is not among the states yet.
pub open spec fn add_transitions(g: Grammar, sets: Seq<Set<Item>>, i: int, syms: Seq<Symbol>) -> (Seq<Set<Item>>, Seq<(Symbol, usize)>)
    decreases syms.len(),
{
    if syms.len() == 0 {
        (sets, Seq::empty())
    } else {
        let prev = add_transitions(g, sets, i, syms.drop_last());
        let x = syms.last();
        let target = closure_of(g, goto0(g, prev.0[i], x));
        let j = index_of_set(prev.0, target);
        (
            if j == prev.0.len() {
                prev.0.push(target)
            } else {
                prev.0
            },
            prev.1.push((x, j as usize)),
        )
    }
}

/// Exploring the LR(0) states from `sets`, the transitions of the first
/// ones being `trans`: the next state gets its transitions on its symbols
/// in increasing order, until every state has them (or `fuel` runs out).
pub open spec fn explore(g: Grammar, sets: Seq<Set<Item>>, trans: Seq<Seq<(Symbol, usize)>>, fuel: nat) -> (Seq<Set<Item>>, Seq<Seq<(Symbol, usize)>>)
    decreases fuel,
{
    if fuel == 0 || trans.len() >= sets.len() {
        (sets, trans)
    } else {
        let i = trans.len() as int;
        let next = add_transitions(g, sets, i, sorted_symbols(next_symbols(g, sets[i])));
        explore(g, next.0, trans.push(next.1), (fuel - 1) as nat)
    }
}

/// The canonical LR(0) collection of `g`, numbered: state 0 is the closure
/// of the start items, and the states are explored in order, each adding
/// its transitions on its symbols in increasing order.
pub open spec fn lr0_canonical(g: Grammar) -> (Seq<Set<Item>>, Seq<Seq<(Symbol, usize)>>) {
    explore(g, seq![closure_of(g, initial_kernel(g))], Seq::empty(), pow2(lr0_box(g).len()) + 1)
}

/// The transitions of the first `i` states of `st`.
pub open spec fn processed_trans(st: Seq<LR0State>, i: int) -> Seq<Seq<(Symbol, usize)>> {
    Seq::new(i as nat, |j: int| st[j].transitions@)
}

/// The transitions of the states `st`.
pub open spec fn state_trans(st: Seq<LR0State>) -> Seq<Seq<(Symbol, usize)>> {
    processed_trans(st, st.len() as int)
}

proof fn lemma_trans_ok_push(g: Grammar, sets: Seq<Set<Item>>, tr: Seq<(Symbol, usize)>, i: int, s: Set<Item>)
    requires
        0 <= i < sets.len(),
        trans_ok(g, sets, tr, i),
    ensures
        trans_ok(g, sets.push(s), tr, i),
{
    let t = sets.push(s);
    assert(t[i] == sets[i]);
    assert forall|k: int| 0 <= k < tr.len() implies is_closure0(g, goto0(g, t[i], (#[trigger] tr[k]).0), t[tr[k].1 as int]) by {
        assert(t[tr[k].1 as int] == sets[tr[k].1 as int]);
    }
}

/// A copy of the items `v`.
fn copy_items(v: &Vec<Item>) -> (r: Vec<Item>)
    ensures
        r@ == v@,
{
    let mut r: Vec<Item> = Vec::new();
    let n = v.len();
    for i in 0..n
        invariant
            n == v@.len(),
            r@ == v@.subrange(0, i as int),
    {
        r.push(v[i]);
        assert(r@ =~= v@.subrange(0, i + 1));
    }
    assert(r@ =~= v@);
    r
}

/// The index of the state whose items are those of `items`, or the number
/// of states if there is none.
fn find_state(st: &Vec<LR0State>, items: &Vec<Item>) -> (r: usize)
    ensures
        r <= st@.len(),
        r < st@.len() ==> state_sets(st@)[r as int] == items@.to_set(),
        r == st@.len() ==> forall|j: int| 0 <= j < st@.len() ==> state_sets(st@)[j] != items@.to_set(),
{
    let n = st.len();
    for j in 0..n
        invariant
            n == st@.len(),
            forall|q: int| 0 <= q < j ==> state_sets(st@)[q] != items@.to_set(),
    {
        if same_items(&st[j].items, items) {
            return j;
        }
    }
    n
}

proof fn lemma_sets_push(st: Seq<LR0State>, s: LR0State)
    ensures
        state_sets(st.push(s)) == state_sets(st).push(s.items@.to_set()),
{
    assert(state_sets(st.push(s)) =~= state_sets(st).push(s.items@.to_set()));
}

proof fn lemma_sets_update(st: Seq<LR0State>, i: int, s: LR0State)
    requires
        0 <= i < st.len(),
        s.items@ == st[i].items@,
    ensures
        state_sets(st.update(i, s)) == state_sets(st),
{
    assert(state_sets(st.update(i, s)) =~= state_sets(st));
}

impl Grammar {
    /// The start items: each production of the start symbol with the dot at
    /// its left end.
    pub(crate) fn initial_items(&self) -> (r: Vec<Item>)
        requires
            self.wf(),
        ensures
            r@.no_duplicates(),
            r@.to_set() == initial_kernel(*self),
            all_valid0(*self, r@.to_set()),
    {
        let mut r: Vec<Item> = Vec::new();
        let m = self.rules[self.start].len();
        for q in 0..m
            invariant
                self.wf(),
                m == self.num_prods(self.start as int),
                r@ == Seq::new(q as nat, |p: int| Item { lhs: self.start, rhs: p as usize, pos: 0 }),
        {
            r.push(Item { lhs: self.start, rhs: q, pos: 0 });
            assert(r@ =~= Seq::new((q + 1) as nat, |p: int| Item { lhs: self.start, rhs: p as usize, pos: 0 }));
        }
        assert forall|x: Item| r@.to_set().contains(x) <==> initial_kernel(*self).contains(x) by {
            if initial_kernel(*self).contains(x) {
                assert(r@[x.rhs as int] == x);
            }
        }
        assert(r@.to_set() =~= initial_kernel(*self));
        r
    }

    /// The canonical collection of LR(0) item sets of the grammar, with the
    /// GOTO transitions between them. State 0 holds the closure of the start
    /// items.
    pub fn lr0_automaton(&self) -> (a: LR0Automaton)
        requires
            self.wf(),
        ensures
            a.start == 0,
            is_lr0_collection(*self, a.states@),
            state_sets(a.states@) == lr0_canonical(*self).0,
            state_trans(a.states@) == lr0_canonical(*self).1,
    {
        let ghost g = *self;
        let ghost bx = lr0_box(g);
        proof {
            lemma_lr0_box(g);
        }
        let mut init = self.initial_items();
        self.lr0_closure(&mut init);
        let mut states: Vec<LR0State> = Vec::new();
        states.push(LR0State { items: init, transitions: Vec::new() });
        assert(state_sets(states@)[0] == init@.to_set());
        let ghost fuel0: nat = pow2(bx.len()) + 1;
        proof {
            lemma_closure_of(g, initial_kernel(g), init@.to_set());
            assert(state_sets(states@) =~= seq![closure_of(g, initial_kernel(g))]);
            assert(processed_trans(states@, 0) =~= Seq::<Seq<(Symbol, usize)>>::empty());
        }
        let mut i: usize = 0;
        while i < states.len()
            invariant
                self.wf(),
                g == *self,
                bx.finite(),
                forall|x: Item| #[trigger] x.valid(g) ==> bx.contains(x),
                i <= states@.len(),
                states@.len() > 0,
                forall|j: int| 0 <= j < states@.len() ==> (#[trigger] states@[j]).items@.no_duplicates(),
                forall|j: int| 0 <= j < states@.len() ==> all_valid0(g, #[trigger] state_sets(states@)[j]),
                is_closure0(g, initial_kernel(g), state_sets(states@)[0]),
                forall|j: int| 0 <= j < i ==> trans_ok(g, state_sets(states@), #[trigger] states@[j].transitions@, j),
                forall|j: int| i <= j < states@.len() ==> (#[trigger] states@[j]).transitions@.len() == 0,
                state_sets(states@).no_duplicates(),
                forall|j: int| 0 < j < states@.len() ==> #[trigger] entered(states@, j),
                fuel0 == pow2(bx.len()) + 1,
                bx == lr0_box(g),
                i <= pow2(bx.len()),
                explore(g, state_sets(states@), processed_trans(states@, i as int), (fuel0 - i) as nat) == lr0_canonical(g),
            decreases pow2(bx.len()) - i,
        {
            proof {
                assert forall|j: int| 0 <= j < state_sets(states@).len() implies (#[trigger] state_sets(states@)[j]).subset_of(bx) by {
                    assert(all_valid0(g, state_sets(states@)[j]));
                }
                lemma_distinct_subsets(state_sets(states@), bx);
            }
            assert(state_sets(states@)[i as int] == states@[i as int].items@.to_set());
            let syms = sort_symbols(&self.lr0_next_symbols(&states[i].items));
            let ghost st0 = states@;
            let ghost sets0 = state_sets(states@);
            proof {
                assert(syms@.no_duplicates()) by {
                    assert forall|a: int, b: int| 0 <= a < b < syms@.len() implies syms@[a] != syms@[b] by {
                        assert(sym_lt(syms@[a], syms@[b]));
                    }
                }
                assert(syms@.take(0) =~= Seq::<Symbol>::empty());
            }
            let mut tr: Vec<(Symbol, usize)> = Vec::new();
            let ns = syms.len();
            for k in 0..ns
                invariant
                    self.wf(),
                    g == *self,
                    bx.finite(),
                    forall|x: Item| #[trigger] x.valid(g) ==> bx.contains(x),
                    i < states@.len(),
                    forall|j: int| 0 <= j < states@.len() ==> (#[trigger] states@[j]).items@.no_duplicates(),
                    forall|j: int| 0 <= j < states@.len() ==> all_valid0(g, #[trigger] state_sets(states@)[j]),
                    is_closure0(g, initial_kernel(g), state_sets(states@)[0]),
                    forall|j: int| 0 <= j < i ==> trans_ok(g, state_sets(states@), #[trigger] states@[j].transitions@, j),
                    forall|j: int| i <= j < states@.len() ==> (#[trigger] states@[j]).transitions@.len() == 0,
                    state_sets(states@).no_duplicates(),
                    ns == syms@.len(),
                    syms@.no_duplicates(),
                    syms@.to_set() == next_symbols(g, state_sets(states@)[i as int]),
                    tr@.len() == k,
                    forall|q: int| 0 <= q < k ==> (#[trigger] tr@[q]).0 == syms@[q],
                    forall|q: int| 0 <= q < k ==> (#[trigger] tr@[q]).1 < states@.len(),
                    forall|q: int| 0 <= q < k ==> is_closure0(g, goto0(g, state_sets(states@)[i as int], (#[trigger] tr@[q]).0), state_sets(states@)[tr@[q].1 as int]),
                    forall|j: int| 0 < j < states@.len() ==> #[trigger] entered(states@, j) || (i < j && exists|q: int| 0 <= q < k && (#[trigger] tr@[q]).1 == j),
                    i < st0.len() <= states@.len(),
                    forall|q: int| 0 <= q < st0.len() ==> states@[q] == st0[q],
                    sets0 == state_sets(st0),
                    syms@ == sorted_symbols(next_symbols(g, sets0[i as int])),
                    add_transitions(g, sets0, i as int, syms@.take(k as int)) == (state_sets(states@), tr@),
            {
                assert(state_sets(states@)[i as int] == states@[i as int].items@.to_set());
                let ghost states_top = states@;
                let mut kern = self.lr0_goto_kernel(&states[i].items, syms[k]);
                let ghost kset = kern@.to_set();
                self.lr0_closure(&mut kern);
                let j = find_state(&states, &kern);
                proof {
                    lemma_closure_of(g, kset, kern@.to_set());
                    lemma_index_of_set(state_sets(states@), kern@.to_set(), j as int);
                }
                if j == states.len() {
                    let ghost before = states@;
                    let ghost sb = state_sets(before);
                    states.push(LR0State { items: kern, transitions: Vec::new() });
                    proof {
                        lemma_sets_push(before, states@.last());
                        let sa = state_sets(states@);
                        assert forall|q: int| 0 <= q < before.len() implies sa[q] == sb[q] && states@[q] == before[q] by {}
                        assert(sa[j as int] == kern@.to_set());
                        assert forall|j2: int| 0 <= j2 < i implies trans_ok(g, sa, #[trigger] states@[j2].transitions@, j2) by {
                            lemma_trans_ok_push(g, sb, before[j2].transitions@, j2, kern@.to_set());
                        }
                        assert forall|j2: int| 0 < j2 < before.len() && #[trigger] entered(before, j2) implies entered(states@, j2) by {
                            let (i2, k2) = choose|i2: int, k2: int| #![trigger before[i2].transitions@[k2]]
                                0 <= i2 < j2 && 0 <= k2 < before[i2].transitions@.len() && before[i2].transitions@[k2].1 == j2;
                            assert(states@[i2].transitions@[k2].1 == j2);
                        }
                        assert(sa.no_duplicates()) by {
                            assert forall|a: int, b: int| 0 <= a < sa.len() && 0 <= b < sa.len() && a != b implies sa[a] != sa[b] by {
                                if a < before.len() && b < before.len() {
                                    assert(sb[a] != sb[b]);
                                }
                            }
                        }
                    }
                }
                assert(forall|j2: int| 0 < j2 < states_top.len() && #[trigger] entered(states_top, j2) ==> entered(states@, j2));
                assert(states@.len() == states_top.len() || (j == states_top.len() && states@.len() == states_top.len() + 1));
                let ghost tr_before = tr@;
                tr.push((syms[k], j));
                proof {
                    assert forall|q: int| 0 <= q < st0.len() implies states@[q] == st0[q] by {
                        assert(states@[q] == states_top[q]);
                    }
                    assert(syms@.take(k + 1).drop_last() =~= syms@.take(k as int));
                    assert(syms@.take(k + 1).last() == syms@[k as int]);
                    assert(states_top[i as int] == st0[i as int]);
                    assert(state_sets(states_top)[i as int] == sets0[i as int]);
                    if j == states_top.len() {
                        lemma_sets_push(states_top, states@.last());
                        assert(states@ =~= states_top.push(states@.last()));
                    } else {
                        assert(states@ =~= states_top);
                    }
                    assert(add_transitions(g, sets0, i as int, syms@.take(k + 1)) == (state_sets(states@), tr@));
                    assert forall|j2: int| 0 < j2 < states@.len() implies #[trigger] entered(states@, j2) || (i < j2 && exists|q: int| 0 <= q < k + 1 && (#[trigger] tr@[q]).1 == j2) by {
                        if !entered(states@, j2) {
                            if j2 == j {
                                assert(tr@[k as int].1 == j2);
                            } else {
                                assert(j2 < states_top.len());
                                assert(!entered(states_top, j2));
                                let q = choose|q: int| 0 <= q < k && (#[trigger] tr_before[q]).1 == j2;
                                assert(tr@[q] == tr_before[q]);
                            }
                        }
                    }
                }
            }
            let ghost before = states@;
            proof {
                assert(syms@.take(ns as int) =~= syms@);
                assert(processed_trans(before, i as int) =~= processed_trans(st0, i as int));
            }
            let items = copy_items(&states[i].items);
            states.set(i, LR0State { items, transitions: tr });
            proof {
                lemma_sets_update(before, i as int, states@[i as int]);
                assert(processed_trans(states@, i + 1) =~= processed_trans(st0, i as int).push(tr@));
                let sa = state_sets(states@);
                assert forall|q: int| 0 <= q < states@.len() && q != i implies states@[q] == before[q] by {}
                assert(trans_ok(g, sa, states@[i as int].transitions@, i as int)) by {
                    let t = tr@;
                    assert forall|x: Symbol| #[trigger] next_symbols(g, sa[i as int]).contains(x) <==> exists|q: int| 0 <= q < t.len() && (#[trigger] t[q]).0 == x by {
                        if next_symbols(g, sa[i as int]).contains(x) {
                            assert(syms@.to_set().contains(x));
                            let q = choose|q: int| 0 <= q < syms@.len() && syms@[q] == x;
                            assert(t[q].0 == x);
                        }
                        if exists|q: int| 0 <= q < t.len() && (#[trigger] t[q]).0 == x {
                            let q = choose|q: int| 0 <= q < t.len() && (#[trigger] t[q]).0 == x;
                            assert(syms@[q] == x);
                            assert(syms@.to_set().contains(x));
                        }
                    }
                    assert forall|k1: int, k2: int| 0 <= k1 < t.len() && 0 <= k2 < t.len() && k1 != k2 implies (#[trigger] t[k1]).0 != (#[trigger] t[k2]).0 by {
                        assert(syms@[k1] != syms@[k2]);
                    }
                }
                assert forall|j2: int| 0 < j2 < states@.len() implies #[trigger] entered(states@, j2) by {
                    if entered(before, j2) {
                        let (i2, k2) = choose|i2: int, k2: int| #![trigger before[i2].transitions@[k2]]
                            0 <= i2 < j2 && 0 <= k2 < before[i2].transitions@.len() && before[i2].transitions@[k2].1 == j2;
                        assert(i2 < i);
                        assert(states@[i2].transitions@[k2].1 == j2);
                    } else {
                        let q = choose|q: int| 0 <= q < tr@.len() && (#[trigger] tr@[q]).1 == j2;
                        assert(states@[i as int].transitions@[q].1 == j2);
                    }
                }
            }
            i += 1;
        }
        proof {
            assert(processed_trans(states@, i as int) == state_trans(states@));
        }
        LR0Automaton { states, start: 0 }
    }
}

} // verus!
