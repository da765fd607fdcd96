use vstd::prelude::*;

use crate::class::{CharClass, MAX_CODE_POINT};
use crate::grammar::{Grammar, Symbol, FirstSets, first_same};
use crate::follow::{FollowSets, follow_same};
use crate::lr0::{Item, LR0State, is_closure0, is_lr0_collection, state_sets, goto0, trans_ok};
use crate::lr1::{LR1Item, LR1Action, LR1State, LRConflict, lr1_closed, spec_determine_conflict};
use crate::lr0::{LR0Automaton, state_trans, lr0_canonical};
use crate::lr1::LR1Table;
use crate::lalr::{LR1Lookahead, lalr_lookaheads, lalr_result, lalr_entry, lalr_kernel, lalr_forced, lalr_item_entry};
use crate::slr::slr_result;
use crate::program::{Program, Span, Item as ProgramItem};
use crate::ty::{LexerType, PrimitiveType, Reserved, PrimitiveTypeKind, Token, Type, ParseErrorView, spec_parse_type, spec_from_lexer_type};
use crate::regex_parser::{
    Operator, ParseEvent, Parser, ReadState, initial_read_state, operator_action, spec_run, run_calls, parse_calls,
    reduce_events, reduces_once, after_once, dot_set, step_nodes, with_counts, shift_operand, special_of, special_set, spec_step, ranges_set, pending_ranges, step_calls, once_events, parse_made, lemma_parse_made_prefix, spec_char_action, CharAction, concat_run, concat_strip, binds_tighter, paren_run,
};
use crate::slr::{is_first_sets, is_follow_sets, slr_state_of, shift_entries, items_entries, item_entries, state_entries};

verus! {

/// `r` is the LR(1) closure of `s`: the least set closed under the
/// closure rule that holds `s` (what `Grammar::lr1_closure` ensures).
pub open spec fn is_lr1_closure(g: Grammar, fs: FirstSets, s: Set<LR1Item>, r: Set<LR1Item>) -> bool {
    &&& s.subset_of(r)
    &&& lr1_closed(g, fs, r)
    &&& forall|t: Set<LR1Item>| s.subset_of(t) && #[trigger] lr1_closed(g, fs, t) ==> r.subset_of(t)
}

/// Closing an LR(1) item set twice gives what closing it once gives.
pub proof fn lemma_lr1_closure_idempotent(g: Grammar, fs: FirstSets, s: Set<LR1Item>, r: Set<LR1Item>, r2: Set<LR1Item>)
    requires
        is_lr1_closure(g, fs, s, r),
        is_lr1_closure(g, fs, r, r2),
    ensures
        r2 == r,
{
    assert(r2.subset_of(r));
    assert(r2 =~= r);
}

/// The LR(1) closure of a set that is already closed is that set.
pub proof fn lemma_lr1_closure_of_closed(g: Grammar, fs: FirstSets, s: Set<LR1Item>, r: Set<LR1Item>)
    requires
        lr1_closed(g, fs, s),
        is_lr1_closure(g, fs, s, r),
    ensures
        r == s,
{
    assert(r.subset_of(s));
    assert(r =~= s);
}

/// A set has one LR(1) closure.
pub proof fn lemma_lr1_closure_unique(g: Grammar, fs: FirstSets, s: Set<LR1Item>, r1: Set<LR1Item>, r2: Set<LR1Item>)
    requires
        is_lr1_closure(g, fs, s, r1),
        is_lr1_closure(g, fs, s, r2),
    ensures
        r1 == r2,
{
    assert(r1.subset_of(r2));
    assert(r2.subset_of(r1));
    assert(r1 =~= r2);
}

/// Closing an LR(0) item set twice gives what closing it once gives.
pub proof fn lemma_lr0_closure_idempotent(g: Grammar, s: Set<Item>, r: Set<Item>, r2: Set<Item>)
    requires
        is_closure0(g, s, r),
        is_closure0(g, r, r2),
    ensures
        r2 == r,
{
    assert(r2.subset_of(r));
    assert(r2 =~= r);
}

/// The FIRST sets of a grammar are determined by it: two results of
/// `Grammar::first_sets` hold the same sets.
pub proof fn lemma_first_sets_unique(g: Grammar, a: FirstSets, b: FirstSets)
    requires
        is_first_sets(g, a),
        is_first_sets(g, b),
    ensures
        first_same(a, b, g.num_nonterminals()),
{
    let n = g.num_nonterminals();
    assert(crate::grammar::first_le(a, b, n));
    assert(crate::grammar::first_le(b, a, n));
    assert forall|x: int| 0 <= x < n implies #[trigger] a.terms(x) == b.terms(x) && a.nullable(x) == b.nullable(x) by {
        assert(a.terms(x).subset_of(b.terms(x)));
        assert(b.terms(x).subset_of(a.terms(x)));
        assert(a.terms(x) =~= b.terms(x));
    }
}

/// The FOLLOW sets of a grammar are determined by it and its FIRST sets,
/// and the endmarker follows the start symbol.
pub proof fn lemma_follow_sets_unique(g: Grammar, fs: FirstSets, a: FollowSets, b: FollowSets)
    requires
        is_follow_sets(g, fs, a),
        is_follow_sets(g, fs, b),
    ensures
        follow_same(a, b, g.num_nonterminals()),
        a.endmarker(g.start as int),
{
    let n = g.num_nonterminals();
    assert(crate::follow::follow_le(a, b, n));
    assert(crate::follow::follow_le(b, a, n));
    assert forall|x: int| 0 <= x < n implies a.terms(x) == b.terms(x) && a.endmarker(x) == b.endmarker(x) by {
        assert(a.terms(x).subset_of(b.terms(x)));
        assert(b.terms(x).subset_of(a.terms(x)));
        assert(a.terms(x) =~= b.terms(x));
    }
}

/// `d` is the complement of `c` (what `CharClass::complement` ensures):
/// it holds exactly the code points up to `MAX_CODE_POINT` that `c` lacks.
pub open spec fn is_complement(c: CharClass, d: CharClass) -> bool {
    forall|k: u32| d.has(k) <==> (k <= MAX_CODE_POINT && !c.has(k))
}

/// The complement of the complement of a class holds the same characters
/// as the class.
pub proof fn lemma_complement_involution(c: CharClass, d: CharClass, e: CharClass)
    requires
        is_complement(c, d),
        is_complement(d, e),
    ensures
        e.chars() == c.chars(),
        forall|k: u32| k <= MAX_CODE_POINT ==> (e.has(k) <==> c.has(k)),
{
    assert forall|ch: char| e.chars().contains(ch) <==> c.chars().contains(ch) by {
        crate::class::lemma_char_bound(ch);
    }
    assert(e.chars() =~= c.chars());
}

/// The shift entries of the transitions `tr` are the transitions on
/// terminals.
proof fn lemma_shift_entries_contain(tr: Seq<(Symbol, usize)>, e: (Option<usize>, LR1Action))
    requires
        shift_entries(tr).contains(e),
    ensures
        e.0 is Some,
        e.1 is Shift,
        exists|k: int| 0 <= k < tr.len() && #[trigger] tr[k] == (Symbol::Terminal(e.0->0), e.1->Shift_0),
    decreases tr.len(),
{
    let p = tr.drop_last();
    let j = choose|j: int| 0 <= j < shift_entries(tr).len() && shift_entries(tr)[j] == e;
    if j < shift_entries(p).len() && shift_entries(tr)[j] == shift_entries(p)[j] {
        assert(shift_entries(p).contains(e));
        lemma_shift_entries_contain(p, e);
        let k = choose|k: int| 0 <= k < p.len() && #[trigger] p[k] == (Symbol::Terminal(e.0->0), e.1->Shift_0);
        assert(tr[k] == p[k]);
    } else {
        assert(tr.last() == tr[tr.len() - 1]);
    }
}

/// An entry of the items `items` comes from one of them.
proof fn lemma_items_entries_contain(g: Grammar, fo: FollowSets, items: Seq<Item>, e: (Option<usize>, LR1Action))
    requires
        items_entries(g, fo, items).contains(e),
    ensures
        exists|j: int| 0 <= j < items.len() && #[trigger] item_entries(g, fo, items[j]).contains(e),
    decreases items.len(),
{
    let p = items.drop_last();
    let a = items_entries(g, fo, p);
    let b = item_entries(g, fo, items.last());
    let q = choose|q: int| 0 <= q < (a + b).len() && (a + b)[q] == e;
    if q < a.len() {
        assert(a[q] == e);
        lemma_items_entries_contain(g, fo, p, e);
        let j = choose|j: int| 0 <= j < p.len() && #[trigger] item_entries(g, fo, p[j]).contains(e);
        assert(items[j] == p[j]);
    } else {
        assert(b[q - a.len()] == e);
        assert(item_entries(g, fo, items[items.len() - 1]).contains(e));
    }
}

/// In the SLR(1) table of the canonical LR(0) collection `st`, a shift to
/// `d` on the terminal `t` in state `i` goes to the state that is the
/// closure of GOTO(I_i, t).
pub proof fn lemma_slr_shift_is_goto(g: Grammar, fo: FollowSets, st: Seq<LR0State>, i: int, s: LR1State, t: usize, d: usize)
    requires
        is_lr0_collection(g, st),
        0 <= i < st.len(),
        slr_state_of(g, fo, st[i], s),
        s.action_on(Some(t)) == Some(LR1Action::Shift(d)),
    ensures
        (d as int) < st.len(),
        is_closure0(g, goto0(g, state_sets(st)[i], Symbol::Terminal(t)), state_sets(st)[d as int]),
{
    let e = (Some(t), LR1Action::Shift(d));
    let tr = st[i].transitions@;
    assert(state_entries(g, fo, st[i]).contains(e));
    let sh = shift_entries(tr);
    let it = items_entries(g, fo, st[i].items@);
    let q = choose|q: int| 0 <= q < (sh + it).len() && (sh + it)[q] == e;
    if q < sh.len() {
        assert(sh[q] == e);
        lemma_shift_entries_contain(tr, e);
        let k = choose|k: int| 0 <= k < tr.len() && #[trigger] tr[k] == (Symbol::Terminal(e.0->0), e.1->Shift_0);
        assert(trans_ok(g, state_sets(st), tr, i));
        assert(tr[k].1 < state_sets(st).len());
    } else {
        assert(it[q - sh.len()] == e);
        lemma_items_entries_contain(g, fo, st[i].items@, e);
        let j = choose|j: int| 0 <= j < st[i].items@.len() && #[trigger] item_entries(g, fo, st[i].items@[j]).contains(e);
        let x = st[i].items@[j];
        let ie = item_entries(g, fo, x);
        let q2 = choose|q2: int| 0 <= q2 < ie.len() && ie[q2] == e;
        assert(ie[q2].1 !is Shift);
    }
}

/// In the SLR(1) table of the canonical LR(0) collection `st`, the GOTO
/// of state `i` on the nonterminal `m` is the state that is the closure of
/// GOTO(I_i, m).
pub proof fn lemma_slr_goto_is_goto(g: Grammar, fo: FollowSets, st: Seq<LR0State>, i: int, s: LR1State, m: usize)
    requires
        is_lr0_collection(g, st),
        0 <= i < st.len(),
        slr_state_of(g, fo, st[i], s),
        s.goto@.contains_key(m),
    ensures
        (s.goto@[m] as int) < st.len(),
        is_closure0(g, goto0(g, state_sets(st)[i], Symbol::Nonterminal(m)), state_sets(st)[s.goto@[m] as int]),
{
    let tr = st[i].transitions@;
    let k = choose|k: int| 0 <= k < tr.len() && (#[trigger] tr[k]).0 == Symbol::Nonterminal(m);
    assert(s.goto@[m] == tr[k].1);
    assert(trans_ok(g, state_sets(st), tr, i));
}

/// In the SLR(1) table built with the FOLLOW sets `fo`, a reduction by
/// production `r` of `a` on the terminal `t` (or on the endmarker) in state
/// `i` comes from the item `[a -> γ·]` of that state, `a` is not the start
/// symbol, and `t` (or the endmarker) is in FOLLOW(a).
pub proof fn lemma_slr_reduce_is_follow(g: Grammar, fo: FollowSets, st: Seq<LR0State>, i: int, s: LR1State, sy: Option<usize>, a: usize, r: usize)
    requires
        0 <= i < st.len(),
        slr_state_of(g, fo, st[i], s),
        s.action_on(sy) == Some(LR1Action::Reduce(a, r)),
    ensures
        st[i].items@.contains(Item { lhs: a, rhs: r, pos: g.body(a as int, r as int).len() as usize }),
        a != g.start,
        match sy {
            Some(t) => fo.terms(a as int).contains(t),
            None => fo.endmarker(a as int),
        },
{
    let e = (sy, LR1Action::Reduce(a, r));
    let tr = st[i].transitions@;
    assert(state_entries(g, fo, st[i]).contains(e));
    let sh = shift_entries(tr);
    let it = items_entries(g, fo, st[i].items@);
    let q = choose|q: int| 0 <= q < (sh + it).len() && (sh + it)[q] == e;
    if q < sh.len() {
        assert(sh[q] == e);
        lemma_shift_entries_contain(tr, e);
    } else {
        assert(it[q - sh.len()] == e);
        lemma_items_entries_contain(g, fo, st[i].items@, e);
        let j = choose|j: int| 0 <= j < st[i].items@.len() && #[trigger] item_entries(g, fo, st[i].items@[j]).contains(e);
        let x = st[i].items@[j];
        let ie = item_entries(g, fo, x);
        let q2 = choose|q2: int| 0 <= q2 < ie.len() && ie[q2] == e;
        assert(x.lhs == a && x.rhs == r);
        assert(x == Item { lhs: a, rhs: r, pos: g.body(a as int, r as int).len() as usize });
        assert(st[i].items@.contains(x));
        if let Some(t) = sy {
            let ts = fo.sets@[a as int].terminals@;
            assert(ie[q2] == (Some(ts[q2]), LR1Action::Reduce(a, r)));
            assert(ts.contains(t));
        }
    }
}

/// In the SLR(1) table, accept is set on the endmarker of a state only for
/// an item `[S -> γ·]` of the start symbol `S` in that state.
pub proof fn lemma_slr_accept_is_start(g: Grammar, fo: FollowSets, st: Seq<LR0State>, i: int, s: LR1State)
    requires
        0 <= i < st.len(),
        slr_state_of(g, fo, st[i], s),
        s.endmarker == Some(LR1Action::Accept),
    ensures
        exists|x: Item| #[trigger] st[i].items@.contains(x) && x.lhs == g.start && x.pos == g.body(x.lhs as int, x.rhs as int).len(),
{
    let e = (None::<usize>, LR1Action::Accept);
    let tr = st[i].transitions@;
    assert(s.action_on(None) == Some(LR1Action::Accept));
    assert(state_entries(g, fo, st[i]).contains(e));
    let sh = shift_entries(tr);
    let it = items_entries(g, fo, st[i].items@);
    let q = choose|q: int| 0 <= q < (sh + it).len() && (sh + it)[q] == e;
    if q < sh.len() {
        assert(sh[q] == e);
        lemma_shift_entries_contain(tr, e);
    } else {
        assert(it[q - sh.len()] == e);
        lemma_items_entries_contain(g, fo, st[i].items@, e);
        let j = choose|j: int| 0 <= j < st[i].items@.len() && #[trigger] item_entries(g, fo, st[i].items@[j]).contains(e);
        let x = st[i].items@[j];
        assert(st[i].items@.contains(x));
    }
}

/// The LALR(1) lookaheads of a grammar's kernel items are determined by
/// it: two least closed sets of lookaheads are the same.
pub proof fn lemma_lalr_lookaheads_unique(g: Grammar, fs: FirstSets, trans: Seq<Seq<(Symbol, usize)>>, a: Set<(usize, (Item, LR1Lookahead))>, b: Set<(usize, (Item, LR1Lookahead))>)
    requires
        lalr_lookaheads(g, fs, trans, a),
        lalr_lookaheads(g, fs, trans, b),
    ensures
        a == b,
{
    assert(a.subset_of(b));
    assert(b.subset_of(a));
    assert(a =~= b);
}

/// The LALR(1) table has the states of the LR(0) automaton, state for
/// state: on a terminal transition of LR(0) state `i` to `d`, state `i` of
/// the table shifts to `d`, and on a nonterminal one it has that goto.
pub proof fn lemma_lalr_table_follows_lr0(g: Grammar, fs: FirstSets, s: Set<(usize, (Item, LR1Lookahead))>, t: LR1Table, a: LR0Automaton, i: int, k: int)
    requires
        state_trans(a.states@) == lr0_canonical(g).1,
        lalr_result(g, fs, lr0_canonical(g).1, s, Ok(t)),
        0 <= i < a.states@.len(),
        0 <= k < a.states@[i].transitions@.len(),
    ensures
        t.states@.len() == a.states@.len(),
        match a.states@[i].transitions@[k] {
            (Symbol::Terminal(x), d) => t.states@[i].action_on(Some(x)) == Some(LR1Action::Shift(d)),
            (Symbol::Nonterminal(m), d) => t.states@[i].goto@.contains_key(m) && t.states@[i].goto@[m] == d,
        },
{
    let trans = lr0_canonical(g).1;
    let tr = a.states@[i].transitions@;
    assert(trans[i] == tr);
    let st = t.states@[i];
    assert(crate::lalr::lalr_state_of(g, fs, tr, lalr_kernel(s, i), st));
    match tr[k] {
        (Symbol::Terminal(x), d) => {
            assert(tr.contains((Symbol::Terminal(x), d)));
            assert(lalr_entry(g, fs, tr, lalr_kernel(s, i), Some(x), LR1Action::Shift(d)));
        },
        (Symbol::Nonterminal(m), d) => {
            assert(crate::slr::goto_of(tr, st.goto@));
        },
    }
}

/// The character `c` is read as itself outside a class: it is no
/// backslash, bracket, dot or operator.
pub open spec fn plain_char(c: char) -> bool {
    c != '\\' && c != '[' && c != '.' && operator_action(c) is None
}

/// The reader after `k` plain characters: a concatenation is due before
/// the next operand once one is read, and one is pending from the second
/// on.
pub open spec fn plain_state(k: nat) -> ReadState {
    ReadState {
        insert_concat: k > 0,
        ops: if k >= 2 {
            seq![Operator::Concatenation]
        } else {
            Seq::empty()
        },
        ..initial_read_state()
    }
}

/// The calls that reading the plain characters `s` makes: a shift of each
/// character, each one from the third on after the concatenation of the
/// two before it is reduced.
pub open spec fn plain_read_calls(s: Seq<char>) -> Seq<ParseEvent>
    decreases s.len(),
{
    if s.len() == 0 {
        Seq::empty()
    } else {
        plain_read_calls(s.drop_last()) + ((if s.len() >= 3 {
            seq![ParseEvent::Reduce(Operator::Concatenation)]
        } else {
            Seq::<ParseEvent>::empty()
        }) + seq![ParseEvent::Shift(set![s.last() as u32])])
    }
}

proof fn lemma_one_concat()
    ensures
        concat_run(seq![Operator::Concatenation]) == 1,
        concat_strip(seq![Operator::Concatenation]) == Seq::<Operator>::empty(),
        reduce_events(seq![Operator::Concatenation], 1) == seq![ParseEvent::Reduce(Operator::Concatenation)],
{
    let ops = seq![Operator::Concatenation];
    assert(ops.drop_last() =~= Seq::<Operator>::empty());
    assert(concat_run(ops.drop_last()) == 0);
    assert(binds_tighter(Operator::Concatenation, Operator::Concatenation));
    assert(concat_run(ops) == 1);
    assert(concat_strip(ops) =~= Seq::<Operator>::empty());
    assert(reduce_events(ops.drop_last(), 0) == Seq::<ParseEvent>::empty());
    assert(reduce_events(ops, 1) =~= seq![ParseEvent::Reduce(Operator::Concatenation)]);
}

proof fn lemma_plain_read<T: Clone, P: Parser<T> + ?Sized>(p: &P, s: Seq<char>)
    requires
        forall|i: int| 0 <= i < s.len() ==> plain_char(#[trigger] s[i]),
        spec_run(p, s) is Ok,
    ensures
        spec_run(p, s)->Ok_0.0 == plain_state(s.len()),
        run_calls(p, s) == plain_read_calls(s),
    decreases s.len(),
{
    if s.len() > 0 {
        let prev = s.drop_last();
        assert forall|i: int| 0 <= i < prev.len() implies plain_char(#[trigger] prev[i]) by {
            assert(prev[i] == s[i]);
        }
        assert(plain_char(s[s.len() - 1]));
        lemma_plain_read(p, prev);
        let k = prev.len();
        let ops = plain_state(k).ops;
        let c = s.last();
        assert(spec_char_action(c, false, false, true) == (CharAction::Literal(c), false));
        if k >= 2 {
            lemma_one_concat();
        } else {
            assert(concat_run(ops) == 0);
            assert(reduce_events(ops, 0) =~= Seq::<ParseEvent>::empty());
            assert(concat_strip(ops) =~= Seq::<Operator>::empty());
        }
        assert(spec_run(p, s)->Ok_0.0 =~= plain_state(s.len()));
    }
}

/// Parsing a nonempty expression of plain characters, with actions that
/// do not fail, shifts each character in order and reduces a
/// concatenation between each two: a shift of the first, then for each
/// other character its shift (after the reduction of the concatenation
/// before it, from the third on), and last the reduction of the final
/// concatenation.
pub proof fn lemma_plain_parse_calls<T: Clone, P: Parser<T> + ?Sized>(p: &P, s: Seq<char>)
    requires
        s.len() > 0,
        forall|i: int| 0 <= i < s.len() ==> plain_char(#[trigger] s[i]),
        spec_run(p, s) is Ok,
    ensures
        parse_calls(p, s) == plain_read_calls(s) + if s.len() >= 2 {
            seq![ParseEvent::Reduce(Operator::Concatenation)]
        } else {
            Seq::<ParseEvent>::empty()
        },
{
    lemma_plain_read(p, s);
    let ops = plain_state(s.len()).ops;
    if s.len() >= 2 {
        lemma_one_concat();
    } else {
        assert(reduce_events(ops, 0) =~= Seq::<ParseEvent>::empty());
    }
}

/// How many shifts the calls `calls` hold.
pub open spec fn shift_count(calls: Seq<ParseEvent>) -> nat
    decreases calls.len(),
{
    if calls.len() == 0 {
        0
    } else {
        shift_count(calls.drop_last()) + if calls.last() is Shift {
            1nat
        } else {
            0nat
        }
    }
}

proof fn lemma_shift_count_concat(a: Seq<ParseEvent>, b: Seq<ParseEvent>)
    ensures
        shift_count(a + b) == shift_count(a) + shift_count(b),
    decreases b.len(),
{
    if b.len() > 0 {
        lemma_shift_count_concat(a, b.drop_last());
        assert((a + b).drop_last() =~= a + b.drop_last());
    } else {
        assert(a + b =~= a);
    }
}

proof fn lemma_shift_count_prefix(a: Seq<ParseEvent>, b: Seq<ParseEvent>)
    requires
        a.is_prefix_of(b),
    ensures
        shift_count(a) <= shift_count(b),
    decreases b.len(),
{
    if a.len() < b.len() {
        assert(a.is_prefix_of(b.drop_last())) by {
            assert forall|i: int| 0 <= i < a.len() implies a[i] == b.drop_last()[i] by {}
        }
        lemma_shift_count_prefix(a, b.drop_last());
    } else {
        assert(a =~= b);
    }
}

proof fn lemma_shift_count_one(e: ParseEvent)
    ensures
        shift_count(seq![e]) == if e is Shift {
            1nat
        } else {
            0nat
        },
{
    let one = seq![e];
    assert(one.drop_last() =~= Seq::<ParseEvent>::empty());
    assert(shift_count(Seq::<ParseEvent>::empty()) == 0);
    assert(one.last() == e);
}

proof fn lemma_reduce_events_no_shift(ops: Seq<Operator>, k: nat)
    ensures
        shift_count(reduce_events(ops, k)) == 0,
    decreases k,
{
    if k > 0 && ops.len() > 0 {
        lemma_reduce_events_no_shift(ops.drop_last(), (k - 1) as nat);
        let one = seq![ParseEvent::Reduce(ops.last())];
        lemma_shift_count_concat(one, reduce_events(ops.drop_last(), (k - 1) as nat));
        lemma_shift_count_one(ParseEvent::Reduce(ops.last()));
    } else {
        assert(reduce_events(ops, k) =~= Seq::<ParseEvent>::empty());
    }
}

proof fn lemma_step_calls_one_shift(st: ReadState, n: nat, counts: Seq<usize>, c: char)
    ensures
        shift_count(step_calls(st, n, counts, c)) <= 1,
{
    let pre = reduce_events(st.ops, concat_run(st.ops));
    lemma_reduce_events_no_shift(st.ops, concat_run(st.ops));
    lemma_reduce_events_no_shift(st.ops, paren_run(st.ops));
    assert forall|x: Set<u32>| #[trigger] shift_count(pre + seq![ParseEvent::Shift(x)]) == 1 by {
        lemma_shift_count_concat(pre, seq![ParseEvent::Shift(x)]);
        lemma_shift_count_one(ParseEvent::Shift(x));
    }
    lemma_shift_count_one(ParseEvent::Reduce(Operator::EmptyPlaceholder));
    let e = Seq::<ParseEvent>::empty();
    assert(shift_count(e) == 0);
    assert forall|ops: Seq<Operator>, op: Operator| #[trigger] shift_count(once_events(ops, op)) == 0 by {
        if ops.len() > 0 {
            lemma_shift_count_one(ParseEvent::Reduce(ops.last()));
        }
    }
}

proof fn lemma_run_shifts<T: Clone, P: Parser<T> + ?Sized>(p: &P, s: Seq<char>)
    ensures
        shift_count(run_calls(p, s)) <= s.len(),
    decreases s.len(),
{
    if s.len() > 0 {
        lemma_run_shifts(p, s.drop_last());
        if spec_run(p, s.drop_last()) is Ok {
            let (rd, stack, counts) = spec_run(p, s.drop_last())->Ok_0;
            lemma_step_calls_one_shift(rd, stack.len(), counts, s.last());
            lemma_shift_count_concat(run_calls(p, s.drop_last()), step_calls(rd, stack.len(), counts, s.last()));
        }
    }
}

/// Parsing `s` shifts at most once for each of its characters: the calls
/// it plans, and those it makes, hold at most `s.len()` shifts.
pub proof fn lemma_shifts_at_most_chars<T: Clone, P: Parser<T> + ?Sized>(p: &P, s: Seq<char>)
    ensures
        shift_count(parse_calls(p, s)) <= s.len(),
        shift_count(parse_made(p, s)) <= s.len(),
{
    lemma_run_shifts(p, s);
    if spec_run(p, s) is Ok {
        let (rd, stack, counts) = spec_run(p, s)->Ok_0;
        let ops = if s.len() == 0 {
            rd.ops.push(Operator::EmptyPlaceholder)
        } else {
            rd.ops
        };
        lemma_reduce_events_no_shift(ops, ops.len());
        lemma_shift_count_concat(run_calls(p, s), reduce_events(ops, ops.len()));
    }
    lemma_parse_made_prefix(p, s);
    lemma_shift_count_prefix(parse_made(p, s), parse_calls(p, s));
}

/// An entry of one of the items `items` is an entry of them all.
proof fn lemma_items_entries_include(g: Grammar, fo: FollowSets, items: Seq<Item>, j: int, e: (Option<usize>, LR1Action))
    requires
        0 <= j < items.len(),
        item_entries(g, fo, items[j]).contains(e),
    ensures
        items_entries(g, fo, items).contains(e),
    decreases items.len(),
{
    let p = items.drop_last();
    let a = items_entries(g, fo, p);
    let b = item_entries(g, fo, items.last());
    if j == items.len() - 1 {
        let q = choose|q: int| 0 <= q < b.len() && b[q] == e;
        assert((a + b)[a.len() + q] == e);
    } else {
        assert(p[j] == items[j]);
        lemma_items_entries_include(g, fo, p, j, e);
        let q = choose|q: int| 0 <= q < a.len() && a[q] == e;
        assert((a + b)[q] == e);
    }
}

/// In an SLR(1) table, each item `[A -> γ·]` of an LR(0) state, with `A`
/// not the start symbol and whether `γ` is empty or not, reduces by
/// `A -> γ` in that state on each terminal of FOLLOW(A), and on the
/// endmarker if FOLLOW(A) holds it; an item `[S -> γ·]` of the start
/// symbol `S` accepts on the endmarker.
pub proof fn lemma_slr_complete_item_reduces(g: Grammar, fo: FollowSets, st: Seq<LR0State>, start: usize, t: LR1Table, i: int, it: Item, a: usize)
    requires
        slr_result(g, fo, st, start, Ok(t)),
        0 <= i < st.len(),
        st[i].items@.contains(it),
        it.pos == g.body(it.lhs as int, it.rhs as int).len(),
    ensures
        it.lhs != g.start && fo.sets@[it.lhs as int].terminals@.contains(a) ==> t.states@[i].action_on(Some(a)) == Some(
            LR1Action::Reduce(it.lhs, it.rhs),
        ),
        it.lhs != g.start && fo.sets@[it.lhs as int].endmarker ==> t.states@[i].action_on(None) == Some(
            LR1Action::Reduce(it.lhs, it.rhs),
        ),
        it.lhs == g.start ==> t.states@[i].action_on(None) == Some(LR1Action::Accept),
{
    let s = t.states@[i];
    assert(slr_state_of(g, fo, st[i], s));
    let items = st[i].items@;
    let j = choose|j: int| 0 <= j < items.len() && items[j] == it;
    let ie = item_entries(g, fo, it);
    let red = LR1Action::Reduce(it.lhs, it.rhs);
    let e = state_entries(g, fo, st[i]);
    assert forall|x: (Option<usize>, LR1Action)| ie.contains(x) implies s.action_on(x.0) == Some(x.1) by {
        lemma_items_entries_include(g, fo, items, j, x);
        let sh = shift_entries(st[i].transitions@);
        let ae = items_entries(g, fo, items);
        let q = choose|q: int| 0 <= q < ae.len() && ae[q] == x;
        assert(e[sh.len() + q] == x);
        assert(e.contains(x));
    }
    if it.lhs != g.start {
        let ts = fo.sets@[it.lhs as int].terminals@;
        if ts.contains(a) {
            let q = choose|q: int| 0 <= q < ts.len() && ts[q] == a;
            let on_terms = Seq::new(ts.len(), |q2: int| (Some(ts[q2]), red));
            if fo.sets@[it.lhs as int].endmarker {
                assert(ie == on_terms.push((None::<usize>, red)));
                assert(ie[q] == (Some(a), red));
            } else {
                assert(ie[q] == (Some(a), red));
            }
            assert(ie.contains((Some(a), red)));
        }
        if fo.sets@[it.lhs as int].endmarker {
            assert(ie[ts.len() as int] == (None::<usize>, red));
            assert(ie.contains((None::<usize>, red)));
        }
    } else {
        assert(ie[0] == (None::<usize>, LR1Action::Accept));
        assert(ie.contains((None::<usize>, LR1Action::Accept)));
    }
}

/// In an LALR(1) table, each item `[A -> α·, a]` of the closure of a
/// state's kernel, with `A` not the start symbol and whether `α` is empty
/// or not, reduces by `A -> α` in that state on `a` (a terminal or the
/// endmarker); an item `[S -> α·, $]` of the start symbol `S` accepts on
/// the endmarker.
pub proof fn lemma_lalr_complete_item_reduces(g: Grammar, fs: FirstSets, trans: Seq<Seq<(Symbol, usize)>>, s: Set<(usize, (Item, LR1Lookahead))>, t: LR1Table, i: int, y: (Item, LR1Lookahead))
    requires
        lalr_result(g, fs, trans, s, Ok(t)),
        0 <= i < trans.len(),
        lalr_forced(g, fs, lalr_kernel(s, i), y),
        y.0.pos == g.body(y.0.lhs as int, y.0.rhs as int).len(),
    ensures
        y.0.lhs != g.start && y.1 is Terminal ==> t.states@[i].action_on(Some(y.1->Terminal_0)) == Some(
            LR1Action::Reduce(y.0.lhs, y.0.rhs),
        ),
        y.0.lhs != g.start && y.1 == LR1Lookahead::Endmarker ==> t.states@[i].action_on(None) == Some(
            LR1Action::Reduce(y.0.lhs, y.0.rhs),
        ),
        y.0.lhs == g.start && y.1 == LR1Lookahead::Endmarker ==> t.states@[i].action_on(None) == Some(LR1Action::Accept),
{
    let k = lalr_kernel(s, i);
    let st = t.states@[i];
    assert(crate::lalr::lalr_state_of(g, fs, trans[i], k, st));
    let red = LR1Action::Reduce(y.0.lhs, y.0.rhs);
    if y.0.lhs != g.start {
        if let LR1Lookahead::Terminal(a) = y.1 {
            assert(lalr_item_entry(g, y) == Some((Some(a), red)));
            assert(lalr_entry(g, fs, trans[i], k, Some(a), red));
        }
        if y.1 == LR1Lookahead::Endmarker {
            assert(lalr_item_entry(g, y) == Some((None::<usize>, red)));
            assert(lalr_entry(g, fs, trans[i], k, None, red));
        }
    } else if y.1 == LR1Lookahead::Endmarker {
        assert(lalr_item_entry(g, y) == Some((None::<usize>, LR1Action::Accept)));
        assert(lalr_entry(g, fs, trans[i], k, None, LR1Action::Accept));
    }
}

/// The code points of white space: the space and `\t` to `\r`.
pub open spec fn is_white_space(k: u32) -> bool {
    k == 0x20 || (0x09 <= k <= 0x0D)
}

/// The code points of a word character: a digit, a letter of the Latin
/// alphabet, or the underscore.
pub open spec fn is_word_char(k: u32) -> bool {
    (0x30 <= k <= 0x39) || (0x41 <= k <= 0x5A) || k == 0x5F || (0x61 <= k <= 0x7A)
}

/// The code points that the escape `\c` stands for: `\d` the digits,
/// `\w` the word characters, `\s` white space, `\n` the line feed, and
/// `\D`, `\W`, `\S` every other code point.
pub open spec fn escape_class(c: char) -> Set<u32> {
    Set::new(
        |k: u32|
            if c == 'd' {
                0x30 <= k <= 0x39
            } else if c == 'D' {
                k <= 0x10FFFF && !(0x30 <= k <= 0x39)
            } else if c == 'w' {
                is_word_char(k)
            } else if c == 'W' {
                k <= 0x10FFFF && !is_word_char(k)
            } else if c == 's' {
                is_white_space(k)
            } else if c == 'S' {
                k <= 0x10FFFF && !is_white_space(k)
            } else {
                k == 0x0A
            },
    )
}

/// Reading one of the escapes `\d \D \w \W \s \S \n` outside a class
/// shifts, after the reductions due, a class of exactly the code points
/// that the escape stands for; inside a class it adds those code points to
/// the class. So `\S` holds every code point that `\s` does not, and the
/// same for `\D` and `\W`.
pub proof fn lemma_escape_classes<T: Clone, P: Parser<T> + ?Sized>(p: &P, st: ReadState, stack: Seq<T>, counts: Seq<usize>, c: char)
    requires
        st.escaped,
        c == 'd' || c == 'D' || c == 'w' || c == 'W' || c == 's' || c == 'S' || c == 'n',
    ensures
        !st.in_class ==> step_calls(st, stack.len(), counts, c) == reduce_events(st.ops, concat_run(st.ops)) + seq![
            ParseEvent::Shift(escape_class(c)),
        ],
        !st.in_class ==> step_nodes(p, st, stack, counts, c) == with_counts(
            shift_operand(p, stack, st.ops, st.insert_concat, escape_class(c)),
            counts,
        ),
        st.in_class ==> spec_step(st, c) is Ok && spec_step(st, c)->Ok_0.class_set == st.class_set.union(
            ranges_set(pending_ranges(st.range_buf)),
        ).union(escape_class(c)),
        forall|k: u32| k <= 0x10FFFF ==> (escape_class('S').contains(k) <==> !escape_class('s').contains(k)),
        forall|k: u32| k <= 0x10FFFF ==> (escape_class('D').contains(k) <==> !escape_class('d').contains(k)),
        forall|k: u32| k <= 0x10FFFF ==> (escape_class('W').contains(k) <==> !escape_class('w').contains(k)),
{
    let class_empty = st.range_buf.0 is None && !st.class_nonempty;
    let kind = special_of(c)->Some_0;
    assert(special_of(c) is Some);
    assert(spec_char_action(c, st.escaped, st.in_class, class_empty) == (CharAction::Special(kind), false));
    assert(special_set(kind) =~= escape_class(c));
}

/// Parsing a primitive type reads each type of the lexer as the primitive
/// type of the same name, at the token's span: `u64` as `U64`, and so on;
/// no two of them are read alike, and none as unit.
pub proof fn lemma_primitive_types(toks: Seq<(Token, Span)>, pos: nat, declared: Seq<String>)
    requires
        pos < toks.len(),
        toks[pos as int].0 is Type,
    ensures
        ({
            let r = spec_parse_type(toks, pos, declared);
            let ty = toks[pos as int].0->Type_0;
            let span = toks[pos as int].1;
            &&& r.1 == pos + 1
            &&& r.2 == Seq::<ParseErrorView>::empty()
            &&& r.0 matches Ok(Type::Primitive(pt)) && pt.span == span && pt.kind == match ty {
                LexerType::Bool => PrimitiveTypeKind::Bool,
                LexerType::Char => PrimitiveTypeKind::Char,
                LexerType::I8 => PrimitiveTypeKind::I8,
                LexerType::I16 => PrimitiveTypeKind::I16,
                LexerType::I32 => PrimitiveTypeKind::I32,
                LexerType::I64 => PrimitiveTypeKind::I64,
                LexerType::I128 => PrimitiveTypeKind::I128,
                LexerType::U8 => PrimitiveTypeKind::U8,
                LexerType::U16 => PrimitiveTypeKind::U16,
                LexerType::U32 => PrimitiveTypeKind::U32,
                LexerType::U64 => PrimitiveTypeKind::U64,
                LexerType::F32 => PrimitiveTypeKind::F32,
                LexerType::F64 => PrimitiveTypeKind::F64,
            }
        }),
        forall|a: LexerType, b: LexerType, sa: Span, sb: Span| #[trigger] spec_from_lexer_type(a, sa).kind == #[trigger] spec_from_lexer_type(b, sb).kind ==> a == b,
        forall|a: LexerType, sa: Span| #[trigger] spec_from_lexer_type(a, sa).kind != PrimitiveTypeKind::Unit,
{
}

/// The span of a program runs from the start of its first item to the end
/// of its last, whatever the number of items; adding an item at the end
/// moves the end to that item's end and keeps the start.
pub proof fn lemma_program_span(p: Program, it: ProgramItem)
    ensures
        p.items@.len() > 0 ==> p.spec_span().start == p.items@[0].spec_span().start && p.spec_span().end == p.items@[p.items@.len() - 1].spec_span().end,
        p.items@.len() == 0 ==> p.spec_span() == (Span { start: 0, end: 0 }),
        forall|q: Program| #[trigger] q.items@ == p.items@.push(it) ==> q.spec_span().end == it.spec_span().end && (p.items@.len() > 0 ==> q.spec_span().start == p.spec_span().start),
{
    assert forall|q: Program| #[trigger] q.items@ == p.items@.push(it) implies q.spec_span().end == it.spec_span().end && (p.items@.len() > 0 ==> q.spec_span().start == p.spec_span().start) by {
        assert(q.items@[q.items@.len() - 1] == it);
        if p.items@.len() > 0 {
            assert(q.items@[0] == p.items@[0]);
        }
    }
}

proof fn lemma_shift_entries_include(tr: Seq<(Symbol, usize)>, k: int)
    requires
        0 <= k < tr.len(),
        tr[k].0 is Terminal,
    ensures
        shift_entries(tr).contains((Some(tr[k].0->Terminal_0), LR1Action::Shift(tr[k].1))),
    decreases tr.len(),
{
    let p = tr.drop_last();
    let e = (Some(tr[k].0->Terminal_0), LR1Action::Shift(tr[k].1));
    if k == tr.len() - 1 {
        let rest = shift_entries(p);
        assert(shift_entries(tr) == rest.push(e));
        assert(shift_entries(tr)[rest.len() as int] == e);
    } else {
        assert(p[k] == tr[k]);
        lemma_shift_entries_include(p, k);
        let rest = shift_entries(p);
        let q = choose|q: int| 0 <= q < rest.len() && rest[q] == e;
        match tr.last().0 {
            Symbol::Terminal(t) => {
                assert(shift_entries(tr)[q] == e);
            },
            Symbol::Nonterminal(_) => {
                assert(shift_entries(tr)[q] == e);
            },
        }
    }
}

/// In an SLR(1) table, each transition of an LR(0) state appears in that
/// state: a shift to its target on a terminal, a goto to its target on a
/// nonterminal.
pub proof fn lemma_slr_transitions_in_table(g: Grammar, fo: FollowSets, st: Seq<LR0State>, start: usize, t: LR1Table, i: int, k: int)
    requires
        slr_result(g, fo, st, start, Ok(t)),
        0 <= i < st.len(),
        0 <= k < st[i].transitions@.len(),
    ensures
        t.states@.len() == st.len(),
        match st[i].transitions@[k] {
            (Symbol::Terminal(a), d) => t.states@[i].action_on(Some(a)) == Some(LR1Action::Shift(d)),
            (Symbol::Nonterminal(m), d) => t.states@[i].goto@.contains_key(m) && t.states@[i].goto@[m] == d,
        },
{
    let s = t.states@[i];
    let tr = st[i].transitions@;
    assert(slr_state_of(g, fo, st[i], s));
    if tr[k].0 is Terminal {
        lemma_shift_entries_include(tr, k);
        let sh = shift_entries(tr);
        let e = (Some(tr[k].0->Terminal_0), LR1Action::Shift(tr[k].1));
        let q = choose|q: int| 0 <= q < sh.len() && sh[q] == e;
        assert(state_entries(g, fo, st[i])[q] == e);
        assert(state_entries(g, fo, st[i]).contains(e));
    } else {
        assert(crate::slr::goto_of(tr, s.goto@));
    }
}

/// Reading an unescaped character outside a class: `|` reduces what binds
/// tighter than a union and pushes a union, after which no concatenation is
/// due; `*`, `+` and `?` push a star, a plus and an optional, after which
/// a concatenation is due; `.` shifts a class of every code point but the
/// line feed; and an escaped character that names no class (such as
/// `\*` or `\\`) is shifted as itself.
pub proof fn lemma_reading_outside_classes(st: ReadState, n: nat, counts: Seq<usize>, c: char)
    requires
        !st.in_class,
    ensures
        !st.escaped && c == '|' ==> step_calls(st, n, counts, c) == once_events(st.ops, Operator::Union)
            && spec_step(st, c) is Ok && spec_step(st, c)->Ok_0.ops == after_once(st.ops, Operator::Union).push(Operator::Union)
            && !spec_step(st, c)->Ok_0.insert_concat,
        !st.escaped && c == '*' ==> spec_step(st, c) is Ok && spec_step(st, c)->Ok_0.ops == after_once(st.ops, Operator::KleeneStar).push(
            Operator::KleeneStar,
        ) && spec_step(st, c)->Ok_0.insert_concat,
        !st.escaped && c == '+' ==> spec_step(st, c) is Ok && spec_step(st, c)->Ok_0.ops == after_once(st.ops, Operator::Plus).push(
            Operator::Plus,
        ) && spec_step(st, c)->Ok_0.insert_concat,
        !st.escaped && c == '?' ==> spec_step(st, c) is Ok && spec_step(st, c)->Ok_0.ops == after_once(st.ops, Operator::Optional).push(
            Operator::Optional,
        ) && spec_step(st, c)->Ok_0.insert_concat,
        !st.escaped && c == '.' ==> step_calls(st, n, counts, c) == reduce_events(st.ops, concat_run(st.ops)) + seq![
            ParseEvent::Shift(Set::new(|k: u32| k <= 0x10FFFF && k != 0x0A)),
        ],
        st.escaped && !(c == 'd' || c == 'D' || c == 'w' || c == 'W' || c == 's' || c == 'S' || c == 'n')
            ==> step_calls(st, n, counts, c) == reduce_events(st.ops, concat_run(st.ops)) + seq![ParseEvent::Shift(set![c as u32])]
            && spec_step(st, c) is Ok && !spec_step(st, c)->Ok_0.escaped,
{
    assert(dot_set() =~= Set::new(|k: u32| k <= 0x10FFFF && k != 0x0A));
}

/// Parsing a type reads a name as the declared type of that name, at its
/// span, recording an error exactly when no declaration in scope has that
/// name; reads `(` `)` as unit at the span of `(`; and reads `[`, a type
/// and `]` as the array of that type with the spans of its brackets.
pub proof fn lemma_declared_unit_array_types(toks: Seq<(Token, Span)>, pos: nat, declared: Seq<String>)
    requires
        pos < toks.len(),
    ensures
        toks[pos as int].0 is Ident ==> {
            let r = spec_parse_type(toks, pos, declared);
            let name = toks[pos as int].0->Ident_0;
            &&& r.0 == Ok::<Type, ()>(Type::Declared { name, span: toks[pos as int].1 })
            &&& r.1 == pos + 1
            &&& (r.2.len() == 0 <==> exists|j: int| 0 <= j < declared.len() && (#[trigger] declared[j])@ == name@)
        },
        toks[pos as int].0 == Token::Reserved(Reserved::LParen) && pos + 1 < toks.len() && toks[pos + 1int].0 == Token::Reserved(
            Reserved::RParen,
        ) ==> spec_parse_type(toks, pos, declared) == (
            Ok::<Type, ()>(Type::Primitive(PrimitiveType { kind: PrimitiveTypeKind::Unit, span: toks[pos as int].1 })),
            pos + 2,
            Seq::<ParseErrorView>::empty(),
        ),
        toks[pos as int].0 == Token::Reserved(Reserved::LBracket) ==> {
            let inner = spec_parse_type(toks, pos + 1, declared);
            let q = inner.1;
            inner.0 is Ok && q < toks.len() && toks[q as int].0 == Token::Reserved(Reserved::RBracket) ==> spec_parse_type(toks, pos, declared) == (
                Ok::<Type, ()>(Type::Array { lbracket: toks[pos as int].1, ty: Box::new(inner.0->Ok_0), rbracket: toks[q as int].1 }),
                q + 1,
                inner.2,
            )
        },
{
    let r = spec_parse_type(toks, pos, declared);
    if toks[pos as int].0 == Token::Reserved(Reserved::LBracket) {
        let inner = spec_parse_type(toks, pos + 1, declared);
        assert(inner.2 + Seq::<ParseErrorView>::empty() =~= inner.2);
    }
    if toks[pos as int].0 is Ident {
        let name = toks[pos as int].0->Ident_0;
        if !crate::ty::declared_has(declared, name) {
            assert(r.2 == seq![ParseErrorView::UndeclaredType { name, span: toks[pos as int].1 }]);
        }
    }
}

/// In an LALR(1) table, a reduction by production `r` of `a` on a
/// symbol in a state comes from an item `[a -> α·, b]` of the closure of
/// that state's kernel, `a` not the start symbol, whose lookahead `b` is
/// that symbol; an accept comes from an item `[S -> α·, $]` of the start
/// symbol.
pub proof fn lemma_lalr_actions_come_from_items(g: Grammar, fs: FirstSets, trans: Seq<Seq<(Symbol, usize)>>, s: Set<(usize, (Item, LR1Lookahead))>, t: LR1Table, i: int, sy: Option<usize>, act: LR1Action)
    requires
        lalr_result(g, fs, trans, s, Ok(t)),
        0 <= i < trans.len(),
        t.states@[i].action_on(sy) == Some(act),
        act is Reduce || act is Accept,
    ensures
        exists|y: (Item, LR1Lookahead)|
            #[trigger] lalr_forced(g, fs, lalr_kernel(s, i), y) && y.0.pos == g.body(y.0.lhs as int, y.0.rhs as int).len() && (match act {
                LR1Action::Reduce(a, r) => y.0.lhs == a && y.0.rhs == r && a != g.start && (match sy {
                    Some(x) => y.1 == LR1Lookahead::Terminal(x),
                    None => y.1 == LR1Lookahead::Endmarker,
                }),
                _ => y.0.lhs == g.start && y.1 == LR1Lookahead::Endmarker && sy is None,
            }),
{
    let k = lalr_kernel(s, i);
    assert(crate::lalr::lalr_state_of(g, fs, trans[i], k, t.states@[i]));
    assert(lalr_entry(g, fs, trans[i], k, sy, act));
    let y = choose|y: (Item, LR1Lookahead)| lalr_forced(g, fs, k, y) && #[trigger] lalr_item_entry(g, y) == Some((sy, act));
    assert(lalr_forced(g, fs, k, y));
}

/// How tightly an operator binds: the postfix operators most, then
/// concatenation, then union; a parenthesis or placeholder not at all.
pub open spec fn precedence(o: Operator) -> int {
    match o {
        Operator::Union => 1,
        Operator::Concatenation => 2,
        Operator::KleeneStar | Operator::Plus | Operator::Optional => 3,
        _ => 0,
    }
}

/// Before a union or a concatenation is pushed, the operator on top is
/// reduced exactly when it binds at least as tightly (so `ab|c` reduces the
/// concatenation, and `a|bc` does not reduce the union); before a postfix
/// operator, only the same operator is reduced; before a left parenthesis,
/// only a postfix operator.
pub proof fn lemma_precedence(ops: Seq<Operator>, last: Operator, op: Operator)
    ensures
        (op == Operator::Union || op == Operator::Concatenation) ==> (reduces_once(ops.push(last), op) <==> precedence(last)
            >= precedence(op)),
        (op == Operator::KleeneStar || op == Operator::Plus || op == Operator::Optional) ==> (reduces_once(ops.push(last), op)
            <==> last == op),
        op == Operator::LeftParen ==> (reduces_once(ops.push(last), op) <==> precedence(last) == 3),
        !reduces_once(Seq::empty(), op),
{
    assert(ops.push(last).last() == last);
}

/// The LR(0) closure of `k` holds, for each of its items `[A -> α·Bβ]`,
/// the item `[B -> ·γ]` of every production of `B`; and every item it adds
/// to `k` has its dot at the left end.
pub proof fn lemma_lr0_closure_adds_productions(g: Grammar, k: Set<Item>, s: Set<Item>, it: Item, b: usize, r: usize, x: Item)
    requires
        is_closure0(g, k, s),
    ensures
        s.contains(it) && it.spec_next_symbol(g) == Some(Symbol::Nonterminal(b)) && g.has_prod(b as int, r as int) ==> s.contains(
            Item { lhs: b, rhs: r, pos: 0 },
        ),
        s.contains(x) && !k.contains(x) ==> x.pos == 0,
{
    if s.contains(it) && it.spec_next_symbol(g) == Some(Symbol::Nonterminal(b)) && g.has_prod(b as int, r as int) {
        assert(crate::lr0::closure_adds0(g, it, Item { lhs: b, rhs: r, pos: 0 }));
    }
    if s.contains(x) && !k.contains(x) {
        let t = s.filter(|y: Item| k.contains(y) || y.pos == 0);
        assert(k.subset_of(t));
        assert forall|y: Item, z: Item| t.contains(y) && #[trigger] crate::lr0::closure_adds0(g, y, z) implies t.contains(z) by {
            assert(s.contains(y));
            assert(s.contains(z));
        }
        assert(crate::lr0::lr0_closed(g, t));
        assert(s.subset_of(t));
        assert(t.contains(x));
    }
}

/// The kernel of GOTO(s, X) holds `[A -> αX·β]` for each item `[A -> α·Xβ]`
/// of `s`, and nothing else.
pub proof fn lemma_goto_advances(g: Grammar, s: Set<Item>, x: Symbol, it: Item, y: Item)
    ensures
        s.contains(it) && it.spec_next_symbol(g) == Some(x) && it.pos < usize::MAX ==> goto0(g, s, x).contains(
            Item { lhs: it.lhs, rhs: it.rhs, pos: (it.pos + 1) as usize },
        ),
        goto0(g, s, x).contains(y) ==> y.pos > 0 && s.contains(Item { lhs: y.lhs, rhs: y.rhs, pos: (y.pos - 1) as usize })
            && (Item { lhs: y.lhs, rhs: y.rhs, pos: (y.pos - 1) as usize }).spec_next_symbol(g) == Some(x),
{
    if s.contains(it) && it.spec_next_symbol(g) == Some(x) && it.pos < usize::MAX {
        let a = Item { lhs: it.lhs, rhs: it.rhs, pos: (it.pos + 1) as usize };
        assert(it.pos < g.body(it.lhs as int, it.rhs as int).len());
        assert(Item { pos: (a.pos - 1) as usize, ..a } == it);
        assert(goto0(g, s, x).contains(a));
    }
    if goto0(g, s, x).contains(y) {
        assert(Item { pos: (y.pos - 1) as usize, ..y } == Item { lhs: y.lhs, rhs: y.rhs, pos: (y.pos - 1) as usize });
    }
}

/// A conflict names the two actions that meet on a symbol: a shift and a
/// reduction, in either order, make a shift-reduce conflict with the
/// shift's symbol and target and the reduction's production; two
/// reductions make a reduce-reduce conflict with the earlier one first;
/// an accept or two shifts make none.
pub proof fn lemma_conflicts_name_both_actions(a1: LR1Action, a2: LR1Action, sy: Option<usize>)
    ensures
        a1 is Reduce && a2 is Shift ==> spec_determine_conflict(a1, a2, sy) == Some(
            LRConflict::ShiftReduce { shift: (sy, a2->Shift_0), reduce: (a1->Reduce_0, a1->Reduce_1) },
        ),
        a1 is Shift && a2 is Reduce ==> spec_determine_conflict(a1, a2, sy) == Some(
            LRConflict::ShiftReduce { shift: (sy, a1->Shift_0), reduce: (a2->Reduce_0, a2->Reduce_1) },
        ),
        a1 is Reduce && a2 is Reduce ==> spec_determine_conflict(a1, a2, sy) == Some(
            LRConflict::ReduceReduce { r1: (a1->Reduce_0, a1->Reduce_1), r2: (a2->Reduce_0, a2->Reduce_1) },
        ),
        a1 is Accept || a2 is Accept || (a1 is Shift && a2 is Shift) ==> spec_determine_conflict(a1, a2, sy) is None,
{
}

} // verus!
