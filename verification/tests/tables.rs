use parsekit::grammar::{Grammar, GrammarError, Rhs, Symbol};
use parsekit::lalr::LR1Lookahead;
use parsekit::lr0::Item;
use parsekit::lr1::{LR1Action, LR1Item, LR1ItemSet, LR1State, LRConflict};

fn nt(n: usize) -> Symbol {
    Symbol::Nonterminal(n)
}

fn tt(t: usize) -> Symbol {
    Symbol::Terminal(t)
}

// The pointer grammar: E -> S;  S -> L = R | R;  L -> * R | id;  R -> L
const E: usize = 0;
const S: usize = 1;
const L: usize = 2;
const R: usize = 3;
const EQU: usize = 0;
const DEREF: usize = 1;
const ID: usize = 2;

fn pointer_grammar() -> Grammar {
    let mut rules = vec![Vec::new(), Vec::new(), Vec::new(), Vec::new()];
    rules[E] = vec![Rhs::noop(vec![nt(S)])];
    rules[S] = vec![Rhs::noop(vec![nt(L), tt(EQU), nt(R)]), Rhs::noop(vec![nt(R)])];
    rules[L] = vec![Rhs::noop(vec![tt(DEREF), nt(R)]), Rhs::noop(vec![tt(ID)])];
    rules[R] = vec![Rhs::noop(vec![nt(L)])];
    Grammar::new(E, rules).unwrap()
}

// The expression grammar: X -> A;  A -> A + T | T;  T -> T * F | F;  F -> ( A ) | id
const X: usize = 0;
const A: usize = 1;
const T: usize = 2;
const F: usize = 3;
const PLUS: usize = 0;
const TIMES: usize = 1;
const LP: usize = 2;
const RP: usize = 3;
const IDT: usize = 4;

fn expression_grammar() -> Grammar {
    let mut rules = vec![Vec::new(), Vec::new(), Vec::new(), Vec::new()];
    rules[X] = vec![Rhs::noop(vec![nt(A)])];
    rules[A] = vec![Rhs::noop(vec![nt(A), tt(PLUS), nt(T)]), Rhs::noop(vec![nt(T)])];
    rules[T] = vec![Rhs::noop(vec![nt(T), tt(TIMES), nt(F)]), Rhs::noop(vec![nt(F)])];
    rules[F] = vec![Rhs::noop(vec![tt(LP), nt(A), tt(RP)]), Rhs::noop(vec![tt(IDT)])];
    Grammar::new(X, rules).unwrap()
}

fn sorted(v: &[usize]) -> Vec<usize> {
    let mut w = v.to_vec();
    w.sort();
    w
}

#[test]
fn grammar_new_accepts_defined_rules() {
    let g = pointer_grammar();
    assert_eq!(g.start, E);
    assert_eq!(g.rules.len(), 4);
}

#[test]
fn grammar_new_rejects_undefined_start() {
    let rules = vec![vec![Rhs::noop(vec![tt(0)])]];
    assert!(matches!(Grammar::new(3, rules), Err(GrammarError::UndefinedStart)));
}

#[test]
fn grammar_new_rejects_undefined_nonterminal() {
    let rules = vec![vec![Rhs::noop(vec![tt(0), nt(7)])]];
    assert!(matches!(Grammar::new(0, rules), Err(GrammarError::UndefinedNonterminal(7))));
    // The first undefined nonterminal, in the order of the rules, is reported.
    let rules = vec![vec![Rhs::noop(vec![nt(1)])], vec![Rhs::noop(vec![tt(0)]), Rhs::noop(vec![nt(9), nt(8)])]];
    assert!(matches!(Grammar::new(0, rules), Err(GrammarError::UndefinedNonterminal(9))));
}

#[test]
fn first_sets_of_pointer_grammar() {
    let g = pointer_grammar();
    let fs = g.first_sets();
    for n in [E, S, L, R] {
        assert_eq!(sorted(&fs.sets[n].terminals), vec![DEREF, ID]);
        assert!(!fs.sets[n].nullable);
    }
}

#[test]
fn first_sets_with_empty_production() {
    // S -> A b;  A -> a | (empty)
    let mut rules = vec![Vec::new(), Vec::new()];
    rules[0] = vec![Rhs::noop(vec![nt(1), tt(1)])];
    rules[1] = vec![Rhs::noop(vec![tt(0)]), Rhs::noop(vec![])];
    let g = Grammar::new(0, rules).unwrap();
    let fs = g.first_sets();
    assert_eq!(sorted(&fs.sets[0].terminals), vec![0, 1]);
    assert!(!fs.sets[0].nullable);
    assert_eq!(sorted(&fs.sets[1].terminals), vec![0]);
    assert!(fs.sets[1].nullable);
}

#[test]
fn follow_sets_of_pointer_grammar() {
    let g = pointer_grammar();
    let fs = g.first_sets();
    let fo = g.follow_sets(&fs);
    assert!(fo.sets[E].terminals.is_empty());
    assert!(fo.sets[E].endmarker);
    assert!(fo.sets[S].terminals.is_empty());
    assert!(fo.sets[S].endmarker);
    assert_eq!(sorted(&fo.sets[L].terminals), vec![EQU]);
    assert!(fo.sets[L].endmarker);
    assert_eq!(sorted(&fo.sets[R].terminals), vec![EQU]);
    assert!(fo.sets[R].endmarker);
}

#[test]
fn follow_sets_of_expression_grammar() {
    let g = expression_grammar();
    let fo = g.follow_sets(&g.first_sets());
    assert_eq!(sorted(&fo.sets[A].terminals), vec![PLUS, RP]);
    assert_eq!(sorted(&fo.sets[T].terminals), vec![PLUS, TIMES, RP]);
    assert_eq!(sorted(&fo.sets[F].terminals), vec![PLUS, TIMES, RP]);
    for n in [X, A, T, F] {
        assert!(fo.sets[n].endmarker);
    }
}

#[test]
fn lr0_automaton_of_pointer_grammar() {
    let g = pointer_grammar();
    let a = g.lr0_automaton();
    assert_eq!(a.start, 0);
    assert_eq!(a.states.len(), 10);
    // State 0 is the closure of the start item: six items.
    assert_eq!(a.states[0].items.len(), 6);
    // It has transitions on S, L, R, * and id.
    assert_eq!(a.states[0].transitions.len(), 5);
}

#[test]
fn lr0_automaton_of_expression_grammar() {
    let g = expression_grammar();
    let a = g.lr0_automaton();
    assert_eq!(a.states.len(), 12);
}

#[test]
fn lr0_closure_adds_productions_of_the_nonterminal_after_the_dot() {
    let g = pointer_grammar();
    let mut items = vec![Item { lhs: E, rhs: 0, pos: 0 }];
    g.lr0_closure(&mut items);
    assert_eq!(items.len(), 6);
    assert!(items.contains(&Item { lhs: R, rhs: 0, pos: 0 }));
    // Closing again adds nothing.
    let before = items.clone();
    g.lr0_closure(&mut items);
    assert_eq!(items, before);
}

#[test]
fn slr1_table_reports_shift_reduce_conflict() {
    let g = pointer_grammar();
    match g.slr1_table() {
        Err(LRConflict::ShiftReduce { shift, reduce }) => {
            assert_eq!(shift.0, Some(EQU));
            assert_eq!(reduce, (R, 0));
        }
        other => panic!("expected a shift-reduce conflict, got {:?}", other),
    }
}

#[test]
fn slr1_table_of_expression_grammar() {
    let g = expression_grammar();
    let table = g.slr1_table().unwrap();
    assert_eq!(table.initial, 0);
    assert_eq!(table.states.len(), 12);
    let s0 = &table.states[0];
    let mut on: Vec<usize> = s0.actions.keys().cloned().collect();
    on.sort();
    assert_eq!(on, vec![LP, IDT]);
    assert!(matches!(s0.actions[&LP], LR1Action::Shift(_)));
    assert!(s0.endmarker.is_none());
    let mut gotos: Vec<usize> = s0.goto.keys().cloned().collect();
    gotos.sort();
    assert_eq!(gotos, vec![A, T, F]);
    let accepting = table.states.iter().filter(|s| matches!(s.endmarker, Some(LR1Action::Accept))).count();
    assert_eq!(accepting, 1);
    // The state reached on id reduces F -> id on each terminal of FOLLOW(F) and the endmarker.
    let dest = match s0.actions[&IDT] {
        LR1Action::Shift(d) => d,
        _ => unreachable!(),
    };
    let sid = &table.states[dest];
    for t in [PLUS, TIMES, RP] {
        assert_eq!(sid.actions[&t], LR1Action::Reduce(F, 1));
    }
    assert_eq!(sid.endmarker, Some(LR1Action::Reduce(F, 1)));
}

#[test]
fn slr1_table_reports_reduce_reduce_conflict() {
    // S -> A | B;  A -> a;  B -> a
    let mut rules = vec![Vec::new(), Vec::new(), Vec::new()];
    rules[0] = vec![Rhs::noop(vec![nt(1)]), Rhs::noop(vec![nt(2)])];
    rules[1] = vec![Rhs::noop(vec![tt(0)])];
    rules[2] = vec![Rhs::noop(vec![tt(0)])];
    let g = Grammar::new(0, rules).unwrap();
    match g.slr1_table() {
        Err(LRConflict::ReduceReduce { r1, r2 }) => {
            assert_eq!(r1, (1, 0));
            assert_eq!(r2, (2, 0));
        }
        other => panic!("expected a reduce-reduce conflict, got {:?}", other),
    }
}

#[test]
fn lalr1_table_of_pointer_grammar() {
    // Not SLR(1), but LALR(1): the state reached on L shifts on = and
    // reduces R -> L on the endmarker alone.
    let g = pointer_grammar();
    let table = g.lalr1_table().unwrap();
    assert_eq!(table.initial, 0);
    assert_eq!(table.states.len(), g.lr0_automaton().states.len());
    assert_eq!(table.states.len(), 10);
    let s0 = &table.states[0];
    let on_l = s0.goto[&L];
    let sl = &table.states[on_l];
    assert!(matches!(sl.actions[&EQU], LR1Action::Shift(_)));
    assert_eq!(sl.actions.len(), 1);
    assert_eq!(sl.endmarker, Some(LR1Action::Reduce(R, 0)));
    let accepting = table.states.iter().filter(|s| matches!(s.endmarker, Some(LR1Action::Accept))).count();
    assert_eq!(accepting, 1);
    let on_s = s0.goto[&S];
    assert_eq!(table.states[on_s].endmarker, Some(LR1Action::Accept));
    // The state reached on id reduces L -> id on = and on the endmarker.
    let dest = match s0.actions[&ID] {
        LR1Action::Shift(d) => d,
        _ => unreachable!(),
    };
    let sid = &table.states[dest];
    assert_eq!(sid.actions[&EQU], LR1Action::Reduce(L, 1));
    assert_eq!(sid.endmarker, Some(LR1Action::Reduce(L, 1)));
    assert!(sid.actions.get(&DEREF).is_none());
}

#[test]
fn lalr1_table_of_expression_grammar() {
    let g = expression_grammar();
    let table = g.lalr1_table().unwrap();
    assert_eq!(table.initial, 0);
    assert_eq!(table.states.len(), 12);
    let s0 = &table.states[0];
    let mut on: Vec<usize> = s0.actions.keys().cloned().collect();
    on.sort();
    assert_eq!(on, vec![LP, IDT]);
    let dest = match s0.actions[&IDT] {
        LR1Action::Shift(d) => d,
        _ => unreachable!(),
    };
    let sid = &table.states[dest];
    for t in [PLUS, TIMES, RP] {
        assert_eq!(sid.actions[&t], LR1Action::Reduce(F, 1));
    }
    assert_eq!(sid.endmarker, Some(LR1Action::Reduce(F, 1)));
    // The state reached on A accepts on the endmarker and shifts on +.
    let sa = &table.states[s0.goto[&A]];
    assert_eq!(sa.endmarker, Some(LR1Action::Accept));
    assert!(matches!(sa.actions[&PLUS], LR1Action::Shift(_)));
}

#[test]
fn lalr1_table_reports_reduce_reduce_conflict_of_merged_states() {
    // Z -> S;  S -> a A d | b B d | a B e | b A e;  A -> c;  B -> c
    // (LR(1), but merging the two states reached on c gives a conflict).
    let (a, b, c, d, e) = (0, 1, 2, 3, 4);
    let mut rules = vec![Vec::new(), Vec::new(), Vec::new(), Vec::new()];
    rules[0] = vec![Rhs::noop(vec![nt(1)])];
    rules[1] = vec![
        Rhs::noop(vec![tt(a), nt(2), tt(d)]),
        Rhs::noop(vec![tt(b), nt(3), tt(d)]),
        Rhs::noop(vec![tt(a), nt(3), tt(e)]),
        Rhs::noop(vec![tt(b), nt(2), tt(e)]),
    ];
    rules[2] = vec![Rhs::noop(vec![tt(c)])];
    rules[3] = vec![Rhs::noop(vec![tt(c)])];
    let g = Grammar::new(0, rules).unwrap();
    match g.lalr1_table() {
        Err(LRConflict::ReduceReduce { r1, r2 }) => {
            let mut both = vec![r1, r2];
            both.sort();
            assert_eq!(both, vec![(2, 0), (3, 0)]);
        }
        other => panic!("expected a reduce-reduce conflict, got {:?}", other),
    }
}

#[test]
fn lalr1_table_without_conflict_where_slr1_has_one() {
    let g = pointer_grammar();
    assert!(g.slr1_table().is_err());
    assert!(g.lalr1_table().is_ok());
}

#[test]
fn lalr1_closure_of_start_item() {
    let g = pointer_grammar();
    let mut set = vec![(Item { lhs: E, rhs: 0, pos: 0 }, LR1Lookahead::NonSymbol)];
    g.lalr1_closure(&mut set, &g.first_sets());
    assert_eq!(set.len(), 8);
    assert!(set.contains(&(Item { lhs: L, rhs: 1, pos: 0 }, LR1Lookahead::Terminal(EQU))));
    assert!(set.contains(&(Item { lhs: L, rhs: 1, pos: 0 }, LR1Lookahead::NonSymbol)));
    assert!(set.contains(&(Item { lhs: R, rhs: 0, pos: 0 }, LR1Lookahead::NonSymbol)));
}

#[test]
fn lr1_closure_is_idempotent() {
    let g = pointer_grammar();
    let fs = g.first_sets();
    let mut set = LR1ItemSet::new();
    set.insert(LR1Item { lhs: E, rhs: 0, pos: 0, lookahead: None });
    g.lr1_closure(&mut set, &fs);
    let once = set.items.clone();
    g.lr1_closure(&mut set, &fs);
    assert_eq!(set.items, once);
}

#[test]
fn lr1_goto_on_l() {
    let g = pointer_grammar();
    let fs = g.first_sets();
    let mut set = LR1ItemSet::new();
    set.insert(LR1Item { lhs: E, rhs: 0, pos: 0, lookahead: None });
    g.lr1_closure(&mut set, &fs);
    let j = g.lr1_goto(&set, &nt(L), &fs);
    assert_eq!(j.len(), 2);
    assert!(j.contains(&LR1Item { lhs: S, rhs: 0, pos: 1, lookahead: None }));
    assert!(j.contains(&LR1Item { lhs: R, rhs: 0, pos: 1, lookahead: None }));
    // GOTO on * closes the moved item: L -> *·R and the items R, L bring.
    let k = g.lr1_goto(&set, &tt(DEREF), &fs);
    assert!(k.contains(&LR1Item { lhs: L, rhs: 0, pos: 1, lookahead: Some(EQU) }));
    assert!(k.contains(&LR1Item { lhs: R, rhs: 0, pos: 0, lookahead: None }));
}

#[test]
fn item_next_symbol() {
    let g = pointer_grammar();
    let it = LR1Item { lhs: S, rhs: 0, pos: 1, lookahead: None };
    assert_eq!(it.next_symbol(&g), Some(tt(EQU)));
    let end = LR1Item { lhs: S, rhs: 0, pos: 3, lookahead: None };
    assert_eq!(end.next_symbol(&g), None);
    assert_eq!(Item { lhs: L, rhs: 0, pos: 1 }.next_symbol(&g), Some(nt(R)));
}

#[test]
fn item_set_operations() {
    let mut a = LR1ItemSet::new();
    assert!(a.is_empty());
    let x = LR1Item { lhs: 0, rhs: 0, pos: 0, lookahead: None };
    let y = LR1Item { lhs: 1, rhs: 0, pos: 1, lookahead: Some(2) };
    assert!(a.insert(x));
    assert!(!a.insert(x));
    assert_eq!(a.len(), 1);
    let mut b = LR1ItemSet::new();
    b.insert(x);
    b.insert(y);
    a.append(&mut b);
    assert!(b.is_empty());
    assert_eq!(a.len(), 2);
    let all: Vec<LR1Item> = a.iter().cloned().collect();
    assert_eq!(all, vec![x, y]);
    let c = LR1ItemSet::from_items(vec![y, x, y]);
    assert_eq!(c.len(), 2);
    assert_eq!(c.into_items(), vec![x, y]);
    // The items come out in increasing order, whatever the order of insertion.
    let mut d = LR1ItemSet::new();
    let late = LR1Item { lhs: 1, rhs: 0, pos: 0, lookahead: Some(0) };
    let early = LR1Item { lhs: 0, rhs: 2, pos: 1, lookahead: None };
    let mid = LR1Item { lhs: 0, rhs: 2, pos: 1, lookahead: Some(5) };
    d.insert(late);
    d.insert(mid);
    d.insert(early);
    let order: Vec<LR1Item> = d.iter().cloned().collect();
    assert_eq!(order, vec![early, mid, late]);
}

#[test]
fn set_action_sets_then_reports_conflicts() {
    let mut s = LR1State::new();
    assert!(s.set_action(Some(1), LR1Action::Shift(3)).is_ok());
    assert_eq!(s.action(Some(1)), Some(LR1Action::Shift(3)));
    match s.set_action(Some(1), LR1Action::Reduce(2, 0)) {
        Err(LRConflict::ShiftReduce { shift, reduce }) => {
            assert_eq!(shift, (Some(1), 3));
            assert_eq!(reduce, (2, 0));
        }
        other => panic!("unexpected {:?}", other),
    }
    // The conflicting action was not set.
    assert_eq!(s.action(Some(1)), Some(LR1Action::Shift(3)));

    assert!(s.set_action(None, LR1Action::Reduce(1, 0)).is_ok());
    match s.set_action(None, LR1Action::Reduce(2, 1)) {
        Err(LRConflict::ReduceReduce { r1, r2 }) => {
            assert_eq!(r1, (1, 0));
            assert_eq!(r2, (2, 1));
        }
        other => panic!("unexpected {:?}", other),
    }
    match s.set_action(None, LR1Action::Shift(4)) {
        Err(LRConflict::ShiftReduce { shift, reduce }) => {
            assert_eq!(shift, (None, 4));
            assert_eq!(reduce, (1, 0));
        }
        other => panic!("unexpected {:?}", other),
    }
}

#[test]
fn determine_conflict_has_none_for_accept_or_two_shifts() {
    assert!(LR1State::determine_conflict(&LR1Action::Accept, &LR1Action::Shift(1), None).is_none());
    assert!(LR1State::determine_conflict(&LR1Action::Reduce(0, 0), &LR1Action::Accept, None).is_none());
    assert!(LR1State::determine_conflict(&LR1Action::Shift(1), &LR1Action::Shift(2), Some(0)).is_none());
}

#[test]
fn set_goto_records_transition() {
    let mut s = LR1State::new();
    s.set_goto(2, 5);
    assert_eq!(s.goto.get(&2), Some(&5));
}

#[test]
fn slr1_shifts_and_gotos_follow_lr0_transitions() {
    let g = expression_grammar();
    let lr0 = g.lr0_automaton();
    let table = g.slr1_table().unwrap();
    assert_eq!(lr0.states.len(), table.states.len());
    for (i, s) in table.states.iter().enumerate() {
        let items = &lr0.states[i].items;
        let moved = |x: Symbol| -> Vec<Item> {
            items
                .iter()
                .filter(|it| it.next_symbol(&g) == Some(x))
                .map(|it| Item { lhs: it.lhs, rhs: it.rhs, pos: it.pos + 1 })
                .collect()
        };
        for (t, a) in s.actions.iter() {
            match a {
                LR1Action::Shift(d) => {
                    for it in moved(tt(*t)) {
                        assert!(lr0.states[*d].items.contains(&it));
                    }
                }
                LR1Action::Reduce(n, r) => {
                    let len = g.rules[*n][*r].body.len();
                    assert!(items.contains(&Item { lhs: *n, rhs: *r, pos: len }));
                }
                LR1Action::Accept => panic!("accept on a terminal"),
            }
        }
        for (m, d) in s.goto.iter() {
            let k = moved(nt(*m));
            assert!(!k.is_empty());
            for it in k {
                assert!(lr0.states[*d].items.contains(&it));
            }
        }
    }
}

#[test]
fn first_and_follow_sets_are_determined() {
    let g = expression_grammar();
    let a = g.first_sets();
    let b = g.first_sets();
    for n in 0..4 {
        assert_eq!(sorted(&a.sets[n].terminals), sorted(&b.sets[n].terminals));
        assert_eq!(sorted(&a.sets[n].terminals), vec![LP, IDT]);
    }
    let fo = g.follow_sets(&a);
    assert!(fo.sets[X].endmarker);
}

#[test]
fn slr1_table_from_automaton_and_follow_sets() {
    let g = pointer_grammar();
    let lr0 = g.lr0_automaton();
    let fo = g.follow_sets(&g.first_sets());
    assert!(matches!(g.slr1_table_from(&lr0, &fo), Some(Err(LRConflict::ShiftReduce { .. }))));

    let g = expression_grammar();
    let lr0 = g.lr0_automaton();
    let fo = g.follow_sets(&g.first_sets());
    match g.slr1_table_from(&lr0, &fo) {
        Some(Ok(t)) => assert_eq!(t.states.len(), 12),
        other => panic!("unexpected {:?}", other),
    }
}

#[test]
fn slr1_table_from_reports_accept_meeting_a_reduction() {
    // X -> S;  S -> A | b;  A -> S
    let mut rules = vec![Vec::new(), Vec::new(), Vec::new()];
    rules[0] = vec![Rhs::noop(vec![nt(1)])];
    rules[1] = vec![Rhs::noop(vec![nt(2)]), Rhs::noop(vec![tt(0)])];
    rules[2] = vec![Rhs::noop(vec![nt(1)])];
    let g = Grammar::new(0, rules).unwrap();
    let lr0 = g.lr0_automaton();
    let fo = g.follow_sets(&g.first_sets());
    assert!(g.slr1_table_from(&lr0, &fo).is_none());
}

fn accept_meets_reduction_grammar() -> Grammar {
    // X -> S;  S -> A | b;  A -> S
    let mut rules = vec![Vec::new(), Vec::new(), Vec::new()];
    rules[0] = vec![Rhs::noop(vec![nt(1)])];
    rules[1] = vec![Rhs::noop(vec![nt(2)]), Rhs::noop(vec![tt(0)])];
    rules[2] = vec![Rhs::noop(vec![nt(1)])];
    Grammar::new(0, rules).unwrap()
}

#[test]
fn try_tables_give_none_where_accept_meets_a_reduction() {
    let g = accept_meets_reduction_grammar();
    assert!(g.try_slr1_table().is_none());
    assert!(g.try_lalr1_table().is_none());
}

#[test]
fn try_tables_agree_with_the_tables() {
    let g = expression_grammar();
    let t = g.try_lalr1_table().unwrap().unwrap();
    assert_eq!(t.states.len(), g.lalr1_table().unwrap().states.len());
    let s = g.try_slr1_table().unwrap().unwrap();
    assert_eq!(s.states.len(), 12);
    let p = pointer_grammar();
    assert!(matches!(p.try_slr1_table(), Some(Err(LRConflict::ShiftReduce { .. }))));
    assert!(matches!(p.try_lalr1_table(), Some(Ok(_))));
}
