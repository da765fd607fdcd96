use parsekit::grammar::{Grammar, Rhs, Symbol};
use parsekit::lr1::{LR1Item, LR1ItemSet};

// Nonterminals.
const E: usize = 0;
const S: usize = 1;
const L: usize = 2;
const R: usize = 3;

// Terminals.
const EQU: usize = 0;
const DEREF: usize = 1;
const ID: usize = 2;

fn nt(n: usize) -> Symbol {
    Symbol::Nonterminal(n)
}

fn tt(t: usize) -> Symbol {
    Symbol::Terminal(t)
}

/// E -> S;  S -> L = R | R;  L -> * R | id;  R -> L
fn pointer_grammar() -> Grammar {
    let mut rules = vec![Vec::new(), Vec::new(), Vec::new(), Vec::new()];
    rules[E] = vec![Rhs::noop(vec![nt(S)])];
    rules[S] = vec![Rhs::noop(vec![nt(L), tt(EQU), nt(R)]), Rhs::noop(vec![nt(R)])];
    rules[L] = vec![Rhs::noop(vec![tt(DEREF), nt(R)]), Rhs::noop(vec![tt(ID)])];
    rules[R] = vec![Rhs::noop(vec![nt(L)])];
    Grammar::new(E, rules).unwrap()
}

#[test]
fn lr1_test_lr1_closure() {
    let grammar = pointer_grammar();

    // Compute CLOSURE({[E -> ·S, #]})
    let mut initial_set = LR1ItemSet::new();
    initial_set.insert(LR1Item { lhs: E, rhs: 0, pos: 0, lookahead: None });

    grammar.lr1_closure(&mut initial_set, &grammar.first_sets());

    assert_eq!(8, initial_set.items.len());
}
