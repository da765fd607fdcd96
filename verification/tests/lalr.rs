use parsekit::grammar::{Grammar, Rhs, Symbol};
use parsekit::lalr::LR1Lookahead;
use parsekit::lr0::Item;

// Nonterminals.
const E: usize = 0;
const S: usize = 1;
const L: usize = 2;
const R: usize = 3;

// Terminals.
const EQU: usize = 0;
const DEREF: usize = 1;
const ID: usize = 2;

fn nt(n: usize) -> Symbol {
    Symbol::Nonterminal(n)
}

fn tt(t: usize) -> Symbol {
    Symbol::Terminal(t)
}

#[test]
fn lalr_test_lr1_closure() {
    let mut rules = vec![Vec::new(), Vec::new(), Vec::new(), Vec::new()];

    // E -> S
    rules[E] = vec![Rhs::noop(vec![nt(S)])];

    // S -> L = R
    //    | R
    rules[S] = vec![Rhs::noop(vec![nt(L), tt(EQU), nt(R)]), Rhs::noop(vec![nt(R)])];

    // L -> * R
    //    | id
    rules[L] = vec![Rhs::noop(vec![tt(DEREF), nt(R)]), Rhs::noop(vec![tt(ID)])];

    // R -> L
    rules[R] = vec![Rhs::noop(vec![nt(L)])];

    let grammar = Grammar::new(E, rules).unwrap();

    // Compute CLOSURE({[E -> ·S, #]})
    let mut initial_set = vec![(Item { lhs: E, rhs: 0, pos: 0 }, LR1Lookahead::NonSymbol)];

    grammar.lalr1_closure(&mut initial_set, &grammar.first_sets());
}
