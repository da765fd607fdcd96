# parsekit

Parsing building blocks, verified with Verus:

- `grammar`: context-free grammars over numbered terminals and nonterminals,
  and their FIRST sets (the least sets closed under the productions).
- `follow`: FOLLOW sets, the least sets closed under the FOLLOW rules.
- `lr0`: LR(0) items, closure, GOTO kernels and the canonical LR(0)
  collection with its transitions.
- `lr1`: LR(1) items and item sets, closure and GOTO, and the states, actions
  and conflicts of LR(1) parse tables.
- `slr`: the SLR(1) table of a grammar, or the first conflict met (`try_slr1_table`
  for any grammar, `slr1_table` where no accept meets another action).
- `lalr`: lookaheads for LALR(1) kernels, their closure, and the LALR(1) table
  (`try_lalr1_table` and `lalr1_table`, as for SLR(1)).
- `regex_parser`: a shift-reduce parser of regular expressions that hands
  character classes and operators to a user's actions.
- `class`: character classes as lists of code-point ranges.
- `ty`: a parser of type expressions over a token stream.
- `program`, `matching`: spans of programs and matches.
- `laws`: properties that relate several functions, stated and proved.

`app/` holds a copy of the regular-expression parser's error type with
`Display` and `std::error::Error`.
