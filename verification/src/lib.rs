//! Parsing building blocks: context-free grammars with their FIRST and
//! FOLLOW sets, LR(0), LR(1), SLR(1) and LALR(1) constructions, a
//! shift-reduce parser of regular expressions, a parser of type
//! expressions over a token stream, and spans of programs and matches.

pub mod seqs;
pub mod class;
pub mod matching;
pub mod program;
pub mod regex_parser;
pub mod grammar;
pub mod follow;
pub mod lr1;
pub mod lr0;
pub mod slr;
pub mod lalr;
pub mod ty;
pub mod laws;
