use parsekit::class::CharClass;
use parsekit::regex_parser::{parse, Operator, ParseError, ParseExpr, Parser, ParserState};
use vstd::seq::Seq;
use vstd::set::Set;

/// Builds a parenthesized text of the expression, to show its structure.
struct Show;

/// Describes a class by the code points it holds: one character, or the
/// runs of code points in brackets.
fn describe(c: &CharClass) -> String {
    let has = |k: u32| c.ranges.iter().any(|r| r.start <= k && k <= r.end);
    let mut runs: Vec<(u32, u32)> = Vec::new();
    let mut k: u32 = 0;
    while k <= 0x10FFFF {
        if has(k) {
            let start = k;
            while k < 0x10FFFF && has(k + 1) {
                k += 1;
            }
            runs.push((start, k));
        }
        k += 1;
    }
    if runs.len() == 1 && runs[0].0 == runs[0].1 {
        char::from_u32(runs[0].0).unwrap().to_string()
    } else {
        let parts: Vec<String> = runs.iter().map(|(a, b)| format!("{:x}-{:x}", a, b)).collect();
        format!("[{}]", parts.join(","))
    }
}

impl Parser<String> for Show {
    // The parser's proofs speak of these; nothing calls them when it runs.
    fn spec_shift(&self, _stack: Seq<String>, _ops: Seq<Operator>, _c: Set<u32>) -> Result<Seq<String>, ParseError> {
        unreachable!()
    }

    fn spec_reduce(&self, _stack: Seq<String>, _ops: Seq<Operator>) -> Result<Seq<String>, ParseError> {
        unreachable!()
    }

    fn shift_action(&self, stack: &mut Vec<String>, _op_stack: &mut Vec<Operator>, c: CharClass) -> Result<(), ParseError> {
        stack.push(describe(&c));
        Ok(())
    }

    fn reduce_action(&self, stack: &mut Vec<String>, op_stack: &mut Vec<Operator>) -> Result<(), ParseError> {
        let op = op_stack.pop().unwrap();
        let node = match op {
            Operator::Union | Operator::Concatenation => {
                let b = stack.pop().ok_or(ParseError::UnbalancedOperators)?;
                let a = stack.pop().ok_or(ParseError::UnbalancedOperators)?;
                if op == Operator::Union {
                    format!("({}|{})", a, b)
                } else {
                    format!("({}{})", a, b)
                }
            }
            Operator::KleeneStar | Operator::Plus | Operator::Optional => {
                let a = stack.pop().ok_or(ParseError::UnbalancedOperators)?;
                let sym = match op {
                    Operator::KleeneStar => "*",
                    Operator::Plus => "+",
                    _ => "?",
                };
                format!("{}{}", a, sym)
            }
            Operator::EmptyPlaceholder => "ε".to_string(),
            Operator::LeftParen => return Err(ParseError::UnbalancedParentheses),
        };
        stack.push(node);
        Ok(())
    }
}

fn show(expr: &str) -> Result<Option<String>, ParseError> {
    parse(&Show, expr)
}

#[test]
fn regex_concatenation_binds_tighter_than_union() {
    assert_eq!(show("a|bc*"), Ok(Some("(a|(bc*))".to_string())));
    assert_eq!(show("ab|c"), Ok(Some("((ab)|c)".to_string())));
}

#[test]
fn regex_postfix_operators() {
    assert_eq!(show("a+b?"), Ok(Some("(a+b?)".to_string())));
    assert_eq!(show("(ab)*"), Ok(Some("(ab)*".to_string())));
}

#[test]
fn regex_groups() {
    assert_eq!(show("a(b|c)d"), Ok(Some("((a(b|c))d)".to_string())));
    assert_eq!(show("()"), Ok(Some("ε".to_string())));
}

#[test]
fn regex_empty_expression() {
    assert_eq!(show(""), Ok(Some("ε".to_string())));
}

#[test]
fn regex_escapes_and_classes() {
    assert_eq!(show("\\*"), Ok(Some("*".to_string())));
    assert_eq!(show("\\d"), Ok(Some("[30-39]".to_string())));
    assert_eq!(show("[a-c]"), Ok(Some("[61-63]".to_string())));
    assert_eq!(show("[ab]"), Ok(Some("[61-62]".to_string())));
    assert_eq!(show("[^a]"), Ok(Some("[0-60,62-10ffff]".to_string())));
    assert_eq!(show("."), Ok(Some("[0-9,b-10ffff]".to_string())));
}

#[test]
fn regex_errors() {
    assert_eq!(show(")"), Err(ParseError::UnbalancedOperators));
    assert_eq!(show("a)"), Err(ParseError::UnbalancedOperators));
    assert_eq!(show("[]"), Err(ParseError::EmptyCharacterClass));
    assert_eq!(show("(a"), Err(ParseError::UnbalancedParentheses));
}

#[test]
fn regex_error_messages() {
    assert_eq!(ParseError::UnbalancedOperators.message(), "unbalanced operators");
    assert_eq!(ParseError::UnbalancedParentheses.message(), "unbalanced parentheses");
    assert_eq!(ParseError::EmptyCharacterClass.message(), "empty character class");
}

/// Counts the shifted classes: a shift pushes 1, a union or concatenation
/// adds the two nodes on top, an empty placeholder pushes 0.
struct Count;

impl Parser<usize> for Count {
    // The parser's proofs speak of these; nothing calls them when it runs.
    fn spec_shift(&self, _stack: Seq<usize>, _ops: Seq<Operator>, _c: Set<u32>) -> Result<Seq<usize>, ParseError> {
        unreachable!()
    }

    fn spec_reduce(&self, _stack: Seq<usize>, _ops: Seq<Operator>) -> Result<Seq<usize>, ParseError> {
        unreachable!()
    }

    fn shift_action(&self, stack: &mut Vec<usize>, _op_stack: &mut Vec<Operator>, _c: CharClass) -> Result<(), ParseError> {
        stack.push(1);
        Ok(())
    }

    fn reduce_action(&self, stack: &mut Vec<usize>, op_stack: &mut Vec<Operator>) -> Result<(), ParseError> {
        match op_stack.pop().unwrap() {
            Operator::Union | Operator::Concatenation => {
                let y = stack.pop().unwrap();
                let x = stack.pop().unwrap();
                stack.push(x + y);
            }
            Operator::EmptyPlaceholder => stack.push(0),
            _ => {}
        }
        Ok(())
    }
}

#[test]
fn regex_counting_parser() {
    assert_eq!(parse(&Count, "a\\**"), Ok(Some(2)));
    assert_eq!(parse(&Count, ""), Ok(Some(0)));
    assert_eq!(parse(&Count, "[a-c]"), Ok(Some(1)));
    assert_eq!(parse(&Count, "[^a]"), Ok(Some(1)));
    assert_eq!(parse(&Count, "ab|c"), Ok(Some(3)));
    assert_eq!(parse(&Count, "hello"), Ok(Some(5)));
    assert_eq!(parse(&Count, "[]"), Err(ParseError::EmptyCharacterClass));
    assert_eq!(parse(&Count, "[^]"), Err(ParseError::EmptyCharacterClass));
    assert_eq!(parse(&Count, ")"), Err(ParseError::UnbalancedOperators));
    assert_eq!(parse(&Count, "a)"), Err(ParseError::UnbalancedOperators));
    assert_eq!(parse(&Count, "a|b)"), Err(ParseError::UnbalancedParentheses));
}

#[test]
fn regex_reading_without_actions() {
    // Nothing is shifted or reduced: no node is left.
    assert_eq!(parse(&Count, "\\"), Ok(None));
    assert_eq!(parse(&Count, "["), Ok(None));
    assert_eq!(parse(&Count, "[ab"), Ok(None));
}

#[test]
fn regex_class_with_caret_inside() {
    assert_eq!(show("[a^]"), Ok(Some("[5e-5e,61-61]".to_string())));
}

#[test]
fn regex_run_from_a_fresh_state() {
    for expr in ["ab|c", "a\\**", "", "(a|b)*c", "[x-z]+", "a)"] {
        let mut state: ParserState<usize> = ParserState::new();
        assert_eq!(state.run(&Count, expr), parse(&Count, expr));
    }
}

#[test]
fn regex_parse_as_a_method() {
    assert_eq!(Count.parse("ab|c"), Ok(Some(3)));
    assert_eq!(Count.parse("(a|b)*c"), parse(&Count, "(a|b)*c"));
    assert_eq!(Count.parse("[]"), Err(ParseError::EmptyCharacterClass));
}
