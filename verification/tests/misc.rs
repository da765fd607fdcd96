use parsekit::class::{CharClass, CharRange};
use parsekit::matching::Match;
use parsekit::program::{Function, Item, Program, Span, Struct};
use parsekit::ty::{
    from_lexer_type, ExpectedToken, LexerType, ParseError, ParseInput, PrimitiveTypeKind, Reserved, Token, Type,
};

fn has(c: &CharClass, ch: char) -> bool {
    let k = ch as u32;
    c.ranges.iter().any(|r: &CharRange| r.start <= k && k <= r.end)
}

#[test]
fn match_new_and_range() {
    let m = Match::new(3, 7, vec!['a', 'b', 'c', 'd']);
    assert_eq!(m.start, 3);
    assert_eq!(m.end, 7);
    assert_eq!(m.span, vec!['a', 'b', 'c', 'd']);
    assert_eq!(m.range(), 3..7);
}

#[test]
fn program_span_of_empty_program() {
    let p = Program { items: Vec::new() };
    assert_eq!(p.span(), Span::new(0, 0));
}

#[test]
fn program_span_covers_first_to_last_item() {
    let p = Program {
        items: vec![
            Item::Struct(Struct { name: "A".to_string(), span: Span::new(2, 10) }),
            Item::Function(Function { name: "f".to_string(), span: Span::new(12, 30) }),
            Item::Struct(Struct { name: "B".to_string(), span: Span::new(31, 40) }),
        ],
    };
    assert_eq!(p.span(), Span::new(2, 40));
    assert_eq!(p.items[1].span(), Span::new(12, 30));
}

#[test]
fn char_class_constructors() {
    let d = CharClass::decimal_number();
    assert!(has(&d, '0') && has(&d, '9') && !has(&d, 'a'));
    let w = CharClass::word();
    assert!(has(&w, '_') && has(&w, 'Z') && has(&w, 'q') && !has(&w, '-'));
    let s = CharClass::whitespace();
    assert!(has(&s, ' ') && has(&s, '\t') && has(&s, '\r') && !has(&s, 'x'));
    let dot = CharClass::all_but_newline();
    assert!(has(&dot, 'x') && has(&dot, '\u{10FFFF}') && !has(&dot, '\n'));
    let one = CharClass::new_single('k');
    assert!(has(&one, 'k') && !has(&one, 'j'));
    assert!(CharClass::new().ranges.is_empty());
}

#[test]
fn char_class_complement_is_an_involution() {
    let d = CharClass::decimal_number();
    let nd = d.complement();
    assert!(!has(&nd, '5') && has(&nd, 'a') && has(&nd, '\u{10FFFF}') && has(&nd, '\0'));
    let dd = nd.complement();
    for ch in ['0', '5', '9', 'a', '/', ':', '\0', '\u{10FFFF}'] {
        assert_eq!(has(&dd, ch), has(&d, ch));
    }
}

#[test]
fn char_class_add_range_and_copy_into() {
    let mut c = CharClass::new();
    c.add_range(CharRange::new('a', 'c'));
    assert!(has(&c, 'b') && !has(&c, 'd'));
    let mut e = CharClass::new_single('z');
    CharClass::copy_into(&mut e, &c);
    assert!(has(&e, 'z') && has(&e, 'a'));
    let f = e.copy();
    assert_eq!(f.ranges.len(), 2);
}

fn sp(a: usize, b: usize) -> Span {
    Span::new(a, b)
}

fn input(tokens: Vec<Token>, declared: &[&str]) -> ParseInput {
    let tokens = tokens.into_iter().enumerate().map(|(i, t)| (t, sp(i, i + 1))).collect();
    ParseInput {
        tokens,
        pos: 0,
        declared: declared.iter().map(|s| s.to_string()).collect(),
        errors: Vec::new(),
    }
}

#[test]
fn from_lexer_type_maps_each_kind() {
    assert_eq!(from_lexer_type(LexerType::I32, sp(1, 4)).kind, PrimitiveTypeKind::I32);
    assert_eq!(from_lexer_type(LexerType::F64, sp(1, 4)).kind, PrimitiveTypeKind::F64);
    assert_eq!(from_lexer_type(LexerType::Bool, sp(1, 4)).span, sp(1, 4));
}

#[test]
fn parse_primitive_type() {
    let mut inp = input(vec![Token::Type(LexerType::U8)], &[]);
    match Type::parse(&mut inp) {
        Ok(Type::Primitive(p)) => {
            assert_eq!(p.kind, PrimitiveTypeKind::U8);
            assert_eq!(p.span, sp(0, 1));
        }
        other => panic!("unexpected {:?}", other),
    }
    assert_eq!(inp.pos, 1);
    assert!(inp.errors.is_empty());
}

#[test]
fn parse_unit_and_array_types() {
    let mut inp = input(vec![Token::Reserved(Reserved::LParen), Token::Reserved(Reserved::RParen)], &[]);
    match Type::parse(&mut inp) {
        Ok(Type::Primitive(p)) => assert_eq!(p.kind, PrimitiveTypeKind::Unit),
        other => panic!("unexpected {:?}", other),
    }
    let mut inp = input(
        vec![
            Token::Reserved(Reserved::LBracket),
            Token::Reserved(Reserved::LBracket),
            Token::Type(LexerType::Char),
            Token::Reserved(Reserved::RBracket),
            Token::Reserved(Reserved::RBracket),
        ],
        &[],
    );
    match Type::parse(&mut inp) {
        Ok(Type::Array { lbracket, ty, rbracket }) => {
            assert_eq!(lbracket, sp(0, 1));
            assert_eq!(rbracket, sp(4, 5));
            assert!(matches!(*ty, Type::Array { .. }));
        }
        other => panic!("unexpected {:?}", other),
    }
    assert_eq!(inp.pos, 5);
}

#[test]
fn parse_declared_and_undeclared_types() {
    let mut inp = input(vec![Token::Ident("Point".to_string())], &["Point"]);
    match Type::parse(&mut inp) {
        Ok(Type::Declared { name, .. }) => assert_eq!(name, "Point"),
        other => panic!("unexpected {:?}", other),
    }
    assert!(inp.errors.is_empty());
    let mut inp = input(vec![Token::Ident("Shape".to_string())], &["Point"]);
    assert!(matches!(Type::parse(&mut inp), Ok(Type::Declared { .. })));
    assert_eq!(inp.errors.len(), 1);
    assert!(matches!(&inp.errors[0], ParseError::UndeclaredType { name, .. } if name == "Shape"));
}

#[test]
fn parse_type_errors() {
    let mut inp = input(vec![], &[]);
    assert!(Type::parse(&mut inp).is_err());
    match &inp.errors[0] {
        ParseError::UnexpectedEof { expected } => assert_eq!(
            expected,
            &vec![
                ExpectedToken::Type,
                ExpectedToken::Ident,
                ExpectedToken::Reserved(Reserved::LParen),
                ExpectedToken::Reserved(Reserved::LBracket)
            ]
        ),
        other => panic!("unexpected {:?}", other),
    }
    let mut inp = input(vec![Token::Other("+".to_string())], &[]);
    assert!(Type::parse(&mut inp).is_err());
    assert!(matches!(&inp.errors[0], ParseError::UnexpectedToken { span, .. } if *span == sp(0, 1)));
    let mut inp = input(vec![Token::Reserved(Reserved::LParen), Token::Type(LexerType::I8)], &[]);
    assert!(Type::parse(&mut inp).is_err());
    assert!(matches!(&inp.errors[0], ParseError::UnexpectedToken { expected, .. } if *expected == vec![ExpectedToken::Reserved(Reserved::RParen)]));
    let mut inp = input(vec![Token::Reserved(Reserved::LBracket), Token::Type(LexerType::I8)], &[]);
    assert!(Type::parse(&mut inp).is_err());
    assert!(matches!(&inp.errors[0], ParseError::UnexpectedEof { expected } if *expected == vec![ExpectedToken::Reserved(Reserved::RBracket)]));
}
