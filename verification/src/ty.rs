use vstd::prelude::*;

use crate::program::Span;

verus! {

/// The primitive types that the lexer recognizes.
#[derive(Debug, Clone, Copy, PartialEq, Eq, Structural)]
pub enum LexerType {
    Bool,
    Char,
    I8,
    I16,
    I32,
    I64,
    I128,
    U8,
    U16,
    U32,
    U64,
    F32,
    F64,
}

/// The reserved punctuation that a type begins or ends with.
#[derive(Debug, Clone, Copy, PartialEq, Eq, Structural)]
pub enum Reserved {
    LParen,
    RParen,
    LBracket,
    RBracket,
}

/// A token of the lexer.
#[derive(Debug)]
pub enum Token {
    /// The name of a primitive type.
    Type(LexerType),
    /// An identifier.
    Ident(String),
    /// Reserved punctuation.
    Reserved(Reserved),
    /// Any other token, by its text.
    Other(String),
}

impl Token {
    /// A copy of the token.
    pub fn copy(&self) -> (r: Token)
        ensures
            r == *self,
    {
        match self {
            Token::Type(t) => Token::Type(*t),
            Token::Ident(s) => Token::Ident(s.clone()),
            Token::Reserved(k) => Token::Reserved(*k),
            Token::Other(s) => Token::Other(s.clone()),
        }
    }
}

/// The kinds of primitive type.
#[derive(Debug, Clone, Copy, PartialEq, Eq, Structural)]
pub enum PrimitiveTypeKind {
    Bool,
    Char,
    I8,
    I16,
    I32,
    I64,
    I128,
    U8,
    U16,
    U32,
    U64,
    F32,
    F64,
    Unit,
}

/// A primitive type and where it stands.
#[derive(Debug, Clone, Copy, PartialEq, Eq, Structural)]
pub struct PrimitiveType {
    pub kind: PrimitiveTypeKind,
    pub span: Span,
}

/// A type as written in the source.
#[derive(Debug)]
pub enum Type {
    /// A primitive type, or `()` for unit.
    Primitive(PrimitiveType),
    /// A type declared by the program, by its name.
    Declared { name: String, span: Span },
    /// `[ty]`: an array of `ty`, with the spans of its brackets.
    Array { lbracket: Span, ty: Box<Type>, rbracket: Span },
}

/// What the parser expected to read.
#[derive(Debug, Clone, Copy, PartialEq, Eq, Structural)]
pub enum ExpectedToken {
    Type,
    Ident,
    Reserved(Reserved),
}

/// An error met in parsing.
#[derive(Debug)]
pub enum ParseError {
    /// The input ended where one of `expected` was due.
    UnexpectedEof { expected: Vec<ExpectedToken> },
    /// The token `found` stands where one of `expected` was due.
    UnexpectedToken { span: Span, found: Token, expected: Vec<ExpectedToken> },
    /// A type is named that no declaration in scope declares.
    UndeclaredType { name: String, span: Span },
}

/// A parse error, with its lists of expected tokens as sequences.
pub enum ParseErrorView {
    UnexpectedEof { expected: Seq<ExpectedToken> },
    UnexpectedToken { span: Span, found: Token, expected: Seq<ExpectedToken> },
    UndeclaredType { name: String, span: Span },
}

impl View for ParseError {
    type V = ParseErrorView;

    open spec fn view(&self) -> ParseErrorView {
        match self {
            ParseError::UnexpectedEof { expected } => ParseErrorView::UnexpectedEof { expected: expected@ },
            ParseError::UnexpectedToken { span, found, expected } => ParseErrorView::UnexpectedToken {
                span: *span,
                found: *found,
                expected: expected@,
            },
            ParseError::UndeclaredType { name, span } => ParseErrorView::UndeclaredType { name: *name, span: *span },
        }
    }
}

/// The views of the errors `v`, in order.
pub open spec fn errors_view(v: Seq<ParseError>) -> Seq<ParseErrorView> {
    v.map_values(|e: ParseError| e@)
}

/// The token stream being parsed, the position of the next token, the
/// names of the types declared in scope, and the errors recorded so far.
#[derive(Debug)]
pub struct ParseInput {
    pub tokens: Vec<(Token, Span)>,
    pub pos: usize,
    pub declared: Vec<String>,
    pub errors: Vec<ParseError>,
}

/// Whether a type named `name` is declared in `declared`.
pub open spec fn declared_has(declared: Seq<String>, name: String) -> bool {
    exists|i: int| 0 <= i < declared.len() && (#[trigger] declared[i])@ == name@
}

/// What may begin a type.
pub open spec fn type_start() -> Seq<ExpectedToken> {
    seq![
        ExpectedToken::Type,
        ExpectedToken::Ident,
        ExpectedToken::Reserved(Reserved::LParen),
        ExpectedToken::Reserved(Reserved::LBracket),
    ]
}

/// Reading the reserved token `kw` at `pos`: its span and the next
/// position, or the error recorded.
pub open spec fn spec_consume(toks: Seq<(Token, Span)>, pos: nat, kw: Reserved) -> (Result<Span, ()>, nat, Seq<ParseErrorView>) {
    if pos >= toks.len() {
        (Err(()), pos, seq![ParseErrorView::UnexpectedEof { expected: seq![ExpectedToken::Reserved(kw)] }])
    } else if toks[pos as int].0 == Token::Reserved(kw) {
        (Ok(toks[pos as int].1), pos + 1, Seq::empty())
    } else {
        (
            Err(()),
            pos + 1,
            seq![
                ParseErrorView::UnexpectedToken {
                    span: toks[pos as int].1,
                    found: toks[pos as int].0,
                    expected: seq![ExpectedToken::Reserved(kw)],
                },
            ],
        )
    }
}

/// The primitive type that the lexer's type `ty` names.
pub open spec fn spec_from_lexer_type(ty: LexerType, span: Span) -> PrimitiveType {
    let kind = match ty {
        LexerType::Bool => PrimitiveTypeKind::Bool,
        LexerType::Char => PrimitiveTypeKind::Char,
        LexerType::I8 => PrimitiveTypeKind::I8,
        LexerType::I16 => PrimitiveTypeKind::I16,
        LexerType::I32 => PrimitiveTypeKind::I32,
        LexerType::I64 => PrimitiveTypeKind::I64,
        LexerType::I128 => PrimitiveTypeKind::I128,
        LexerType::U8 => PrimitiveTypeKind::U8,
        LexerType::U16 => PrimitiveTypeKind::U16,
        LexerType::U32 => PrimitiveTypeKind::U32,
        LexerType::U64 => PrimitiveTypeKind::U64,
        LexerType::F32 => PrimitiveTypeKind::F32,
        LexerType::F64 => PrimitiveTypeKind::F64,
    };
    PrimitiveType { kind, span }
}

/// Parsing a type from position `pos` of `toks`, with the types declared
/// in `declared`: the type or a failure, the position after what was read,
/// and the errors recorded. A type is a primitive type, the name of a
/// declared type (an undeclared one is recorded as an error, and parsing
/// goes on), `()` for unit, or `[T]`.
pub open spec fn spec_parse_type(toks: Seq<(Token, Span)>, pos: nat, declared: Seq<String>) -> (Result<Type, ()>, nat, Seq<ParseErrorView>)
    decreases toks.len() - pos,
{
    if pos >= toks.len() {
        (Err(()), pos, seq![ParseErrorView::UnexpectedEof { expected: type_start() }])
    } else {
        let tok = toks[pos as int].0;
        let span = toks[pos as int].1;
        match tok {
            Token::Type(ty) => (Ok(Type::Primitive(spec_from_lexer_type(ty, span))), pos + 1, Seq::empty()),
            Token::Ident(name) => (
                Ok(Type::Declared { name, span }),
                pos + 1,
                if declared_has(declared, name) {
                    Seq::empty()
                } else {
                    seq![ParseErrorView::UndeclaredType { name, span }]
                },
            ),
            Token::Reserved(Reserved::LParen) => {
                let c = spec_consume(toks, pos + 1, Reserved::RParen);
                match c.0 {
                    Ok(_) => (Ok(Type::Primitive(PrimitiveType { kind: PrimitiveTypeKind::Unit, span })), c.1, c.2),
                    Err(_) => (Err(()), c.1, c.2),
                }
            },
            Token::Reserved(Reserved::LBracket) => {
                let inner = spec_parse_type(toks, pos + 1, declared);
                match inner.0 {
                    Err(_) => inner,
                    Ok(t) => {
                        let c = spec_consume(toks, inner.1, Reserved::RBracket);
                        match c.0 {
                            Ok(rb) => (Ok(Type::Array { lbracket: span, ty: Box::new(t), rbracket: rb }), c.1, inner.2 + c.2),
                            Err(_) => (Err(()), c.1, inner.2 + c.2),
                        }
                    },
                }
            },
            _ => (
                Err(()),
                pos + 1,
                seq![ParseErrorView::UnexpectedToken { span, found: tok, expected: type_start() }],
            ),
        }
    }
}

/// The primitive type that the lexer's type `ty` names, at `span`.
pub fn from_lexer_type(ty: LexerType, span: Span) -> (r: PrimitiveType)
    ensures
        r == spec_from_lexer_type(ty, span),
{
    let kind = match ty {
        LexerType::Bool => PrimitiveTypeKind::Bool,
        LexerType::Char => PrimitiveTypeKind::Char,
        LexerType::I8 => PrimitiveTypeKind::I8,
        LexerType::I16 => PrimitiveTypeKind::I16,
        LexerType::I32 => PrimitiveTypeKind::I32,
        LexerType::I64 => PrimitiveTypeKind::I64,
        LexerType::I128 => PrimitiveTypeKind::I128,
        LexerType::U8 => PrimitiveTypeKind::U8,
        LexerType::U16 => PrimitiveTypeKind::U16,
        LexerType::U32 => PrimitiveTypeKind::U32,
        LexerType::U64 => PrimitiveTypeKind::U64,
        LexerType::F32 => PrimitiveTypeKind::F32,
        LexerType::F64 => PrimitiveTypeKind::F64,
    };
    PrimitiveType { kind, span }
}

/// The list `[Type, Ident, (, []` of what may begin a type.
fn type_start_tokens() -> (v: Vec<ExpectedToken>)
    ensures
        v@ == type_start(),
{
    let v = vec![
        ExpectedToken::Type,
        ExpectedToken::Ident,
        ExpectedToken::Reserved(Reserved::LParen),
        ExpectedToken::Reserved(Reserved::LBracket),
    ];
    assert(v@ =~= type_start());
    v
}

impl ParseInput {
    /// Records the error `e`.
    pub fn error(&mut self, e: ParseError)
        ensures
            final(self).tokens@ == old(self).tokens@,
            final(self).pos == old(self).pos,
            final(self).declared@ == old(self).declared@,
            final(self).errors@ == old(self).errors@.push(e),
    {
        self.errors.push(e);
    }

    /// Takes the next token, or records that the input ended where one of
    /// `expected` was due.
    pub fn next_unwrap(&mut self, expected: Vec<ExpectedToken>) -> (r: Result<(Token, Span), ()>)
        ensures
            final(self).tokens@ == old(self).tokens@,
            final(self).declared@ == old(self).declared@,
            old(self).pos >= old(self).tokens@.len() ==> {
                &&& r is Err
                &&& final(self).pos == old(self).pos
                &&& errors_view(final(self).errors@) == errors_view(old(self).errors@).push(
                    ParseErrorView::UnexpectedEof { expected: expected@ },
                )
            },
            old(self).pos < old(self).tokens@.len() ==> {
                &&& r == Ok::<(Token, Span), ()>(old(self).tokens@[old(self).pos as int])
                &&& final(self).pos == old(self).pos + 1
                &&& final(self).errors@ == old(self).errors@
            },
    {
        if self.pos >= self.tokens.len() {
            let ghost before = self.errors@;
            self.error(ParseError::UnexpectedEof { expected });
            assert(errors_view(self.errors@) =~= errors_view(before).push(self.errors@.last()@));
            Err(())
        } else {
            let tok = self.tokens[self.pos].0.copy();
            let span = self.tokens[self.pos].1;
            self.pos = self.pos + 1;
            Ok((tok, span))
        }
    }

    /// Reads the reserved token `kw`, or records what stands in its place.
    pub fn consume(&mut self, kw: Reserved) -> (r: Result<Span, ()>)
        ensures
            final(self).tokens@ == old(self).tokens@,
            final(self).declared@ == old(self).declared@,
            ({
                let s = spec_consume(old(self).tokens@, old(self).pos as nat, kw);
                &&& r == s.0
                &&& final(self).pos == s.1
                &&& errors_view(final(self).errors@) == errors_view(old(self).errors@) + s.2
            }),
    {
        let ghost before = self.errors@;
        let expected = vec![ExpectedToken::Reserved(kw)];
        assert(expected@ =~= seq![ExpectedToken::Reserved(kw)]);
        let next = self.next_unwrap(expected);
        match next {
            Err(()) => {
                assert(errors_view(before).push(ParseErrorView::UnexpectedEof { expected: seq![ExpectedToken::Reserved(kw)] })
                    =~= errors_view(before) + seq![ParseErrorView::UnexpectedEof { expected: seq![ExpectedToken::Reserved(kw)] }]);
                Err(())
            },
            Ok((tok, span)) => {
                let is_kw = match &tok {
                    Token::Reserved(k) => *k == kw,
                    _ => false,
                };
                if is_kw {
                    assert(errors_view(self.errors@) =~= errors_view(before) + Seq::<ParseErrorView>::empty());
                    Ok(span)
                } else {
                    let expected = vec![ExpectedToken::Reserved(kw)];
                    assert(expected@ =~= seq![ExpectedToken::Reserved(kw)]);
                    self.error(ParseError::UnexpectedToken { span, found: tok, expected });
                    assert(errors_view(self.errors@) =~= errors_view(before) + seq![
                        ParseErrorView::UnexpectedToken { span, found: tok, expected: seq![ExpectedToken::Reserved(kw)] },
                    ]);
                    Err(())
                }
            },
        }
    }

    /// Whether a type named `name` is declared in scope.
    pub fn lookup(&self, name: &String) -> (r: bool)
        ensures
            r == declared_has(self.declared@, *name),
    {
        let n = self.declared.len();
        for i in 0..n
            invariant
                n == self.declared@.len(),
                forall|j: int| 0 <= j < i ==> (#[trigger] self.declared@[j])@ != name@,
        {
            if self.declared[i] == *name {
                assert(self.declared@[i as int]@ == name@);
                return true;
            }
        }
        false
    }
}

impl Type {
    /// Parses a type: a primitive type, the name of a declared type (a name
    /// that no declaration in scope declares is recorded as an error, and
    /// the type is still returned), `()` for unit, or `[T]` for an array of
    /// `T`. Any other token, or the end of the input, is recorded as an
    /// error and fails the parse.
    pub fn parse(input: &mut ParseInput) -> (r: Result<Type, ()>)
        ensures
            final(input).tokens@ == old(input).tokens@,
            final(input).declared@ == old(input).declared@,
            ({
                let s = spec_parse_type(old(input).tokens@, old(input).pos as nat, old(input).declared@);
                &&& r == s.0
                &&& final(input).pos == s.1
                &&& errors_view(final(input).errors@) == errors_view(old(input).errors@) + s.2
            }),
        decreases old(input).tokens@.len() - old(input).pos,
    {
        let ghost toks = input.tokens@;
        let ghost pos0 = input.pos as nat;
        let ghost before = input.errors@;
        let expected = type_start_tokens();
        let next = input.next_unwrap(expected);
        let (tok, span) = match next {
            Ok(t) => t,
            Err(()) => {
                assert(errors_view(input.errors@) =~= errors_view(before) + seq![ParseErrorView::UnexpectedEof { expected: type_start() }]);
                return Err(());
            },
        };
        let ty = match tok {
            Token::Type(ty) => {
                assert(errors_view(input.errors@) =~= errors_view(before) + Seq::<ParseErrorView>::empty());
                Type::Primitive(from_lexer_type(ty, span))
            },
            // Non-primitive type; check the declarations in scope.
            Token::Ident(name) => {
                if !input.lookup(&name) {
                    input.error(ParseError::UndeclaredType { name: name.clone(), span });
                    assert(errors_view(input.errors@) =~= errors_view(before) + seq![ParseErrorView::UndeclaredType { name, span }]);
                } else {
                    assert(errors_view(input.errors@) =~= errors_view(before) + Seq::<ParseErrorView>::empty());
                }
                Type::Declared { name, span }
            },
            Token::Reserved(Reserved::LParen) => {
                input.consume(Reserved::RParen)?;
                Type::Primitive(PrimitiveType { kind: PrimitiveTypeKind::Unit, span })
            },
            Token::Reserved(Reserved::LBracket) => {
                let ghost mid = input.errors@;
                let inner = Type::parse(input)?;
                let ghost mid2 = input.errors@;
                let rbracket = input.consume(Reserved::RBracket);
                match rbracket {
                    Ok(rb) => {
                        assert(errors_view(input.errors@) =~= errors_view(before) + (spec_parse_type(toks, pos0 + 1, input.declared@).2
                            + spec_consume(toks, spec_parse_type(toks, pos0 + 1, input.declared@).1, Reserved::RBracket).2));
                        Type::Array { lbracket: span, ty: Box::new(inner), rbracket: rb }
                    },
                    Err(()) => {
                        assert(errors_view(input.errors@) =~= errors_view(before) + (spec_parse_type(toks, pos0 + 1, input.declared@).2
                            + spec_consume(toks, spec_parse_type(toks, pos0 + 1, input.declared@).1, Reserved::RBracket).2));
                        return Err(());
                    },
                }
            },
            found => {
                let expected = type_start_tokens();
                input.error(ParseError::UnexpectedToken { span, found, expected });
                assert(errors_view(input.errors@) =~= errors_view(before) + seq![
                    ParseErrorView::UnexpectedToken { span, found: toks[pos0 as int].0, expected: type_start() },
                ]);
                return Err(());
            },
        };
        Ok(ty)
    }
}

} // verus!
