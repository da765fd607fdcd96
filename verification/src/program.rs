use vstd::prelude::*;

verus! {

/// A half-open range `start..end` of positions in the source text.
#[derive(Debug, Clone, Copy, PartialEq, Eq, Structural)]
pub struct Span {
    pub start: usize,
    pub end: usize,
}

impl Span {
    pub fn new(start: usize, end: usize) -> (s: Span)
        ensures
            s == (Span { start, end }),
    {
        Span { start, end }
    }
}

/// A structure declaration.
#[derive(Debug, Clone)]
pub struct Struct {
    pub name: String,
    pub span: Span,
}

impl Struct {
    pub fn span(&self) -> (s: Span)
        ensures
            s == self.span,
    {
        self.span
    }
}

/// A function declaration.
#[derive(Debug, Clone)]
pub struct Function {
    pub name: String,
    pub span: Span,
}

impl Function {
    pub fn span(&self) -> (s: Span)
        ensures
            s == self.span,
    {
        self.span
    }
}

/// A whole program: a sequence of top-level items.
#[derive(Debug, Clone)]
pub struct Program {
    pub items: Vec<Item>,
}

/// A top-level item of a program.
#[derive(Debug, Clone)]
pub enum Item {
    Struct(Struct),
    Function(Function),
}

impl Item {
    /// The span of the declaration that the item holds.
    pub open spec fn spec_span(self) -> Span {
        match self {
            Item::Struct(s) => s.span,
            Item::Function(f) => f.span,
        }
    }

    pub fn span(&self) -> (s: Span)
        ensures
            s == self.spec_span(),
    {
        match self {
            Item::Struct(s) => s.span(),
            Item::Function(f) => f.span(),
        }
    }
}

impl Program {
    /// From the start of the first item to the end of the last one; `0..0` for
    /// a program without items.
    pub open spec fn spec_span(self) -> Span {
        if self.items@.len() == 0 {
            Span { start: 0, end: 0 }
        } else {
            Span {
                start: self.items@[0].spec_span().start,
                end: self.items@.last().spec_span().end,
            }
        }
    }

    pub fn span(&self) -> (s: Span)
        ensures
            s == self.spec_span(),
    {
        if self.items.len() == 0 {
            Span::new(0, 0)
        } else {
            let start = self.items[0].span().start;
            let end = self.items[self.items.len() - 1].span().end;
            Span::new(start, end)
        }
    }
}

} // verus!
