use vstd::prelude::*;

verus! {

/// A match of a pattern: the half-open range `start..end` of the input and the
/// symbols that lie within it.
#[derive(Debug, Clone, PartialEq, Eq, Hash)]
pub struct Match<T> {
    pub start: usize,
    pub end: usize,
    pub span: Vec<T>,
}

impl<T> Match<T> {
    /// Creates a match from its bounds and its span.
    pub fn new(start: usize, end: usize, span: Vec<T>) -> (m: Self)
        ensures
            m.start == start,
            m.end == end,
            m.span@ == span@,
    {
        Match { start, end, span }
    }

    /// The range `start..end` that the match covers.
    pub fn range(&self) -> (r: std::ops::Range<usize>)
        ensures
            r.start == self.start,
            r.end == self.end,
    {
        self.start..self.end
    }
}

} // verus!
