use vstd::prelude::*;

verus! {

/// The largest Unicode scalar value.
pub const MAX_CODE_POINT: u32 = 0x10FFFF;

/// An inclusive range `start..=end` of Unicode code points.
#[derive(Debug, Clone, Copy, PartialEq, Eq, Structural)]
pub struct CharRange {
    pub start: u32,
    pub end: u32,
}

/// Whether the code point `k` lies in the range `r`.
pub open spec fn range_has(r: CharRange, k: u32) -> bool {
    r.start <= k <= r.end
}

/// Whether some range of `s` holds the code point `k`.
pub open spec fn ranges_have(s: Seq<CharRange>, k: u32) -> bool {
    exists|i: int| 0 <= i < s.len() && #[trigger] range_has(s[i], k)
}


/// Every character is a code point no larger than `MAX_CODE_POINT`.
pub proof fn lemma_char_bound(c: char)
    ensures
        c as u32 <= MAX_CODE_POINT,
{
}

/// A code point lies in `s.push(r)` iff it lies in `s` or in `r`.
pub proof fn lemma_ranges_have_push(s: Seq<CharRange>, r: CharRange, k: u32)
    ensures
        ranges_have(s.push(r), k) <==> (ranges_have(s, k) || range_has(r, k)),
{
    let t = s.push(r);
    if ranges_have(t, k) {
        let i = choose|i: int| 0 <= i < t.len() && #[trigger] range_has(t[i], k);
        if i < s.len() {
            assert(range_has(s[i], k));
        }
    }
    if ranges_have(s, k) {
        let i = choose|i: int| 0 <= i < s.len() && #[trigger] range_has(s[i], k);
        assert(range_has(t[i], k));
    }
    if range_has(r, k) {
        assert(range_has(t[s.len() as int], k));
    }
}

/// A code point lies in `a + b` iff it lies in `a` or in `b`.
pub proof fn lemma_ranges_have_concat(a: Seq<CharRange>, b: Seq<CharRange>, k: u32)
    ensures
        ranges_have(a + b, k) <==> (ranges_have(a, k) || ranges_have(b, k)),
    decreases b.len(),
{
    if b.len() == 0 {
        assert(a + b == a);
        assert(!ranges_have(b, k));
    } else {
        let b0 = b.drop_last();
        lemma_ranges_have_concat(a, b0, k);
        assert(a + b == (a + b0).push(b.last()));
        assert(b == b0.push(b.last()));
        lemma_ranges_have_push(a + b0, b.last(), k);
        lemma_ranges_have_push(b0, b.last(), k);
    }
}

impl CharRange {
    /// The range of all characters from `start` to `end`, both included.
    pub fn new(start: char, end: char) -> (r: CharRange)
        ensures
            r.start == start as u32,
            r.end == end as u32,
    {
        CharRange { start: start as u32, end: end as u32 }
    }

    /// The range that holds the one character `c`.
    pub fn new_single(c: char) -> (r: CharRange)
        ensures
            r.start == c as u32,
            r.end == c as u32,
            forall|k: u32| range_has(r, k) <==> k == c as u32,
    {
        CharRange { start: c as u32, end: c as u32 }
    }
}

/// A set of characters, held as a list of code-point ranges.
#[derive(Debug, Clone)]
pub struct CharClass {
    pub ranges: Vec<CharRange>,
}

impl CharClass {
    /// Whether the class holds the code point `k`.
    pub open spec fn has(self, k: u32) -> bool {
        ranges_have(self.ranges@, k)
    }

    /// The characters of the class.
    pub open spec fn chars(self) -> Set<char> {
        Set::new(|c: char| self.has(c as u32))
    }

    /// The empty class.
    pub fn new() -> (cc: CharClass)
        ensures
            cc.ranges@ == Seq::<CharRange>::empty(),
            forall|k: u32| !cc.has(k),
    {
        CharClass { ranges: Vec::new() }
    }

    /// The class of the one character `c`.
    pub fn new_single(c: char) -> (cc: CharClass)
        ensures
            cc.ranges@ == seq![CharRange { start: c as u32, end: c as u32 }],
            forall|k: u32| cc.has(k) <==> k == c as u32,
    {
        let mut ranges = Vec::new();
        ranges.push(CharRange::new_single(c));
        let cc = CharClass { ranges };
        assert forall|k: u32| cc.has(k) <==> k == c as u32 by {
            if k == c as u32 {
                assert(range_has(cc.ranges@[0], k));
            }
        }
        cc
    }

    /// Adds the range `r` to the class.
    pub fn add_range(&mut self, r: CharRange)
        ensures
            final(self).ranges@ == old(self).ranges@.push(r),
            forall|k: u32| #[trigger] final(self).has(k) <==> (old(self).has(k) || range_has(r, k)),
    {
        let ghost before = self.ranges@;
        self.ranges.push(r);
        proof {
            assert forall|k: u32| self.has(k) <==> (ranges_have(before, k) || range_has(r, k)) by {
                lemma_ranges_have_push(before, r, k);
            }
        }
    }

    /// Adds every range of `src` to `dst`.
    pub fn copy_into(dst: &mut CharClass, src: &CharClass)
        ensures
            final(dst).ranges@ == old(dst).ranges@ + src.ranges@,
            forall|k: u32| #[trigger] final(dst).has(k) <==> (old(dst).has(k) || src.has(k)),
    {
        let n = src.ranges.len();
        for i in 0..n
            invariant
                n == src.ranges@.len(),
                dst.ranges@ == old(dst).ranges@ + src.ranges@.subrange(0, i as int),
        {
            let r = src.ranges[i];
            dst.add_range(r);
            assert(src.ranges@.subrange(0, i + 1) == src.ranges@.subrange(0, i as int).push(r));
        }
        assert(src.ranges@.subrange(0, n as int) == src.ranges@);
        assert forall|k: u32| #[trigger] dst.has(k) <==> (old(dst).has(k) || src.has(k)) by {
            lemma_ranges_have_concat(old(dst).ranges@, src.ranges@, k);
        }
    }

    /// A class with the same ranges as `self`.
    pub fn copy(&self) -> (cc: CharClass)
        ensures
            cc.ranges@ == self.ranges@,
    {
        let mut ranges: Vec<CharRange> = Vec::new();
        let n = self.ranges.len();
        for i in 0..n
            invariant
                n == self.ranges@.len(),
                ranges@ == self.ranges@.subrange(0, i as int),
        {
            ranges.push(self.ranges[i]);
            assert(ranges@ =~= self.ranges@.subrange(0, i + 1));
        }
        assert(ranges@ =~= self.ranges@);
        CharClass { ranges }
    }

    /// The class of every character that `self` does not hold.
    pub fn complement(&self) -> (cc: CharClass)
        ensures
            forall|k: u32| cc.has(k) <==> (k <= MAX_CODE_POINT && !self.has(k)),
            forall|c: char| cc.chars().contains(c) <==> !self.chars().contains(c),
    {
        let mut pieces: Vec<CharRange> = Vec::new();
        pieces.push(CharRange { start: 0, end: MAX_CODE_POINT });
        proof {
            assert forall|k: u32| ranges_have(pieces@, k) <==> k <= MAX_CODE_POINT by {
                if k <= MAX_CODE_POINT {
                    assert(range_has(pieces@[0], k));
                }
            }
        }
        let n = self.ranges.len();
        for i in 0..n
            invariant
                n == self.ranges@.len(),
                forall|j: int| 0 <= j < pieces@.len() ==> pieces@[j].end <= MAX_CODE_POINT,
                forall|k: u32|
                    #[trigger] ranges_have(pieces@, k) <==> (k <= MAX_CODE_POINT && !ranges_have(
                        self.ranges@.subrange(0, i as int),
                        k,
                    )),
        {
            let r = self.ranges[i];
            let mut next: Vec<CharRange> = Vec::new();
            let m = pieces.len();
            for j in 0..m
                invariant
                    m == pieces@.len(),
                    forall|x: int| 0 <= x < pieces@.len() ==> pieces@[x].end <= MAX_CODE_POINT,
                    forall|x: int| 0 <= x < next@.len() ==> next@[x].end <= MAX_CODE_POINT,
                    forall|k: u32|
                        #[trigger] ranges_have(next@, k) <==> (ranges_have(pieces@.subrange(0, j as int), k)
                            && !range_has(r, k)),
            {
                let p = pieces[j];
                let ghost before = next@;
                if r.start > r.end || r.end < p.start || r.start > p.end {
                    next.push(p);
                    proof {
                        assert forall|k: u32| ranges_have(next@, k) <==> (ranges_have(before, k) || (range_has(p, k) && !range_has(r, k))) by {
                            lemma_ranges_have_push(before, p, k);
                        }
                    }
                } else {
                    let ghost mid = next@;
                    if p.start < r.start {
                        next.push(CharRange { start: p.start, end: r.start - 1 });
                    }
                    proof {
                        assert forall|k: u32| #[trigger] ranges_have(next@, k) <==> (ranges_have(before, k) || (p.start <= k < r.start)) by {
                            if p.start < r.start {
                                lemma_ranges_have_push(before, CharRange { start: p.start, end: (r.start - 1) as u32 }, k);
                            }
                        }
                    }
                    let ghost mid2 = next@;
                    if r.end < p.end {
                        next.push(CharRange { start: r.end + 1, end: p.end });
                    }
                    proof {
                        assert forall|k: u32| ranges_have(next@, k) <==> (ranges_have(before, k) || (range_has(p, k) && !range_has(r, k))) by {
                            assert(ranges_have(mid2, k) <==> (ranges_have(before, k) || (p.start <= k < r.start)));
                            if r.end < p.end {
                                lemma_ranges_have_push(mid2, CharRange { start: (r.end + 1) as u32, end: p.end }, k);
                            }
                        }
                    }
                }
                proof {
                    let pre = pieces@.subrange(0, j as int);
                    let post = pieces@.subrange(0, j + 1);
                    assert(post == pre.push(p));
                    assert forall|k: u32|
                        ranges_have(next@, k) <==> (ranges_have(post, k) && !range_has(r, k)) by {
                        lemma_ranges_have_push(pre, p, k);
                    }
                }
            }
            proof {
                assert(pieces@.subrange(0, m as int) == pieces@);
                let pre = self.ranges@.subrange(0, i as int);
                let post = self.ranges@.subrange(0, i + 1);
                assert(post == pre.push(r));
                assert forall|k: u32| ranges_have(post, k) <==> (ranges_have(pre, k) || range_has(r, k))
                    by {
                    lemma_ranges_have_push(pre, r, k);
                }
            }
            pieces = next;
        }
        assert(self.ranges@.subrange(0, n as int) == self.ranges@);
        let cc = CharClass { ranges: pieces };
        proof {
            assert forall|c: char| cc.chars().contains(c) <==> !self.chars().contains(c) by {
                lemma_char_bound(c);
            }
        }
        cc
    }

    /// Every character but the newline `\n`.
    pub fn all_but_newline() -> (cc: CharClass)
        ensures
            forall|k: u32| cc.has(k) <==> (k <= MAX_CODE_POINT && k != 0x0A),
    {
        let mut cc = CharClass::new();
        let ghost c0 = cc;
        cc.add_range(CharRange { start: 0, end: 0x09 });
        let ghost c1 = cc;
        assert(forall|k: u32| c1.has(k) <==> (c0.has(k) || 0 <= k <= 0x09));
        cc.add_range(CharRange { start: 0x0B, end: MAX_CODE_POINT });
        assert(forall|k: u32| cc.has(k) <==> (c1.has(k) || 0x0B <= k <= MAX_CODE_POINT));
        cc
    }

    /// The decimal digits `0` to `9`.
    pub fn decimal_number() -> (cc: CharClass)
        ensures
            forall|k: u32| cc.has(k) <==> (0x30 <= k <= 0x39),
    {
        let mut cc = CharClass::new();
        let ghost c0 = cc;
        cc.add_range(CharRange::new('0', '9'));
        assert(forall|k: u32| cc.has(k) <==> (c0.has(k) || 0x30 <= k <= 0x39));
        cc
    }

    /// The word characters: ASCII letters, the decimal digits and `_`.
    pub fn word() -> (cc: CharClass)
        ensures
            forall|k: u32|
                cc.has(k) <==> ((0x30 <= k <= 0x39) || (0x41 <= k <= 0x5A) || k == 0x5F || (0x61
                    <= k <= 0x7A)),
    {
        let mut cc = CharClass::new();
        let ghost c0 = cc;
        cc.add_range(CharRange::new('0', '9'));
        let ghost c1 = cc;
        assert(forall|k: u32| c1.has(k) <==> (c0.has(k) || 0x30 <= k <= 0x39));
        cc.add_range(CharRange::new('A', 'Z'));
        let ghost c2 = cc;
        assert(forall|k: u32| c2.has(k) <==> (c1.has(k) || 0x41 <= k <= 0x5A));
        cc.add_range(CharRange::new_single('_'));
        let ghost c3 = cc;
        assert(forall|k: u32| c3.has(k) <==> (c2.has(k) || k == 0x5F));
        cc.add_range(CharRange::new('a', 'z'));
        assert(forall|k: u32| cc.has(k) <==> (c3.has(k) || 0x61 <= k <= 0x7A));
        cc
    }

    /// The ASCII white space: space, tab, line feed, vertical tab, form feed and
    /// carriage return.
    pub fn whitespace() -> (cc: CharClass)
        ensures
            forall|k: u32| cc.has(k) <==> (k == 0x20 || (0x09 <= k <= 0x0D)),
    {
        let mut cc = CharClass::new();
        let ghost c0 = cc;
        cc.add_range(CharRange::new_single(' '));
        let ghost c1 = cc;
        assert(forall|k: u32| c1.has(k) <==> (c0.has(k) || k == 0x20));
        cc.add_range(CharRange::new('\t', '\r'));
        assert(forall|k: u32| cc.has(k) <==> (c1.has(k) || 0x09 <= k <= 0x0D));
        cc
    }
}

} // verus!
