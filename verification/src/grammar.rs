use vstd::prelude::*;

use crate::seqs::{extend_unique, push_unique};

verus! {

/// A grammar symbol. Terminals and nonterminals are numbered; a nonterminal's
/// number is the index of its productions in `Grammar::rules`.
#[derive(Debug, Clone, Copy, PartialEq, Eq, Structural)]
pub enum Symbol {
    Terminal(usize),
    Nonterminal(usize),
}

/// The right-hand side of a production.
#[derive(Debug, Clone)]
pub struct Rhs {
    pub body: Vec<Symbol>,
}

impl Rhs {
    /// A right-hand side with the given body.
    pub fn noop(body: Vec<Symbol>) -> (r: Rhs)
        ensures
            r.body@ == body@,
    {
        Rhs { body }
    }
}

/// Why a set of rules does not form a grammar.
#[derive(Debug, Clone, Copy, PartialEq, Eq, Structural)]
pub enum GrammarError {
    /// The start symbol has no entry in the rules.
    UndefinedStart,
    /// A body names a nonterminal that has no entry in the rules.
    UndefinedNonterminal(usize),
}

/// A context-free grammar: `rules[n]` lists the productions of nonterminal
/// `n`, and `start` is the start symbol.
#[derive(Debug, Clone)]
pub struct Grammar {
    pub start: usize,
    pub rules: Vec<Vec<Rhs>>,
}

/// Whether the nonterminals that `body` names all have an entry among `n`
/// nonterminals.
pub open spec fn body_defined(body: Seq<Symbol>, n: nat) -> bool {
    forall|i: int| 0 <= i < body.len() ==> (#[trigger] body[i] matches Symbol::Nonterminal(m) ==> m < n)
}

/// Every position before position `i` of production `b` of `a`, in the
/// order of nonterminals, then productions, then positions, holds a
/// terminal or a nonterminal among the first `n`.
pub open spec fn defined_before(g: Grammar, a: int, b: int, i: int, n: nat) -> bool {
    &&& forall|x: int, r: int| 0 <= x < a && #[trigger] g.has_prod(x, r) ==> body_defined(g.body(x, r), n)
    &&& forall|r: int| 0 <= r < b ==> body_defined(#[trigger] g.body(a, r), n)
    &&& forall|j: int| 0 <= j < i ==> (#[trigger] g.body(a, b)[j] matches Symbol::Nonterminal(m) ==> m < n)
}

impl Grammar {
    /// The number of nonterminals.
    pub open spec fn num_nonterminals(self) -> nat {
        self.rules@.len()
    }

    /// The number of productions of nonterminal `n`.
    pub open spec fn num_prods(self, n: int) -> nat {
        self.rules@[n]@.len()
    }

    /// The body of production `r` of nonterminal `n`.
    pub open spec fn body(self, n: int, r: int) -> Seq<Symbol> {
        self.rules@[n]@[r].body@
    }

    /// Whether production `r` of nonterminal `n` exists.
    pub open spec fn has_prod(self, n: int, r: int) -> bool {
        0 <= n < self.num_nonterminals() && 0 <= r < self.num_prods(n)
    }

    /// The start symbol and every nonterminal of every body have an entry in
    /// the rules.
    pub open spec fn wf(self) -> bool {
        &&& self.start < self.num_nonterminals()
        &&& forall|n: int, r: int| #[trigger] self.has_prod(n, r) ==> body_defined(self.body(n, r), self.num_nonterminals())
    }

    /// Builds a grammar, checking that the start symbol and every nonterminal
    /// named in a body have an entry in the rules.
    pub fn new(start: usize, rules: Vec<Vec<Rhs>>) -> (r: Result<Grammar, GrammarError>)
        ensures
            r matches Ok(g) ==> g.wf() && g.start == start && g.rules@ == rules@,
            (r is Err) == !(Grammar { start, rules }).wf(),
            r == Err::<Grammar, GrammarError>(GrammarError::UndefinedStart) <==> start >= rules@.len(),
            r matches Err(GrammarError::UndefinedNonterminal(x)) ==> exists|a: int, b: int, i: int|
                #![trigger (Grammar { start, rules }).body(a, b)[i]]
                (Grammar { start, rules }).has_prod(a, b) && 0 <= i < (Grammar { start, rules }).body(a, b).len()
                    && (Grammar { start, rules }).body(a, b)[i] == Symbol::Nonterminal(x) && x >= rules@.len()
                    && defined_before(Grammar { start, rules }, a, b, i, rules@.len()),
    {
        if start >= rules.len() {
            return Err(GrammarError::UndefinedStart);
        }
        let g = Grammar { start, rules };
        let n = g.rules.len();
        for a in 0..n
            invariant
                n == g.num_nonterminals(),
                g == (Grammar { start, rules }),
                start < n,
                forall|x: int, r: int| 0 <= x < a && #[trigger] g.has_prod(x, r) ==> body_defined(g.body(x, r), n as nat),
        {
            let m = g.rules[a].len();
            for b in 0..m
                invariant
                    n == g.num_nonterminals(),
                    g == (Grammar { start, rules }),
                    start < n,
                    a < n,
                    m == g.num_prods(a as int),
                    forall|x: int, r: int| 0 <= x < a && #[trigger] g.has_prod(x, r) ==> body_defined(g.body(x, r), n as nat),
                    forall|r: int| 0 <= r < b ==> body_defined(#[trigger] g.body(a as int, r), n as nat),
            {
                let k = g.rules[a][b].body.len();
                for i in 0..k
                    invariant
                        n == g.num_nonterminals(),
                        g == (Grammar { start, rules }),
                        start < n,
                        a < n,
                        m == g.num_prods(a as int),
                        b < m,
                        k == g.body(a as int, b as int).len(),
                        forall|x: int, r: int| 0 <= x < a && #[trigger] g.has_prod(x, r) ==> body_defined(g.body(x, r), n as nat),
                        forall|r: int| 0 <= r < b ==> body_defined(#[trigger] g.body(a as int, r), n as nat),
                        forall|j: int| 0 <= j < i ==> (#[trigger] g.body(a as int, b as int)[j] matches Symbol::Nonterminal(x) ==> x < n),
                {
                    match g.rules[a][b].body[i] {
                        Symbol::Nonterminal(x) => {
                            if x >= n {
                                assert(g.has_prod(a as int, b as int));
                                assert(defined_before(g, a as int, b as int, i as int, n as nat));
                                assert(g.body(a as int, b as int)[i as int] == Symbol::Nonterminal(x));
                                return Err(GrammarError::UndefinedNonterminal(x));
                            }
                        },
                        Symbol::Terminal(_) => {},
                    }
                }
            }
        }
        Ok(g)
    }
}

/// The FIRST set of one nonterminal: the terminals that can begin a string
/// it derives, and whether it derives the empty string.
#[derive(Debug, Clone)]
pub struct FirstSet {
    pub terminals: Vec<usize>,
    pub nullable: bool,
}

/// The FIRST sets of the nonterminals of a grammar, indexed by nonterminal.
#[derive(Debug, Clone)]
pub struct FirstSets {
    pub sets: Vec<FirstSet>,
}

impl FirstSets {
    pub open spec fn terms(self, n: int) -> Set<usize> {
        self.sets@[n].terminals@.to_set()
    }

    pub open spec fn nullable(self, n: int) -> bool {
        self.sets@[n].nullable
    }

    /// One entry per nonterminal of `g`, no terminal listed twice.
    pub open spec fn wf(self, g: Grammar) -> bool {
        &&& self.sets@.len() == g.num_nonterminals()
        &&& forall|n: int| 0 <= n < self.sets@.len() ==> (#[trigger] self.sets@[n]).terminals@.no_duplicates()
    }
}

/// FIRST of a string of symbols, with the FIRST sets of the nonterminals
/// taken from `fs`: the terminals that can begin it, and whether it can be
/// empty.
pub open spec fn first_of(fs: FirstSets, beta: Seq<Symbol>) -> (Set<usize>, bool)
    decreases beta.len(),
{
    if beta.len() == 0 {
        (Set::empty(), true)
    } else {
        let prefix = first_of(fs, beta.drop_last());
        if !prefix.1 {
            prefix
        } else {
            match beta.last() {
                Symbol::Terminal(t) => (prefix.0.insert(t), false),
                Symbol::Nonterminal(n) => (prefix.0.union(fs.terms(n as int)), fs.nullable(n as int)),
            }
        }
    }
}

/// `fs` is closed under the productions of `g`: the FIRST of each body is
/// in the FIRST set of its nonterminal.
pub open spec fn first_closed(g: Grammar, fs: FirstSets) -> bool {
    &&& fs.sets@.len() == g.num_nonterminals()
    &&& forall|n: int, r: int| #[trigger] g.has_prod(n, r) ==> {
        &&& first_of(fs, g.body(n, r)).0.subset_of(fs.terms(n))
        &&& first_of(fs, g.body(n, r)).1 ==> fs.nullable(n)
    }
}

/// Every FIRST set of `a` is included in that of `b`.
pub open spec fn first_le(a: FirstSets, b: FirstSets, num: nat) -> bool {
    forall|n: int| 0 <= n < num ==> #[trigger] a.terms(n).subset_of(b.terms(n)) && (a.nullable(n) ==> b.nullable(n))
}

/// Larger FIRST sets give a larger FIRST of any string.
pub proof fn lemma_first_of_mono(a: FirstSets, b: FirstSets, num: nat, beta: Seq<Symbol>)
    requires
        first_le(a, b, num),
        body_defined(beta, num),
    ensures
        first_of(a, beta).0.subset_of(first_of(b, beta).0),
        first_of(a, beta).1 ==> first_of(b, beta).1,
    decreases beta.len(),
{
    if beta.len() > 0 {
        assert(body_defined(beta.drop_last(), num)) by {
            assert forall|i: int| 0 <= i < beta.drop_last().len() implies (#[trigger] beta.drop_last()[i] matches Symbol::Nonterminal(m) ==> m < num) by {
                assert(beta.drop_last()[i] == beta[i]);
            }
        }
        lemma_first_of_mono(a, b, num, beta.drop_last());
        let last = beta.last();
        assert(last == beta[beta.len() - 1]);
        if let Symbol::Nonterminal(n) = last {
            assert(a.terms(n as int).subset_of(b.terms(n as int)));
        }
    }
}

/// Once a prefix of `beta` cannot be empty, the rest of `beta` adds nothing
/// to its FIRST.
pub proof fn lemma_first_of_prefix(fs: FirstSets, beta: Seq<Symbol>, i: int)
    requires
        0 <= i <= beta.len(),
        !first_of(fs, beta.take(i)).1,
    ensures
        first_of(fs, beta) == first_of(fs, beta.take(i)),
    decreases beta.len() - i,
{
    if i < beta.len() {
        assert(beta.drop_last().take(i) =~= beta.take(i));
        lemma_first_of_prefix(fs, beta.drop_last(), i);
    } else {
        assert(beta.take(i) =~= beta);
    }
}

/// The FIRST of `beta.take(i + 1)` from that of `beta.take(i)`.
pub proof fn lemma_first_of_take(fs: FirstSets, beta: Seq<Symbol>, i: int)
    requires
        0 <= i < beta.len(),
    ensures
        first_of(fs, beta.take(i + 1)) == ({
            let prefix = first_of(fs, beta.take(i));
            if !prefix.1 {
                prefix
            } else {
                match beta[i] {
                    Symbol::Terminal(t) => (prefix.0.insert(t), false),
                    Symbol::Nonterminal(n) => (prefix.0.union(fs.terms(n as int)), fs.nullable(n as int)),
                }
            }
        }),
{
    assert(beta.take(i + 1).drop_last() =~= beta.take(i));
}

/// Computes FIRST of `body[from..]` with the FIRST sets `fs`.
pub fn first_of_body(fs: &FirstSets, body: &Vec<Symbol>, from: usize, num: usize) -> (r: (Vec<usize>, bool))
    requires
        fs.sets@.len() == num,
        body_defined(body@, num as nat),
        from <= body@.len(),
    ensures
        r.0@.no_duplicates(),
        r.0@.to_set() == first_of(*fs, body@.skip(from as int)).0,
        r.1 == first_of(*fs, body@.skip(from as int)).1,
{
    let ghost beta = body@.skip(from as int);
    let mut acc: Vec<usize> = Vec::new();
    let mut nullable = true;
    let mut i = from;
    assert(beta.take(0) =~= Seq::<Symbol>::empty());
    assert(acc@.to_set() =~= Set::<usize>::empty());
    while i < body.len() && nullable
        invariant
            fs.sets@.len() == num,
            body_defined(body@, num as nat),
            beta == body@.skip(from as int),
            from <= i <= body@.len(),
            acc@.no_duplicates(),
            acc@.to_set() == first_of(*fs, beta.take(i - from)).0,
            nullable == first_of(*fs, beta.take(i - from)).1,
        decreases body@.len() - i,
    {
        proof {
            lemma_first_of_take(*fs, beta, i - from);
            assert(beta[i - from] == body@[i as int]);
        }
        match body[i] {
            Symbol::Terminal(t) => {
                push_unique(&mut acc, t);
                nullable = false;
            },
            Symbol::Nonterminal(n) => {
                assert(n < num);
                extend_unique(&mut acc, &fs.sets[n].terminals);
                nullable = fs.sets[n].nullable;
            },
        }
        i += 1;
    }
    proof {
        if nullable {
            assert(beta.take(i - from) =~= beta);
        } else {
            lemma_first_of_prefix(*fs, beta, i - from);
        }
    }
    (acc, nullable)
}

/// Whether terminal `t` occurs in some body of `g`.
pub open spec fn occurs_terminal(g: Grammar, t: usize) -> bool {
    exists|n: int, r: int, i: int|
        g.has_prod(n, r) && 0 <= i < g.body(n, r).len() && #[trigger] g.body(n, r)[i] == Symbol::Terminal(t)
}

/// Both hold the same FIRST sets for the first `num` nonterminals.
pub open spec fn first_same(a: FirstSets, b: FirstSets, num: nat) -> bool {
    forall|n: int| 0 <= n < num ==> #[trigger] a.terms(n) == b.terms(n) && a.nullable(n) == b.nullable(n)
}

/// The size of the FIRST sets `s`: terminals listed, plus one per nullable
/// nonterminal.
pub open spec fn first_total(s: Seq<FirstSet>) -> nat
    decreases s.len(),
{
    if s.len() == 0 {
        0
    } else {
        first_total(s.drop_last()) + s.last().terminals@.len() + (if s.last().nullable {
            1nat
        } else {
            0nat
        })
    }
}

pub open spec fn first_entry_size(e: FirstSet) -> nat {
    e.terminals@.len() + (if e.nullable {
        1nat
    } else {
        0nat
    })
}

proof fn lemma_first_total_update(s: Seq<FirstSet>, n: int, x: FirstSet)
    requires
        0 <= n < s.len(),
    ensures
        first_total(s.update(n, x)) + first_entry_size(s[n]) == first_total(s) + first_entry_size(x),
    decreases s.len(),
{
    if n < s.len() - 1 {
        lemma_first_total_update(s.drop_last(), n, x);
        assert(s.update(n, x).drop_last() =~= s.drop_last().update(n, x));
    } else {
        assert(s.update(n, x).drop_last() =~= s.drop_last());
    }
}

proof fn lemma_first_total_bound(s: Seq<FirstSet>, k: nat)
    requires
        forall|n: int| 0 <= n < s.len() ==> first_entry_size(#[trigger] s[n]) <= k,
    ensures
        first_total(s) <= s.len() * k,
    decreases s.len(),
{
    if s.len() > 0 {
        lemma_first_total_bound(s.drop_last(), k);
        assert(first_entry_size(s[s.len() - 1]) <= k);
        assert((s.len() - 1) * k + k == s.len() * k) by (nonlinear_arith);
    }
}

/// Terminals of a string whose terminals and FIRST sets lie in `ts` lie
/// in `ts`.
pub proof fn lemma_first_of_within(fs: FirstSets, beta: Seq<Symbol>, ts: Set<usize>, num: nat)
    requires
        body_defined(beta, num),
        fs.sets@.len() == num,
        forall|n: int| 0 <= n < num ==> #[trigger] fs.terms(n).subset_of(ts),
        forall|i: int| 0 <= i < beta.len() ==> (#[trigger] beta[i] matches Symbol::Terminal(t) ==> ts.contains(t)),
    ensures
        first_of(fs, beta).0.subset_of(ts),
    decreases beta.len(),
{
    if beta.len() > 0 {
        let p = beta.drop_last();
        assert forall|i: int| 0 <= i < p.len() implies (#[trigger] p[i] matches Symbol::Nonterminal(m) ==> m < num) by {
            assert(p[i] == beta[i]);
        }
        assert forall|i: int| 0 <= i < p.len() implies (#[trigger] p[i] matches Symbol::Terminal(t) ==> ts.contains(t)) by {
            assert(p[i] == beta[i]);
        }
        lemma_first_of_within(fs, p, ts, num);
        assert(beta.last() == beta[beta.len() - 1]);
        match beta.last() {
            Symbol::Nonterminal(n) => {
                assert(n < num);
                assert(fs.terms(n as int).subset_of(ts));
            },
            Symbol::Terminal(t) => {
                assert(ts.contains(t));
            },
        }
    }
}

proof fn lemma_first_same(a: FirstSets, b: FirstSets, num: nat, beta: Seq<Symbol>)
    requires
        first_same(a, b, num),
        body_defined(beta, num),
    ensures
        first_of(a, beta) == first_of(b, beta),
{
    assert forall|n: int| 0 <= n < num implies #[trigger] a.terms(n).subset_of(b.terms(n)) && (a.nullable(n) ==> b.nullable(n)) by {
        assert(a.terms(n) == b.terms(n));
    }
    assert forall|n: int| 0 <= n < num implies #[trigger] b.terms(n).subset_of(a.terms(n)) && (b.nullable(n) ==> a.nullable(n)) by {
        assert(a.terms(n) == b.terms(n));
    }
    lemma_first_of_mono(a, b, num, beta);
    lemma_first_of_mono(b, a, num, beta);
    assert(first_of(a, beta).0 =~= first_of(b, beta).0);
}

impl Grammar {
    /// The terminals that occur in the bodies of the grammar, each once.
    pub fn terminals(&self) -> (ts: Vec<usize>)
        ensures
            ts@.no_duplicates(),
            forall|t: usize| ts@.contains(t) <==> occurs_terminal(*self, t),
    {
        let mut ts: Vec<usize> = Vec::new();
        let n = self.rules.len();
        for a in 0..n
            invariant
                n == self.num_nonterminals(),
                ts@.no_duplicates(),
                forall|t: usize| ts@.contains(t) ==> occurs_terminal(*self, t),
                forall|x: int, r: int, i: int|
                    0 <= x < a && self.has_prod(x, r) && 0 <= i < self.body(x, r).len()
                        ==> (#[trigger] self.body(x, r)[i] matches Symbol::Terminal(t) ==> ts@.contains(t)),
        {
            let m = self.rules[a].len();
            for b in 0..m
                invariant
                    n == self.num_nonterminals(),
                    a < n,
                    m == self.num_prods(a as int),
                    ts@.no_duplicates(),
                    forall|t: usize| ts@.contains(t) ==> occurs_terminal(*self, t),
                    forall|x: int, r: int, i: int|
                        0 <= x < a && self.has_prod(x, r) && 0 <= i < self.body(x, r).len()
                            ==> (#[trigger] self.body(x, r)[i] matches Symbol::Terminal(t) ==> ts@.contains(t)),
                    forall|r: int, i: int|
                        0 <= r < b && 0 <= i < self.body(a as int, r).len()
                            ==> (#[trigger] self.body(a as int, r)[i] matches Symbol::Terminal(t) ==> ts@.contains(t)),
            {
                let k = self.rules[a][b].body.len();
                for i in 0..k
                    invariant
                        n == self.num_nonterminals(),
                        a < n,
                        m == self.num_prods(a as int),
                        b < m,
                        k == self.body(a as int, b as int).len(),
                        ts@.no_duplicates(),
                        forall|t: usize| ts@.contains(t) ==> occurs_terminal(*self, t),
                        forall|x: int, r: int, i: int|
                            0 <= x < a && self.has_prod(x, r) && 0 <= i < self.body(x, r).len()
                                ==> (#[trigger] self.body(x, r)[i] matches Symbol::Terminal(t) ==> ts@.contains(t)),
                        forall|r: int, i: int|
                            0 <= r < b && 0 <= i < self.body(a as int, r).len()
                                ==> (#[trigger] self.body(a as int, r)[i] matches Symbol::Terminal(t) ==> ts@.contains(t)),
                        forall|j: int|
                            0 <= j < i ==> (#[trigger] self.body(a as int, b as int)[j] matches Symbol::Terminal(t) ==> ts@.contains(t)),
                {
                    if let Symbol::Terminal(t) = self.rules[a][b].body[i] {
                        assert(self.has_prod(a as int, b as int) && self.body(a as int, b as int)[i as int] == Symbol::Terminal(t));
                        let ghost before = ts@;
                        push_unique(&mut ts, t);
                        proof {
                            assert forall|u: usize| #[trigger] ts@.contains(u) == (before.contains(u) || u == t) by {
                                assert(ts@.to_set().contains(u) == ts@.contains(u));
                                assert(before.to_set().contains(u) == before.contains(u));
                            }
                        }
                    }
                }
            }
        }
        ts
    }
}

/// The FIRST of production `r` of `x` is within the FIRST set of `x`.
pub open spec fn first_closed_at(g: Grammar, fs: FirstSets, x: int, r: int) -> bool {
    &&& first_of(fs, g.body(x, r)).0.subset_of(fs.terms(x))
    &&& first_of(fs, g.body(x, r)).1 ==> fs.nullable(x)
}

/// What holds of the FIRST sets at every round of their computation.
pub open spec fn first_inv(g: Grammar, fs: FirstSets, ts: Set<usize>, k: nat) -> bool {
    &&& fs.wf(g)
    &&& forall|x: int| 0 <= x < g.num_nonterminals() ==> #[trigger] fs.terms(x).subset_of(ts)
    &&& forall|s: FirstSets| #[trigger] first_closed(g, s) ==> first_le(fs, s, g.num_nonterminals())
    &&& first_total(fs.sets@) <= g.num_nonterminals() * (k + 1)
}

proof fn lemma_first_entry_bound(fs: FirstSets, g: Grammar, ts: Set<usize>, k: nat)
    requires
        fs.wf(g),
        ts.finite(),
        ts.len() == k,
        forall|x: int| 0 <= x < g.num_nonterminals() ==> #[trigger] fs.terms(x).subset_of(ts),
    ensures
        forall|x: int| 0 <= x < fs.sets@.len() ==> first_entry_size(#[trigger] fs.sets@[x]) <= k + 1,
{
    assert forall|x: int| 0 <= x < fs.sets@.len() implies first_entry_size(#[trigger] fs.sets@[x]) <= k + 1 by {
        fs.sets@[x].terminals@.unique_seq_to_set();
        assert(fs.terms(x).subset_of(ts));
        vstd::set_lib::lemma_len_subset(fs.terms(x), ts);
    }
}

impl Grammar {
    /// Computes the FIRST sets of the nonterminals: the least sets closed
    /// under the productions.
    pub fn first_sets(&self) -> (fs: FirstSets)
        requires
            self.wf(),
        ensures
            fs.wf(*self),
            first_closed(*self, fs),
            forall|s: FirstSets| #[trigger] first_closed(*self, s) ==> first_le(fs, s, self.num_nonterminals()),
    {
        let n = self.rules.len();
        let tv = self.terminals();
        let ghost ts = tv@.to_set();
        let ghost k = tv@.len();
        proof {
            tv@.unique_seq_to_set();
        }
        let mut cur = FirstSets { sets: Vec::new() };
        for i in 0..n
            invariant
                cur.sets@.len() == i,
                forall|j: int| 0 <= j < i ==> (#[trigger] cur.sets@[j]).terminals@.len() == 0 && !cur.sets@[j].nullable,
        {
            cur.sets.push(FirstSet { terminals: Vec::new(), nullable: false });
        }
        proof {
            assert forall|x: int| 0 <= x < n implies #[trigger] cur.terms(x).subset_of(ts) by {
                assert(cur.terms(x) =~= Set::<usize>::empty());
            }
            assert forall|s: FirstSets| #[trigger] first_closed(*self, s) implies first_le(cur, s, n as nat) by {
                assert forall|x: int| 0 <= x < n implies #[trigger] cur.terms(x).subset_of(s.terms(x)) && (cur.nullable(x) ==> s.nullable(x)) by {
                    assert(cur.terms(x) =~= Set::<usize>::empty());
                }
            }
            lemma_first_entry_bound(cur, *self, ts, k);
            lemma_first_total_bound(cur.sets@, k + 1);
        }
        loop
            invariant_except_break
                self.wf(),
                n == self.num_nonterminals(),
                ts == tv@.to_set(),
                ts.finite(),
                ts.len() == k,
                forall|t: usize| ts.contains(t) <==> occurs_terminal(*self, t),
                first_inv(*self, cur, ts, k),
            ensures
                first_inv(*self, cur, ts, k),
                first_closed(*self, cur),
            decreases n * (k + 1) - first_total(cur.sets@),
        {
            let ghost start = cur;
            let mut changed = false;
            for a in 0..n
                invariant
                    self.wf(),
                    n == self.num_nonterminals(),
                    ts.finite(),
                    ts.len() == k,
                    forall|t: usize| ts.contains(t) <==> occurs_terminal(*self, t),
                    first_inv(*self, cur, ts, k),
                    first_inv(*self, start, ts, k),
                    !changed ==> first_same(cur, start, n as nat),
                    changed ==> first_total(cur.sets@) > first_total(start.sets@),
                    first_total(cur.sets@) >= first_total(start.sets@),
                    !changed ==> forall|x: int, r: int| 0 <= x < a && #[trigger] self.has_prod(x, r) ==> first_closed_at(*self, cur, x, r),
            {
                let m = self.rules[a].len();
                for b in 0..m
                    invariant
                        self.wf(),
                        n == self.num_nonterminals(),
                        a < n,
                        m == self.num_prods(a as int),
                        ts.finite(),
                        ts.len() == k,
                        forall|t: usize| ts.contains(t) <==> occurs_terminal(*self, t),
                        first_inv(*self, cur, ts, k),
                        first_inv(*self, start, ts, k),
                        !changed ==> first_same(cur, start, n as nat),
                        changed ==> first_total(cur.sets@) > first_total(start.sets@),
                        first_total(cur.sets@) >= first_total(start.sets@),
                        !changed ==> forall|x: int, r: int| 0 <= x < a && #[trigger] self.has_prod(x, r) ==> first_closed_at(*self, cur, x, r),
                        !changed ==> forall|r: int| 0 <= r < b ==> first_closed_at(*self, cur, a as int, r),
                {
                    let ghost before = cur;
                    assert(self.has_prod(a as int, b as int));
                    assert(self.rules[a as int][b as int].body@.skip(0) =~= self.body(a as int, b as int));
                    let (f, nl) = first_of_body(&cur, &self.rules[a][b].body, 0, n);
                    let ghost body = self.body(a as int, b as int);
                    proof {
                        assert forall|i: int| 0 <= i < body.len() implies (#[trigger] body[i] matches Symbol::Terminal(t) ==> ts.contains(t)) by {
                            if let Symbol::Terminal(t) = body[i] {
                                assert(occurs_terminal(*self, t));
                            }
                        }
                        lemma_first_of_within(cur, body, ts, n as nat);
                    }
                    let mut entry = FirstSet { terminals: Vec::new(), nullable: false };
                    cur.sets.set_and_swap(a, &mut entry);
                    let ghost old_entry = entry;
                    let old_len = entry.terminals.len();
                    extend_unique(&mut entry.terminals, &f);
                    let mut grew = entry.terminals.len() > old_len;
                    if nl && !entry.nullable {
                        entry.nullable = true;
                        grew = true;
                    }
                    cur.sets.set_and_swap(a, &mut entry);
                    proof {
                        assert(old_entry == before.sets@[a as int]);
                        assert(cur.sets@ == before.sets@.update(a as int, cur.sets@[a as int]));
                        let e = cur.sets@[a as int];
                        assert(e.terminals@.to_set() == before.terms(a as int).union(first_of(before, body).0));
                        assert(e.nullable == (before.nullable(a as int) || first_of(before, body).1));
                        lemma_first_total_update(before.sets@, a as int, e);
                        assert forall|x: int| 0 <= x < n implies #[trigger] cur.terms(x) == (if x == a {
                            before.terms(x).union(first_of(before, body).0)
                        } else {
                            before.terms(x)
                        }) && cur.nullable(x) == (if x == a {
                            before.nullable(x) || first_of(before, body).1
                        } else {
                            before.nullable(x)
                        }) by {}
                        // well-formed, within the terminals
                        assert forall|x: int| 0 <= x < n implies (#[trigger] cur.sets@[x]).terminals@.no_duplicates() by {}
                        assert forall|x: int| 0 <= x < n implies #[trigger] cur.terms(x).subset_of(ts) by {
                            assert(before.terms(x).subset_of(ts));
                        }
                        // still below every closed assignment
                        assert forall|s: FirstSets| #[trigger] first_closed(*self, s) implies first_le(cur, s, n as nat) by {
                            assert(first_le(before, s, n as nat));
                            lemma_first_of_mono(before, s, n as nat, body);
                            assert(self.has_prod(a as int, b as int));
                            assert(first_of(s, body).0.subset_of(s.terms(a as int)));
                            assert(first_of(s, body).1 ==> s.nullable(a as int));
                            assert forall|x: int| 0 <= x < n implies #[trigger] cur.terms(x).subset_of(s.terms(x)) && (cur.nullable(x) ==> s.nullable(x)) by {
                                assert(before.terms(x).subset_of(s.terms(x)));
                                assert(before.nullable(x) ==> s.nullable(x));
                                if x == a {
                                    assert forall|t: usize| cur.terms(x).contains(t) implies s.terms(x).contains(t) by {
                                        if first_of(before, body).0.contains(t) {
                                            assert(first_of(s, body).0.contains(t));
                                        }
                                    }
                                    assert(cur.nullable(x) ==> s.nullable(x));
                                }
                            }
                            assert(first_le(cur, s, n as nat));
                        }
                        lemma_first_entry_bound(cur, *self, ts, k);
                        lemma_first_total_bound(cur.sets@, k + 1);
                        if !grew {
                            assert(e.terminals@ == old_entry.terminals@);
                            assert(first_same(cur, before, n as nat)) by {
                                assert forall|x: int| 0 <= x < n implies #[trigger] cur.terms(x) == before.terms(x) && cur.nullable(x) == before.nullable(x) by {}
                            }
                            assert(first_of(before, body).0.subset_of(before.terms(a as int)));
                            lemma_first_same(cur, before, n as nat, body);
                            assert forall|x: int, r: int| #[trigger] self.has_prod(x, r) && first_closed_at(*self, before, x, r) implies first_closed_at(*self, cur, x, r) by {
                                lemma_first_same(cur, before, n as nat, self.body(x, r));
                            }
                            assert(first_closed_at(*self, cur, a as int, b as int));
                            if !changed {
                                assert forall|r: int| 0 <= r <= b implies first_closed_at(*self, cur, a as int, r) by {
                                    assert(self.has_prod(a as int, r));
                                }
                            }
                            if !changed {
                                assert(first_same(cur, start, n as nat)) by {
                                    assert forall|x: int| 0 <= x < n implies #[trigger] cur.terms(x) == start.terms(x) && cur.nullable(x) == start.nullable(x) by {
                                        assert(before.terms(x) == start.terms(x));
                                    }
                                }
                            }
                        } else {
                            assert(first_total(cur.sets@) > first_total(before.sets@));
                        }
                    }
                    if grew {
                        changed = true;
                    }
                }
            }
            if !changed {
                proof {
                    assert forall|x: int, r: int| #[trigger] self.has_prod(x, r) implies first_of(cur, self.body(x, r)).0.subset_of(cur.terms(x)) && (first_of(cur, self.body(x, r)).1 ==> cur.nullable(x)) by {
                        assert(first_closed_at(*self, cur, x, r));
                    }
                }
                break;
            }
        }
        cur
    }
}

} // verus!
