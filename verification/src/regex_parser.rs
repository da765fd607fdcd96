use vstd::prelude::*;

use crate::class::{CharClass, CharRange, MAX_CODE_POINT, range_has, ranges_have, lemma_ranges_have_concat};

verus! {

/// Operators of the regular-expression grammar, as they stand on the
/// operator stack of the shift-reduce parser.
#[derive(Debug, Clone, Copy, PartialEq, Eq, Structural)]
pub enum Operator {
    Union,
    Concatenation,
    KleeneStar,
    Plus,
    Optional,
    LeftParen,
    EmptyPlaceholder,
}

/// Errors that the parser itself detects.
#[derive(Debug, Clone, Copy, PartialEq, Eq, Structural)]
pub enum ParseError {
    UnbalancedOperators,
    UnbalancedParentheses,
    EmptyCharacterClass,
}

impl ParseError {
    /// The message that describes the error.
    pub fn message(&self) -> (s: &'static str)
        ensures
            *self == ParseError::UnbalancedOperators ==> s@ == "unbalanced operators"@,
            *self == ParseError::UnbalancedParentheses ==> s@ == "unbalanced parentheses"@,
            *self == ParseError::EmptyCharacterClass ==> s@ == "empty character class"@,
    {
        match self {
            ParseError::UnbalancedOperators => "unbalanced operators",
            ParseError::UnbalancedParentheses => "unbalanced parentheses",
            ParseError::EmptyCharacterClass => "empty character class",
        }
    }
}

/// Whether an operator `last` on top of the stack is reduced before the
/// operator `op` is pushed: the precedence table of the grammar.
///
/// An operator is reduced before another of its own kind (but a left
/// parenthesis never is); the postfix operators `*`, `+` and `?` bind
/// tighter than concatenation, union and a left parenthesis, and
/// concatenation binds tighter than union.
pub open spec fn binds_tighter(last: Operator, op: Operator) -> bool {
    if last == op && last != Operator::LeftParen {
        true
    } else {
        match op {
            Operator::Union => last == Operator::Concatenation || last == Operator::KleeneStar
                || last == Operator::Plus || last == Operator::Optional,
            Operator::Concatenation => last == Operator::KleeneStar || last == Operator::Plus
                || last == Operator::Optional,
            Operator::LeftParen => last == Operator::KleeneStar || last == Operator::Plus
                || last == Operator::Optional,
            _ => false,
        }
    }
}

/// The predefined classes that a backslash escape names.
#[derive(Debug, Clone, Copy, PartialEq, Eq, Structural)]
pub enum SpecialClass {
    /// `\d`
    Digit,
    /// `\D`
    NonDigit,
    /// `\w`
    Word,
    /// `\W`
    NonWord,
    /// `\n`
    Newline,
    /// `\s`
    Space,
    /// `\S`
    NonSpace,
}

/// What the parser does with one character of the expression.
#[derive(Debug, Clone, Copy, PartialEq, Eq, Structural)]
pub enum CharAction {
    /// Shift the character as a one-character class.
    Literal(char),
    /// Add the character to the character class being read.
    Append(char),
    Union,
    KleeneStar,
    Plus,
    Optional,
    LeftParen,
    RightParen,
    /// `[`: start reading a character class.
    OpenClass,
    /// `]`: finish the character class being read and shift it.
    CloseClass,
    /// `^` first in a character class: negate the class.
    NegateClass,
    /// `\`: escape the next character.
    Escape,
    /// `.`: shift the class of every character but the newline.
    Dot,
    /// A predefined class named by a backslash escape.
    Special(SpecialClass),
}

/// The predefined class that `\c` names, if any.
pub open spec fn special_of(c: char) -> Option<SpecialClass> {
    if c == 'd' {
        Some(SpecialClass::Digit)
    } else if c == 'D' {
        Some(SpecialClass::NonDigit)
    } else if c == 'w' {
        Some(SpecialClass::Word)
    } else if c == 'W' {
        Some(SpecialClass::NonWord)
    } else if c == 'n' {
        Some(SpecialClass::Newline)
    } else if c == 's' {
        Some(SpecialClass::Space)
    } else if c == 'S' {
        Some(SpecialClass::NonSpace)
    } else {
        None
    }
}

/// The operator that an unescaped metacharacter outside a class stands for.
pub open spec fn operator_action(c: char) -> Option<CharAction> {
    if c == '|' {
        Some(CharAction::Union)
    } else if c == '*' {
        Some(CharAction::KleeneStar)
    } else if c == '+' {
        Some(CharAction::Plus)
    } else if c == '?' {
        Some(CharAction::Optional)
    } else if c == '(' {
        Some(CharAction::LeftParen)
    } else if c == ')' {
        Some(CharAction::RightParen)
    } else {
        None
    }
}

/// How the character `c` is read, given whether the previous character was
/// an unconsumed backslash (`escaped`), whether a character class is being
/// read (`in_class`) and whether that class is still empty (`class_empty`);
/// the second component is whether the next character is escaped.
///
/// An escaped character is literal (added to the class inside brackets),
/// except the escapes of predefined classes; a `[` inside a class leaves a
/// pending escape in place. Outside a class, `| * + ? ( )` are operators,
/// `[` opens a class, `.` is any character but the newline, and `^` and `]`
/// are literal. Inside a class every character is added to it, but `]`
/// closes it, `\` escapes, and a `^` first in it negates it.
pub open spec fn spec_char_action(c: char, escaped: bool, in_class: bool, class_empty: bool) -> (
    CharAction,
    bool,
) {
    if c == '\\' {
        if escaped {
            (CharAction::Literal(c), false)
        } else {
            (CharAction::Escape, true)
        }
    } else if c == '[' {
        if in_class {
            (CharAction::Append(c), escaped)
        } else if escaped {
            (CharAction::Literal(c), false)
        } else {
            (CharAction::OpenClass, false)
        }
    } else if escaped {
        if special_of(c) is Some {
            (CharAction::Special(special_of(c).unwrap()), false)
        } else if in_class {
            (CharAction::Append(c), false)
        } else {
            (CharAction::Literal(c), false)
        }
    } else if in_class {
        if c == ']' {
            (CharAction::CloseClass, false)
        } else if c == '^' && class_empty {
            (CharAction::NegateClass, false)
        } else {
            (CharAction::Append(c), false)
        }
    } else if operator_action(c) is Some {
        (operator_action(c).unwrap(), false)
    } else if c == '.' {
        (CharAction::Dot, false)
    } else {
        (CharAction::Literal(c), false)
    }
}

/// Decides how the character `c` is read (see `spec_char_action`).
pub fn char_action(c: char, escaped: bool, in_class: bool, class_empty: bool) -> (r: (
    CharAction,
    bool,
))
    ensures
        r == spec_char_action(c, escaped, in_class, class_empty),
{
    if c == '\\' {
        if escaped {
            (CharAction::Literal(c), false)
        } else {
            (CharAction::Escape, true)
        }
    } else if c == '[' {
        if in_class {
            (CharAction::Append(c), escaped)
        } else if escaped {
            (CharAction::Literal(c), false)
        } else {
            (CharAction::OpenClass, false)
        }
    } else if escaped {
        let special = if c == 'd' {
            Some(SpecialClass::Digit)
        } else if c == 'D' {
            Some(SpecialClass::NonDigit)
        } else if c == 'w' {
            Some(SpecialClass::Word)
        } else if c == 'W' {
            Some(SpecialClass::NonWord)
        } else if c == 'n' {
            Some(SpecialClass::Newline)
        } else if c == 's' {
            Some(SpecialClass::Space)
        } else if c == 'S' {
            Some(SpecialClass::NonSpace)
        } else {
            None
        };
        match special {
            Some(kind) => (CharAction::Special(kind), false),
            None => {
                if in_class {
                    (CharAction::Append(c), false)
                } else {
                    (CharAction::Literal(c), false)
                }
            },
        }
    } else if in_class {
        if c == ']' {
            (CharAction::CloseClass, false)
        } else if c == '^' && class_empty {
            (CharAction::NegateClass, false)
        } else {
            (CharAction::Append(c), false)
        }
    } else if c == '|' {
        (CharAction::Union, false)
    } else if c == '*' {
        (CharAction::KleeneStar, false)
    } else if c == '+' {
        (CharAction::Plus, false)
    } else if c == '?' {
        (CharAction::Optional, false)
    } else if c == '(' {
        (CharAction::LeftParen, false)
    } else if c == ')' {
        (CharAction::RightParen, false)
    } else if c == '.' {
        (CharAction::Dot, false)
    } else {
        (CharAction::Literal(c), false)
    }
}


/// Decides whether an operator `last` on top of the stack is reduced before
/// `op` is pushed (see `binds_tighter`).
pub fn reduces_before(last: Operator, op: Operator) -> (r: bool)
    ensures
        r == binds_tighter(last, op),
{
    if last == op && last != Operator::LeftParen {
        true
    } else if op == Operator::Union {
        last == Operator::Concatenation || last == Operator::KleeneStar || last == Operator::Plus
            || last == Operator::Optional
    } else if op == Operator::Concatenation {
        last == Operator::KleeneStar || last == Operator::Plus || last == Operator::Optional
    } else if op == Operator::KleeneStar || op == Operator::Plus || op == Operator::Optional {
        false
    } else if op == Operator::LeftParen {
        last == Operator::KleeneStar || last == Operator::Plus || last == Operator::Optional
    } else {
        false
    }
}

/// A call that the parser makes of its user's actions, recorded in order.
pub enum ParseEvent {
    /// A shift of a class that holds these code points.
    Shift(Set<u32>),
    /// A reduction with this operator on top of the operator stack.
    Reduce(Operator),
}

/// Whether one reduction happens before `op` is pushed onto `ops`.
pub open spec fn reduces_once(ops: Seq<Operator>, op: Operator) -> bool {
    ops.len() > 0 && binds_tighter(ops.last(), op)
}

/// The operator stack after at most one reduction before `op`.
pub open spec fn after_once(ops: Seq<Operator>, op: Operator) -> Seq<Operator> {
    if reduces_once(ops, op) {
        ops.drop_last()
    } else {
        ops
    }
}

/// The reductions recorded by at most one reduction before `op`.
pub open spec fn once_events(ops: Seq<Operator>, op: Operator) -> Seq<ParseEvent> {
    if reduces_once(ops, op) {
        seq![ParseEvent::Reduce(ops.last())]
    } else {
        Seq::empty()
    }
}

/// How many operators on top of `ops` bind tighter than a concatenation,
/// one after the other: the reductions made before a concatenation.
pub open spec fn concat_run(ops: Seq<Operator>) -> nat
    decreases ops.len(),
{
    if ops.len() > 0 && binds_tighter(ops.last(), Operator::Concatenation) {
        1 + concat_run(ops.drop_last())
    } else {
        0
    }
}

/// How many operators on top of `ops` are not a left parenthesis.
pub open spec fn paren_run(ops: Seq<Operator>) -> nat
    decreases ops.len(),
{
    if ops.len() > 0 && ops.last() != Operator::LeftParen {
        1 + paren_run(ops.drop_last())
    } else {
        0
    }
}

/// The events of reducing the `k` operators on top of `ops`, topmost first.
pub open spec fn reduce_events(ops: Seq<Operator>, k: nat) -> Seq<ParseEvent>
    decreases k,
{
    if k == 0 || ops.len() == 0 {
        Seq::empty()
    } else {
        seq![ParseEvent::Reduce(ops.last())] + reduce_events(ops.drop_last(), (k - 1) as nat)
    }
}

proof fn lemma_concat_run_bound(ops: Seq<Operator>)
    ensures
        concat_run(ops) <= ops.len(),
    decreases ops.len(),
{
    if ops.len() > 0 && binds_tighter(ops.last(), Operator::Concatenation) {
        lemma_concat_run_bound(ops.drop_last());
    }
}

proof fn lemma_paren_run_bound(ops: Seq<Operator>)
    ensures
        paren_run(ops) <= ops.len(),
        paren_run(ops) < ops.len() ==> ops[ops.len() - 1 - paren_run(ops)] == Operator::LeftParen,
        paren_run(ops) == ops.len() ==> forall|i: int| 0 <= i < ops.len() ==> ops[i] != Operator::LeftParen,
    decreases ops.len(),
{
    if ops.len() > 0 && ops.last() != Operator::LeftParen {
        lemma_paren_run_bound(ops.drop_last());
        if paren_run(ops) == ops.len() {
            assert forall|i: int| 0 <= i < ops.len() implies ops[i] != Operator::LeftParen by {
                if i < ops.len() - 1 {
                    assert(ops.drop_last()[i] == ops[i]);
                }
            }
        }
    }
}


/// The operator stack after the reductions made before a concatenation.
pub open spec fn concat_strip(ops: Seq<Operator>) -> Seq<Operator> {
    ops.subrange(0, ops.len() - concat_run(ops))
}

/// The operator stack after reading an operand: the reductions made before a
/// concatenation, then the concatenation itself if one is due.
pub open spec fn after_operand(ops: Seq<Operator>, insert_concat: bool) -> Seq<Operator> {
    if insert_concat {
        concat_strip(ops).push(Operator::Concatenation)
    } else {
        concat_strip(ops)
    }
}

proof fn lemma_reduce_events_snoc(ops: Seq<Operator>, j: nat)
    requires
        j < ops.len(),
    ensures
        reduce_events(ops, j + 1) == reduce_events(ops, j) + seq![
            ParseEvent::Reduce(ops[ops.len() - 1 - j]),
        ],
    decreases j,
{
    if j == 0 {
        assert(reduce_events(ops.drop_last(), 0) == Seq::<ParseEvent>::empty());
        assert(reduce_events(ops, 1) =~= seq![ParseEvent::Reduce(ops.last())]);
        assert(reduce_events(ops, 0) == Seq::<ParseEvent>::empty());
        assert(reduce_events(ops, 0) + seq![ParseEvent::Reduce(ops[ops.len() - 1])] =~= seq![ParseEvent::Reduce(ops.last())]);
    } else {
        lemma_reduce_events_snoc(ops.drop_last(), (j - 1) as nat);
        assert(ops.drop_last()[ops.drop_last().len() - 1 - (j - 1)] == ops[ops.len() - 1 - j]);
        assert(reduce_events(ops, j + 1) =~= seq![ParseEvent::Reduce(ops.last())] + reduce_events(ops.drop_last(), j));
        assert(reduce_events(ops, j) =~= seq![ParseEvent::Reduce(ops.last())] + reduce_events(ops.drop_last(), (j - 1) as nat));
        assert(reduce_events(ops, j + 1) =~= reduce_events(ops, j) + seq![ParseEvent::Reduce(ops[ops.len() - 1 - j])]);
    }
}

proof fn lemma_concat_run_step(ops: Seq<Operator>, j: nat)
    requires
        j <= ops.len(),
        concat_run(ops) == j + concat_run(ops.subrange(0, ops.len() - j)),
    ensures
        reduces_once(ops.subrange(0, ops.len() - j), Operator::Concatenation) ==> {
            &&& concat_run(ops) == j + 1 + concat_run(ops.subrange(0, ops.len() - j - 1))
            &&& ops.subrange(0, ops.len() - j).drop_last() == ops.subrange(0, ops.len() - j - 1)
            &&& ops.subrange(0, ops.len() - j).last() == ops[ops.len() - 1 - j]
        },
        !reduces_once(ops.subrange(0, ops.len() - j), Operator::Concatenation) ==> concat_run(ops)
            == j,
{
    let cur = ops.subrange(0, ops.len() - j);
    if reduces_once(cur, Operator::Concatenation) {
        assert(cur.drop_last() =~= ops.subrange(0, ops.len() - j - 1));
    }
}


proof fn lemma_reduce_events_len(ops: Seq<Operator>, k: nat)
    requires
        k <= ops.len(),
    ensures
        reduce_events(ops, k).len() == k,
    decreases k,
{
    if k > 0 {
        lemma_reduce_events_len(ops.drop_last(), (k - 1) as nat);
    }
}

/// The calls `log` made after `before` are the first of the calls
/// `planned`, and at least one was made: the actions were called in the
/// planned order until one of them failed.
pub open spec fn calls_cut_short(before: Seq<ParseEvent>, log: Seq<ParseEvent>, planned: Seq<ParseEvent>) -> bool {
    &&& log.len() > before.len()
    &&& log.is_prefix_of(before + planned)
}

/// The events of reducing the `a` topmost operators begin those of
/// reducing the `b` topmost ones.
proof fn lemma_reduce_events_prefix(ops: Seq<Operator>, a: nat, b: nat)
    requires
        a <= b <= ops.len(),
    ensures
        reduce_events(ops, a).is_prefix_of(reduce_events(ops, b)),
    decreases b,
{
    lemma_reduce_events_len(ops, a);
    lemma_reduce_events_len(ops, b);
    if a < b {
        lemma_reduce_events_prefix(ops, a, (b - 1) as nat);
        lemma_reduce_events_snoc(ops, (b - 1) as nat);
        lemma_reduce_events_len(ops, (b - 1) as nat);
        assert(reduce_events(ops, b).subrange(0, a as int) =~= reduce_events(ops, (b - 1) as nat).subrange(0, a as int));
    } else {
        assert(reduce_events(ops, b).subrange(0, a as int) =~= reduce_events(ops, b));
    }
}

/// A call cut short after the planned calls `x` of `planned`: `before + x`
/// with `x` a nonempty prefix of `planned`.
proof fn lemma_cut_short(before: Seq<ParseEvent>, x: Seq<ParseEvent>, planned: Seq<ParseEvent>)
    requires
        x.len() > 0,
        x.is_prefix_of(planned),
    ensures
        calls_cut_short(before, before + x, planned),
{
    assert((before + x) =~= (before + planned).subrange(0, (before + x).len() as int));
}

/// The three-slot buffer of a character range `a-b` being read inside a class.
#[derive(Debug, Clone, Copy)]
pub struct CharRangeBuf(pub Option<char>, pub Option<char>, pub Option<char>);

impl CharRangeBuf {
    pub fn new() -> (b: CharRangeBuf)
        ensures
            b.0 is None && b.1 is None && b.2 is None,
    {
        CharRangeBuf(None, None, None)
    }

    pub fn is_empty(&self) -> (r: bool)
        ensures
            r == self.0 is None,
    {
        self.0.is_none()
    }

    pub fn clear(&mut self)
        ensures
            final(self).0 is None && final(self).1 is None && final(self).2 is None,
    {
        self.0 = None;
        self.1 = None;
        self.2 = None;
    }
}

/// The single-character ranges of what a range buffer holds but has not
/// completed: its first character and, if there is one, the dash after it.
pub open spec fn pending_ranges(b: CharRangeBuf) -> Seq<CharRange> {
    match b.0 {
        Some(s) => match b.1 {
            Some(t) => seq![
                CharRange { start: s as u32, end: s as u32 },
                CharRange { start: t as u32, end: t as u32 },
            ],
            None => seq![CharRange { start: s as u32, end: s as u32 }],
        },
        None => Seq::empty(),
    }
}


/// What appending `c` to the range buffer `b` adds to the class being read,
/// and the buffer that it leaves. A first character waits; a dash after it
/// waits too; another character after a lone first one adds that first one
/// and takes its place; a character after `a-` completes the range `a-c`.
pub open spec fn spec_append(b: CharRangeBuf, c: char) -> (Seq<CharRange>, CharRangeBuf) {
    match b.0 {
        None => (Seq::empty(), CharRangeBuf(Some(c), b.1, b.2)),
        Some(s) => match b.1 {
            None => if c == '-' {
                (Seq::empty(), CharRangeBuf(b.0, Some(c), b.2))
            } else {
                (
                    seq![CharRange { start: s as u32, end: s as u32 }],
                    CharRangeBuf(Some(c), None, None),
                )
            },
            Some(_) => match b.2 {
                None => (
                    seq![CharRange { start: s as u32, end: c as u32 }],
                    CharRangeBuf(None, None, None),
                ),
                Some(_) => (Seq::empty(), b),
            },
        },
    }
}


/// Whether the predefined class `kind` holds the code point `k`.
pub open spec fn special_has(kind: SpecialClass, k: u32) -> bool {
    match kind {
        SpecialClass::Digit => 0x30 <= k <= 0x39,
        SpecialClass::NonDigit => k <= MAX_CODE_POINT && !(0x30 <= k <= 0x39),
        SpecialClass::Word => (0x30 <= k <= 0x39) || (0x41 <= k <= 0x5A) || k == 0x5F || (0x61 <= k <= 0x7A),
        SpecialClass::NonWord => k <= MAX_CODE_POINT && !((0x30 <= k <= 0x39) || (0x41 <= k <= 0x5A) || k == 0x5F
            || (0x61 <= k <= 0x7A)),
        SpecialClass::Newline => k == 0x0A,
        SpecialClass::Space => k == 0x20 || (0x09 <= k <= 0x0D),
        SpecialClass::NonSpace => k <= MAX_CODE_POINT && !(k == 0x20 || (0x09 <= k <= 0x0D)),
    }
}

/// The code points of the predefined class `kind`.
pub open spec fn special_set(kind: SpecialClass) -> Set<u32> {
    Set::new(|k: u32| special_has(kind, k))
}

/// The kind of a predefined-class action (`Digit` for any other action).
pub open spec fn special_of_action(a: CharAction) -> SpecialClass {
    match a {
        CharAction::Special(kind) => kind,
        _ => SpecialClass::Digit,
    }
}

/// The code points that the ranges `s` hold.
pub open spec fn ranges_set(s: Seq<CharRange>) -> Set<u32> {
    Set::new(|k: u32| ranges_have(s, k))
}

/// Every code point but the newline.
pub open spec fn dot_set() -> Set<u32> {
    Set::new(|k: u32| k <= MAX_CODE_POINT && k != 0x0A)
}

/// The class shifted when a character class is closed: what it holds with
/// what the range buffer has pending, or every other code point if it is
/// negated.
pub open spec fn closed_class(class_set: Set<u32>, rbuf: CharRangeBuf, negated: bool) -> Set<u32> {
    let full = class_set.union(ranges_set(pending_ranges(rbuf)));
    if negated {
        Set::new(|k: u32| k <= MAX_CODE_POINT && !full.contains(k))
    } else {
        full
    }
}

/// What the reader of an expression holds besides the nodes: whether a
/// backslash is pending; whether a character class is being read, whether
/// it holds a range yet, whether it is negated, and its range buffer;
/// whether a concatenation is due; the operator stack; and whether a group
/// was ever opened.
#[verifier::ext_equal]
pub struct ReadState {
    pub escaped: bool,
    pub in_class: bool,
    pub class_nonempty: bool,
    /// The code points of the ranges the class holds so far.
    pub class_set: Set<u32>,
    pub negated: bool,
    pub range_buf: CharRangeBuf,
    pub insert_concat: bool,
    pub ops: Seq<Operator>,
    pub opened: bool,
}

/// The reader before the first character.
pub open spec fn initial_read_state() -> ReadState {
    ReadState {
        escaped: false,
        in_class: false,
        class_nonempty: false,
        class_set: Set::empty(),
        negated: false,
        range_buf: CharRangeBuf(None, None, None),
        insert_concat: false,
        ops: Seq::empty(),
        opened: false,
    }
}

/// Reading `c` in the state `st`, when the user's actions succeed: the
/// next state, or the error that the parser itself finds (an unbalanced
/// parenthesis or operator, or an empty class).
pub open spec fn spec_step(st: ReadState, c: char) -> Result<ReadState, ParseError> {
    let class_empty = st.range_buf.0 is None && !st.class_nonempty;
    let (action, esc) = spec_char_action(c, st.escaped, st.in_class, class_empty);
    let st1 = ReadState { escaped: esc, ..st };
    let operand = ReadState { insert_concat: true, ops: after_operand(st.ops, st.insert_concat), ..st1 };
    match action {
        CharAction::Literal(_) => Ok(operand),
        CharAction::Dot => Ok(operand),
        CharAction::Special(_) => if st.in_class {
            Ok(ReadState {
                class_nonempty: true,
                class_set: st.class_set.union(ranges_set(pending_ranges(st.range_buf))).union(special_set(special_of_action(action))),
                range_buf: CharRangeBuf(None, None, None),
                ..st1
            })
        } else {
            Ok(operand)
        },
        CharAction::Append(a) => Ok(ReadState {
            class_nonempty: st.class_nonempty || spec_append(st.range_buf, a).0.len() > 0,
            class_set: st.class_set.union(ranges_set(spec_append(st.range_buf, a).0)),
            range_buf: spec_append(st.range_buf, a).1,
            ..st1
        }),
        CharAction::Union => Ok(ReadState { insert_concat: false, ops: after_once(st.ops, Operator::Union).push(Operator::Union), ..st1 }),
        CharAction::KleeneStar => Ok(ReadState {
            insert_concat: true,
            ops: after_once(st.ops, Operator::KleeneStar).push(Operator::KleeneStar),
            ..st1
        }),
        CharAction::Plus => Ok(ReadState { insert_concat: true, ops: after_once(st.ops, Operator::Plus).push(Operator::Plus), ..st1 }),
        CharAction::Optional => Ok(ReadState {
            insert_concat: true,
            ops: after_once(st.ops, Operator::Optional).push(Operator::Optional),
            ..st1
        }),
        CharAction::LeftParen => Ok(ReadState {
            insert_concat: false,
            ops: (if st.insert_concat {
                after_once(st.ops, Operator::LeftParen).push(Operator::Concatenation)
            } else {
                after_once(st.ops, Operator::LeftParen)
            }).push(Operator::LeftParen),
            opened: true,
            ..st1
        }),
        CharAction::RightParen => if st.ops.len() == 0 {
            Err(ParseError::UnbalancedOperators)
        } else if !st.opened {
            Err(ParseError::UnbalancedParentheses)
        } else if paren_run(st.ops) == st.ops.len() {
            Err(ParseError::UnbalancedOperators)
        } else {
            Ok(ReadState { insert_concat: true, ops: st.ops.subrange(0, st.ops.len() - paren_run(st.ops) - 1), ..st1 })
        },
        CharAction::OpenClass => Ok(ReadState { in_class: true, class_nonempty: false, class_set: Set::empty(), negated: false, ..st1 }),
        CharAction::CloseClass => if class_empty {
            Err(ParseError::EmptyCharacterClass)
        } else {
            Ok(ReadState {
                in_class: false,
                class_nonempty: false,
                class_set: Set::empty(),
                negated: false,
                range_buf: CharRangeBuf(None, None, None),
                insert_concat: true,
                ops: after_operand(st.ops, st.insert_concat),
                ..st1
            })
        },
        CharAction::NegateClass => Ok(ReadState { negated: true, ..st1 }),
        CharAction::Escape => Ok(st1),
    }
}

/// Reading the characters `s` from the start, when the user's actions
/// succeed: the state reached, or the first error that the parser itself
/// finds.
pub open spec fn spec_read(s: Seq<char>) -> Result<ReadState, ParseError>
    decreases s.len(),
{
    if s.len() == 0 {
        Ok(initial_read_state())
    } else {
        match spec_read(s.drop_last()) {
            Ok(st) => spec_step(st, s.last()),
            Err(e) => Err(e),
        }
    }
}

/// The node stack after reducing, one after the other, the `k` topmost
/// operators of `ops` from `stack` by the user's reduce action, or the
/// first error.
pub open spec fn reduce_n<T: Clone, P: Parser<T> + ?Sized>(p: &P, stack: Seq<T>, ops: Seq<Operator>, k: nat) -> Result<Seq<T>, ParseError>
    decreases k,
{
    if k == 0 {
        Ok(stack)
    } else {
        match reduce_n(p, stack, ops, (k - 1) as nat) {
            Ok(s) => p.spec_reduce(s, ops.subrange(0, ops.len() - (k - 1))),
            Err(e) => Err(e),
        }
    }
}

/// The node stack after shifting an operand with the code points `c`: the
/// reductions due before a concatenation, then the shift under the
/// operator stack `after_operand(ops, insert_concat)`.
pub open spec fn shift_operand<T: Clone, P: Parser<T> + ?Sized>(p: &P, stack: Seq<T>, ops: Seq<Operator>, insert_concat: bool, c: Set<u32>) -> Result<Seq<T>, ParseError> {
    match reduce_n(p, stack, ops, concat_run(ops)) {
        Ok(s) => p.spec_shift(s, after_operand(ops, insert_concat), c),
        Err(e) => Err(e),
    }
}

/// The node stack after the reduction, if one is due, before `op` is
/// pushed.
pub open spec fn reduce_before<T: Clone, P: Parser<T> + ?Sized>(p: &P, stack: Seq<T>, ops: Seq<Operator>, op: Operator) -> Result<Seq<T>, ParseError> {
    if reduces_once(ops, op) {
        p.spec_reduce(stack, ops)
    } else {
        Ok(stack)
    }
}

/// The node stack after a `)`, with `counts` the node counts recorded at
/// the open groups: a group with nothing in it is reduced as an empty
/// placeholder; otherwise the operators above the `(` are reduced.
pub open spec fn close_group<T: Clone, P: Parser<T> + ?Sized>(p: &P, stack: Seq<T>, ops: Seq<Operator>, counts: Seq<usize>) -> Result<Seq<T>, ParseError> {
    if ops.len() == 0 {
        Err(ParseError::UnbalancedOperators)
    } else if counts.len() == 0 {
        Err(ParseError::UnbalancedParentheses)
    } else if ops.last() == Operator::LeftParen && counts.last() == stack.len() {
        p.spec_reduce(stack, ops.drop_last().push(Operator::EmptyPlaceholder))
    } else {
        match reduce_n(p, stack, ops, paren_run(ops)) {
            Ok(s) => if paren_run(ops) == ops.len() {
                Err(ParseError::UnbalancedOperators)
            } else {
                Ok(s)
            },
            Err(e) => Err(e),
        }
    }
}

/// With the node stack `r`, the node counts `counts`.
pub open spec fn with_counts<T>(r: Result<Seq<T>, ParseError>, counts: Seq<usize>) -> Result<(Seq<T>, Seq<usize>), ParseError> {
    match r {
        Ok(s) => Ok((s, counts)),
        Err(e) => Err(e),
    }
}

/// Reading `c` in the reader state `st` with the node stack `stack` and the
/// node counts `counts` of the open groups: the node stack and counts
/// after, or the first error, the user's or the parser's own.
pub open spec fn step_nodes<T: Clone, P: Parser<T> + ?Sized>(p: &P, st: ReadState, stack: Seq<T>, counts: Seq<usize>, c: char) -> Result<(Seq<T>, Seq<usize>), ParseError> {
    let class_empty = st.range_buf.0 is None && !st.class_nonempty;
    let (action, esc) = spec_char_action(c, st.escaped, st.in_class, class_empty);
    match action {
        CharAction::Literal(ch) => with_counts(shift_operand(p, stack, st.ops, st.insert_concat, set![ch as u32]), counts),
        CharAction::Dot => with_counts(shift_operand(p, stack, st.ops, st.insert_concat, dot_set()), counts),
        CharAction::Special(kind) => if st.in_class {
            Ok((stack, counts))
        } else {
            with_counts(shift_operand(p, stack, st.ops, st.insert_concat, special_set(kind)), counts)
        },
        CharAction::Union => with_counts(reduce_before(p, stack, st.ops, Operator::Union), counts),
        CharAction::KleeneStar => with_counts(reduce_before(p, stack, st.ops, Operator::KleeneStar), counts),
        CharAction::Plus => with_counts(reduce_before(p, stack, st.ops, Operator::Plus), counts),
        CharAction::Optional => with_counts(reduce_before(p, stack, st.ops, Operator::Optional), counts),
        CharAction::LeftParen => match reduce_before(p, stack, st.ops, Operator::LeftParen) {
            Ok(s) => Ok((s, counts.push(s.len() as usize))),
            Err(e) => Err(e),
        },
        CharAction::RightParen => with_counts(close_group(p, stack, st.ops, counts), counts),
        CharAction::CloseClass => if class_empty {
            Err(ParseError::EmptyCharacterClass)
        } else {
            with_counts(
                shift_operand(p, stack, st.ops, st.insert_concat, closed_class(st.class_set, st.range_buf, st.negated)),
                counts,
            )
        },
        _ => Ok((stack, counts)),
    }
}

proof fn lemma_calls_assoc(a: Seq<ParseEvent>, b: Seq<ParseEvent>, c: Seq<ParseEvent>)
    ensures
        a + b + c == a + (b + c),
        a.push(c.last()) == a + seq![c.last()],
{
    assert(a + b + c =~= a + (b + c));
    assert(a.push(c.last()) =~= a + seq![c.last()]);
}

/// The calls of the user's actions that reading `c` in the reader state
/// `st` plans, in order, with `n` nodes on the stack and `counts` the node
/// counts of the open groups: the reductions due and the shift of an
/// operand, the reduction due before an operator, or those that close a
/// group. They are made in that order until one of them fails.
pub open spec fn step_calls(st: ReadState, n: nat, counts: Seq<usize>, c: char) -> Seq<ParseEvent> {
    let class_empty = st.range_buf.0 is None && !st.class_nonempty;
    let (action, esc) = spec_char_action(c, st.escaped, st.in_class, class_empty);
    let pre = reduce_events(st.ops, concat_run(st.ops));
    match action {
        CharAction::Literal(ch) => pre + seq![ParseEvent::Shift(set![ch as u32])],
        CharAction::Dot => pre + seq![ParseEvent::Shift(dot_set())],
        CharAction::Special(kind) => if st.in_class {
            Seq::empty()
        } else {
            pre + seq![ParseEvent::Shift(special_set(kind))]
        },
        CharAction::Union => once_events(st.ops, Operator::Union),
        CharAction::KleeneStar => once_events(st.ops, Operator::KleeneStar),
        CharAction::Plus => once_events(st.ops, Operator::Plus),
        CharAction::Optional => once_events(st.ops, Operator::Optional),
        CharAction::LeftParen => once_events(st.ops, Operator::LeftParen),
        CharAction::RightParen => if st.ops.len() == 0 || counts.len() == 0 {
            Seq::empty()
        } else if st.ops.last() == Operator::LeftParen && counts.last() == n {
            seq![ParseEvent::Reduce(Operator::EmptyPlaceholder)]
        } else {
            reduce_events(st.ops, paren_run(st.ops))
        },
        CharAction::CloseClass => if class_empty {
            Seq::empty()
        } else {
            pre + seq![ParseEvent::Shift(closed_class(st.class_set, st.range_buf, st.negated))]
        },
        _ => Seq::empty(),
    }
}

/// Reading the characters `s` from the start with the user's actions `p`:
/// the reader state, node stack and node counts reached, or the first
/// error.
pub open spec fn spec_run<T: Clone, P: Parser<T> + ?Sized>(p: &P, s: Seq<char>) -> Result<(ReadState, Seq<T>, Seq<usize>), ParseError>
    decreases s.len(),
{
    if s.len() == 0 {
        Ok((initial_read_state(), Seq::empty(), Seq::empty()))
    } else {
        match spec_run(p, s.drop_last()) {
            Ok((rd, stack, counts)) => match step_nodes(p, rd, stack, counts, s.last()) {
                Ok((stack2, counts2)) => match spec_step(rd, s.last()) {
                    Ok(rd2) => Ok((rd2, stack2, counts2)),
                    Err(e) => Err(e),
                },
                Err(e) => Err(e),
            },
            Err(e) => Err(e),
        }
    }
}

/// What parsing `s` with the user's actions `p` gives: the characters are
/// read, the empty expression standing for an empty placeholder, then
/// every operator left is reduced, and the node on top of the stack (if
/// any) is the result; or the first error, the user's or the parser's
/// own.
pub open spec fn spec_parse<T: Clone, P: Parser<T> + ?Sized>(p: &P, s: Seq<char>) -> Result<Option<T>, ParseError> {
    match spec_run(p, s) {
        Ok((rd, stack, counts)) => {
            let ops = if s.len() == 0 {
                rd.ops.push(Operator::EmptyPlaceholder)
            } else {
                rd.ops
            };
            match reduce_n(p, stack, ops, ops.len()) {
                Ok(st) => Ok(if st.len() == 0 {
                    None
                } else {
                    Some(st.last())
                }),
                Err(e) => Err(e),
            }
        },
        Err(e) => Err(e),
    }
}

/// The calls of the user's actions that reading the characters `s` from
/// the start plans, in order: those of each character read, up to the
/// one at which the reading fails.
pub open spec fn run_calls<T: Clone, P: Parser<T> + ?Sized>(p: &P, s: Seq<char>) -> Seq<ParseEvent>
    decreases s.len(),
{
    if s.len() == 0 {
        Seq::empty()
    } else {
        match spec_run(p, s.drop_last()) {
            Ok((rd, stack, counts)) => run_calls(p, s.drop_last()) + step_calls(rd, stack.len(), counts, s.last()),
            Err(_) => run_calls(p, s.drop_last()),
        }
    }
}

/// The calls of the user's actions that parsing `s` plans, in order: those
/// of reading it, then the reduction of every operator left, topmost
/// first (an empty placeholder for the empty expression).
pub open spec fn parse_calls<T: Clone, P: Parser<T> + ?Sized>(p: &P, s: Seq<char>) -> Seq<ParseEvent> {
    match spec_run(p, s) {
        Ok((rd, stack, counts)) => {
            let ops = if s.len() == 0 {
                rd.ops.push(Operator::EmptyPlaceholder)
            } else {
                rd.ops
            };
            run_calls(p, s) + reduce_events(ops, ops.len())
        },
        Err(_) => run_calls(p, s),
    }
}

/// The calls planned for a beginning of `s` begin those planned for `s`.
proof fn lemma_run_calls_prefix<T: Clone, P: Parser<T> + ?Sized>(p: &P, s: Seq<char>, k: int)
    requires
        0 <= k <= s.len(),
    ensures
        run_calls(p, s.take(k)).is_prefix_of(run_calls(p, s)),
    decreases s.len() - k,
{
    if k == s.len() {
        assert(s.take(k) =~= s);
    } else {
        lemma_run_calls_prefix(p, s.drop_last(), k);
        assert(s.drop_last().take(k) =~= s.take(k));
        let a = run_calls(p, s.take(k));
        let b = run_calls(p, s.drop_last());
        let c = run_calls(p, s);
        assert(b.is_prefix_of(c));
        assert(a.is_prefix_of(c)) by {
            assert forall|i: int| 0 <= i < a.len() implies a[i] == c[i] by {
                assert(a[i] == b[i]);
            }
        }
    }
}

/// How many of the `k` reductions of `reduce_n` are tried: all `k`, or
/// those up to and including the first that fails.
pub open spec fn reduce_made<T: Clone, P: Parser<T> + ?Sized>(p: &P, stack: Seq<T>, ops: Seq<Operator>, k: nat) -> nat
    decreases k,
{
    if k == 0 {
        0
    } else if reduce_n(p, stack, ops, (k - 1) as nat) is Err {
        reduce_made(p, stack, ops, (k - 1) as nat)
    } else {
        k
    }
}

/// The calls made in shifting an operand with the code points `c` (see
/// `shift_operand`): the reductions due before a concatenation up to the
/// first that fails, then the shift if none failed.
pub open spec fn shift_made<T: Clone, P: Parser<T> + ?Sized>(p: &P, stack: Seq<T>, ops: Seq<Operator>, c: Set<u32>) -> Seq<ParseEvent> {
    let k = concat_run(ops);
    reduce_events(ops, reduce_made(p, stack, ops, k)) + if reduce_n(p, stack, ops, k) is Ok {
        seq![ParseEvent::Shift(c)]
    } else {
        Seq::<ParseEvent>::empty()
    }
}

/// The calls made in reading `c` in the reader state `st` with the node
/// stack `stack` and the node counts `counts`: those of `step_calls`, up
/// to and including the first that fails.
pub open spec fn step_made<T: Clone, P: Parser<T> + ?Sized>(p: &P, st: ReadState, stack: Seq<T>, counts: Seq<usize>, c: char) -> Seq<ParseEvent> {
    let class_empty = st.range_buf.0 is None && !st.class_nonempty;
    let (action, esc) = spec_char_action(c, st.escaped, st.in_class, class_empty);
    match action {
        CharAction::Literal(ch) => shift_made(p, stack, st.ops, set![ch as u32]),
        CharAction::Dot => shift_made(p, stack, st.ops, dot_set()),
        CharAction::Special(kind) => if st.in_class {
            Seq::empty()
        } else {
            shift_made(p, stack, st.ops, special_set(kind))
        },
        CharAction::Union => once_events(st.ops, Operator::Union),
        CharAction::KleeneStar => once_events(st.ops, Operator::KleeneStar),
        CharAction::Plus => once_events(st.ops, Operator::Plus),
        CharAction::Optional => once_events(st.ops, Operator::Optional),
        CharAction::LeftParen => once_events(st.ops, Operator::LeftParen),
        CharAction::RightParen => if st.ops.len() == 0 || counts.len() == 0 {
            Seq::empty()
        } else if st.ops.last() == Operator::LeftParen && counts.last() == stack.len() {
            seq![ParseEvent::Reduce(Operator::EmptyPlaceholder)]
        } else {
            reduce_events(st.ops, reduce_made(p, stack, st.ops, paren_run(st.ops)))
        },
        CharAction::CloseClass => if class_empty {
            Seq::empty()
        } else {
            shift_made(p, stack, st.ops, closed_class(st.class_set, st.range_buf, st.negated))
        },
        _ => Seq::empty(),
    }
}

/// The calls made in reading the characters `s` from the start: those of
/// each character read, up to and including the first that fails.
pub open spec fn run_made<T: Clone, P: Parser<T> + ?Sized>(p: &P, s: Seq<char>) -> Seq<ParseEvent>
    decreases s.len(),
{
    if s.len() == 0 {
        Seq::empty()
    } else {
        match spec_run(p, s.drop_last()) {
            Ok((rd, stack, counts)) => run_made(p, s.drop_last()) + step_made(p, rd, stack, counts, s.last()),
            Err(_) => run_made(p, s.drop_last()),
        }
    }
}

/// The calls made in parsing `s`: those of `parse_calls`, up to and
/// including the first that fails; no action is called after it.
pub open spec fn parse_made<T: Clone, P: Parser<T> + ?Sized>(p: &P, s: Seq<char>) -> Seq<ParseEvent> {
    match spec_run(p, s) {
        Ok((rd, stack, counts)) => {
            let ops = if s.len() == 0 {
                rd.ops.push(Operator::EmptyPlaceholder)
            } else {
                rd.ops
            };
            run_made(p, s) + reduce_events(ops, reduce_made(p, stack, ops, ops.len()))
        },
        Err(_) => run_made(p, s),
    }
}

/// Where reading `c` succeeds, every planned call is made.
proof fn lemma_step_made_ok<T: Clone, P: Parser<T> + ?Sized>(p: &P, st: ReadState, stack: Seq<T>, counts: Seq<usize>, c: char)
    requires
        step_nodes(p, st, stack, counts, c) is Ok,
    ensures
        step_made(p, st, stack, counts, c) == step_calls(st, stack.len(), counts, c),
{
    let k = concat_run(st.ops);
    if reduce_n(p, stack, st.ops, k) is Ok {
        lemma_reduce_made_ok(p, stack, st.ops, k);
    }
    if reduce_n(p, stack, st.ops, paren_run(st.ops)) is Ok {
        lemma_reduce_made_ok(p, stack, st.ops, paren_run(st.ops));
    }
}

/// Where reading `s` succeeds, every planned call is made.
proof fn lemma_run_made_ok<T: Clone, P: Parser<T> + ?Sized>(p: &P, s: Seq<char>)
    requires
        spec_run(p, s) is Ok,
    ensures
        run_made(p, s) == run_calls(p, s),
    decreases s.len(),
{
    if s.len() > 0 {
        lemma_run_made_ok(p, s.drop_last());
        let (rd, stack, counts) = spec_run(p, s.drop_last())->Ok_0;
        lemma_step_made_ok(p, rd, stack, counts, s.last());
    }
}

/// Where the parse of `s` succeeds, every call that it plans is made:
/// the calls made fall short of those planned only where it fails.
proof fn lemma_parse_made_ok<T: Clone, P: Parser<T> + ?Sized>(p: &P, s: Seq<char>)
    requires
        spec_parse(p, s) is Ok,
    ensures
        parse_made(p, s) == parse_calls(p, s),
{
    lemma_run_made_ok(p, s);
    let (rd, stack, counts) = spec_run(p, s)->Ok_0;
    let ops = if s.len() == 0 {
        rd.ops.push(Operator::EmptyPlaceholder)
    } else {
        rd.ops
    };
    lemma_reduce_made_ok(p, stack, ops, ops.len());
}

proof fn lemma_reduce_made_bound<T: Clone, P: Parser<T> + ?Sized>(p: &P, stack: Seq<T>, ops: Seq<Operator>, k: nat)
    ensures
        reduce_made(p, stack, ops, k) <= k,
    decreases k,
{
    if k > 0 {
        lemma_reduce_made_bound(p, stack, ops, (k - 1) as nat);
    }
}

proof fn lemma_prefix_append(x: Seq<ParseEvent>, a: Seq<ParseEvent>, b: Seq<ParseEvent>)
    requires
        a.is_prefix_of(b),
    ensures
        (x + a).is_prefix_of(x + b),
{
    assert forall|i: int| 0 <= i < (x + a).len() implies (x + a)[i] == (x + b)[i] by {
        if i >= x.len() {
            assert(a[i - x.len()] == b[i - x.len()]);
        }
    }
}

proof fn lemma_reduce_made_prefix<T: Clone, P: Parser<T> + ?Sized>(p: &P, stack: Seq<T>, ops: Seq<Operator>, k: nat)
    requires
        k <= ops.len(),
    ensures
        reduce_events(ops, reduce_made(p, stack, ops, k)).is_prefix_of(reduce_events(ops, k)),
{
    lemma_reduce_made_bound(p, stack, ops, k);
    lemma_reduce_events_prefix(ops, reduce_made(p, stack, ops, k), k);
}

/// The calls made in reading `c` begin those planned.
proof fn lemma_step_made_prefix<T: Clone, P: Parser<T> + ?Sized>(p: &P, st: ReadState, stack: Seq<T>, counts: Seq<usize>, c: char)
    ensures
        step_made(p, st, stack, counts, c).is_prefix_of(step_calls(st, stack.len(), counts, c)),
{
    let ops = st.ops;
    let k = concat_run(ops);
    lemma_concat_run_bound(ops);
    lemma_paren_run_bound(ops);
    lemma_reduce_made_prefix(p, stack, ops, k);
    lemma_reduce_made_prefix(p, stack, ops, paren_run(ops));
    lemma_reduce_events_len(ops, k);
    if reduce_n(p, stack, ops, k) is Ok {
        lemma_reduce_made_ok(p, stack, ops, k);
    }
    assert forall|x: Set<u32>| #[trigger] shift_made(p, stack, ops, x).is_prefix_of(reduce_events(ops, k) + seq![ParseEvent::Shift(x)]) by {
        let m = reduce_made(p, stack, ops, k);
        if reduce_n(p, stack, ops, k) is Ok {
            assert(shift_made(p, stack, ops, x) == reduce_events(ops, k) + seq![ParseEvent::Shift(x)]);
        } else {
            let a = reduce_events(ops, m);
            let b = reduce_events(ops, k) + seq![ParseEvent::Shift(x)];
            assert(shift_made(p, stack, ops, x) =~= a);
            assert forall|i: int| 0 <= i < a.len() implies a[i] == b[i] by {
                assert(a[i] == reduce_events(ops, k)[i]);
            }
        }
    }
    let e: Seq<ParseEvent> = Seq::empty();
    assert(e.is_prefix_of(step_calls(st, stack.len(), counts, c)));
}

/// The calls made in reading `s` begin those planned.
proof fn lemma_run_made_prefix<T: Clone, P: Parser<T> + ?Sized>(p: &P, s: Seq<char>)
    ensures
        run_made(p, s).is_prefix_of(run_calls(p, s)),
    decreases s.len(),
{
    if s.len() > 0 {
        lemma_run_made_prefix(p, s.drop_last());
        if spec_run(p, s.drop_last()) is Ok {
            lemma_run_made_ok(p, s.drop_last());
            let (rd, stack, counts) = spec_run(p, s.drop_last())->Ok_0;
            lemma_step_made_prefix(p, rd, stack, counts, s.last());
            lemma_prefix_append(run_made(p, s.drop_last()), step_made(p, rd, stack, counts, s.last()), step_calls(rd, stack.len(), counts, s.last()));
        }
    }
}

/// The calls that parsing `s` makes are those that it plans, up to and
/// including the first that fails: they begin the planned calls, and are
/// all of them where the parse succeeds.
pub proof fn lemma_parse_made_prefix<T: Clone, P: Parser<T> + ?Sized>(p: &P, s: Seq<char>)
    ensures
        parse_made(p, s).is_prefix_of(parse_calls(p, s)),
        spec_parse(p, s) is Ok ==> parse_made(p, s) == parse_calls(p, s),
{
    lemma_run_made_prefix(p, s);
    if spec_run(p, s) is Ok {
        lemma_run_made_ok(p, s);
        let (rd, stack, counts) = spec_run(p, s)->Ok_0;
        let ops = if s.len() == 0 {
            rd.ops.push(Operator::EmptyPlaceholder)
        } else {
            rd.ops
        };
        lemma_reduce_made_prefix(p, stack, ops, ops.len());
        lemma_prefix_append(run_made(p, s), reduce_events(ops, reduce_made(p, stack, ops, ops.len())), reduce_events(ops, ops.len()));
    }
    if spec_parse(p, s) is Ok {
        lemma_parse_made_ok(p, s);
    }
}

/// Once reading a beginning of `s` fails, no calls are made for the rest.
proof fn lemma_run_made_stops<T: Clone, P: Parser<T> + ?Sized>(p: &P, s: Seq<char>, k: int)
    requires
        0 <= k <= s.len(),
        spec_run(p, s.take(k)) is Err,
    ensures
        run_made(p, s) == run_made(p, s.take(k)),
    decreases s.len() - k,
{
    if k == s.len() {
        assert(s.take(k) =~= s);
    } else {
        assert(s.drop_last().take(k) =~= s.take(k));
        lemma_run_made_stops(p, s.drop_last(), k);
        lemma_run_err(p, s.drop_last(), k, spec_run(p, s.take(k))->Err_0);
    }
}

/// Where the reductions up to `j` succeed and the next fails, that one is
/// the last tried of any `k` beyond it.
proof fn lemma_reduce_made_err<T: Clone, P: Parser<T> + ?Sized>(p: &P, stack: Seq<T>, ops: Seq<Operator>, j: nat, k: nat)
    requires
        j + 1 <= k,
        reduce_n(p, stack, ops, j) is Ok,
        reduce_n(p, stack, ops, j + 1) is Err,
    ensures
        reduce_made(p, stack, ops, k) == j + 1,
    decreases k,
{
    if k > j + 1 {
        lemma_reduce_n_err(p, stack, ops, j + 1, (k - 1) as nat, reduce_n(p, stack, ops, j + 1)->Err_0);
        lemma_reduce_made_err(p, stack, ops, j, (k - 1) as nat);
    }
}

/// Where all `k` reductions succeed, all are tried.
proof fn lemma_reduce_made_ok<T: Clone, P: Parser<T> + ?Sized>(p: &P, stack: Seq<T>, ops: Seq<Operator>, k: nat)
    requires
        reduce_n(p, stack, ops, k) is Ok,
    ensures
        reduce_made(p, stack, ops, k) == k,
{
    if k > 0 {
        if reduce_n(p, stack, ops, (k - 1) as nat) is Err {
            lemma_reduce_n_err(p, stack, ops, (k - 1) as nat, k, reduce_n(p, stack, ops, (k - 1) as nat)->Err_0);
        }
    }
}

/// One more reduction after `k`.
proof fn lemma_reduce_n_step<T: Clone, P: Parser<T> + ?Sized>(p: &P, stack: Seq<T>, ops: Seq<Operator>, k: nat)
    ensures
        reduce_n(p, stack, ops, k + 1) == (match reduce_n(p, stack, ops, k) {
            Ok(s) => p.spec_reduce(s, ops.subrange(0, ops.len() - k)),
            Err(e) => Err(e),
        }),
{
}

/// Once the reductions fail, reducing more fails with the same error.
proof fn lemma_reduce_n_err<T: Clone, P: Parser<T> + ?Sized>(p: &P, stack: Seq<T>, ops: Seq<Operator>, k: nat, m: nat, e: ParseError)
    requires
        k <= m,
        reduce_n(p, stack, ops, k) == Err::<Seq<T>, ParseError>(e),
    ensures
        reduce_n(p, stack, ops, m) == Err::<Seq<T>, ParseError>(e),
    decreases m - k,
{
    if k < m {
        lemma_reduce_n_err(p, stack, ops, k, (m - 1) as nat, e);
    }
}

/// The class of a predefined escape holds a range.
proof fn lemma_special_nonempty(kind: SpecialClass, cc: CharClass)
    requires
        forall|k: u32| #[trigger] cc.has(k) <==> special_has(kind, k),
    ensures
        cc.ranges@.len() > 0,
{
    let w: u32 = match kind {
        SpecialClass::Digit => 0x30,
        SpecialClass::NonDigit => 0x41,
        SpecialClass::Word => 0x30,
        SpecialClass::NonWord => 0x20,
        SpecialClass::Newline => 0x0A,
        SpecialClass::Space => 0x20,
        SpecialClass::NonSpace => 0x41,
    };
    assert(cc.has(w));
}

/// The class that a predefined escape names.
pub fn special_class(kind: SpecialClass) -> (cc: CharClass)
    ensures
        forall|k: u32| #[trigger] cc.has(k) <==> special_has(kind, k),
{
    match kind {
        SpecialClass::Digit => CharClass::decimal_number(),
        SpecialClass::NonDigit => CharClass::decimal_number().complement(),
        SpecialClass::Word => CharClass::word(),
        SpecialClass::NonWord => CharClass::word().complement(),
        SpecialClass::Newline => CharClass::new_single('\n'),
        SpecialClass::Space => CharClass::whitespace(),
        SpecialClass::NonSpace => CharClass::whitespace().complement(),
    }
}

/// The state of a shift-reduce parse of a regular expression: the user's
/// node stack, the operator stack, and where the reader stands.
pub struct ParserState<T> {
    pub stack: Vec<T>,
    pub op_stack: Vec<Operator>,
    /// For each open parenthesis, how many nodes were on the stack when it
    /// was read.
    pub paren_count_stack: Vec<usize>,
    pub escaped: bool,
    /// Whether a concatenation goes before the next operand.
    pub insert_concat: bool,
    pub in_char_class: bool,
    /// The character class being read, and whether it is negated.
    pub char_class_buf: (CharClass, bool),
    pub char_range_buf: CharRangeBuf,
    /// The calls made of the user's actions so far.
    pub log: Ghost<Seq<ParseEvent>>,
}

impl<T: Clone> ParserState<T> {
    /// What the reader holds besides the nodes.
    pub open spec fn read_state(self) -> ReadState {
        ReadState {
            escaped: self.escaped,
            in_class: self.in_char_class,
            class_nonempty: self.char_class_buf.0.ranges@.len() > 0,
            class_set: class_of(self.char_class_buf.0),
            negated: self.char_class_buf.1,
            range_buf: self.char_range_buf,
            insert_concat: self.insert_concat,
            ops: self.op_stack@,
            opened: self.paren_count_stack@.len() > 0,
        }
    }

    /// Everything but the stacks, the log and `insert_concat` is as in `old`.
    pub open spec fn reader_unchanged(self, old: Self) -> bool {
        &&& self.escaped == old.escaped
        &&& self.in_char_class == old.in_char_class
        &&& self.char_class_buf.0.ranges@ == old.char_class_buf.0.ranges@
        &&& self.char_class_buf.1 == old.char_class_buf.1
        &&& self.char_range_buf == old.char_range_buf
        &&& self.paren_count_stack@ == old.paren_count_stack@
    }

    pub fn new() -> (s: Self)
        ensures
            s.stack@ == Seq::<T>::empty(),
            s.op_stack@ == Seq::<Operator>::empty(),
            s.paren_count_stack@ == Seq::<usize>::empty(),
            !s.escaped && !s.insert_concat && !s.in_char_class,
            s.char_class_buf.0.ranges@ == Seq::<CharRange>::empty(),
            !s.char_class_buf.1,
            s.char_range_buf.0 is None && s.char_range_buf.1 is None && s.char_range_buf.2 is None,
            s.log@ == Seq::<ParseEvent>::empty(),
    {
        ParserState {
            stack: Vec::new(),
            op_stack: Vec::new(),
            paren_count_stack: Vec::new(),
            escaped: false,
            insert_concat: false,
            in_char_class: false,
            char_class_buf: (CharClass::new(), false),
            char_range_buf: CharRangeBuf::new(),
            log: Ghost(Seq::empty()),
        }
    }

    /// Hands the class `c` to the user's shift action.
    pub fn shift_action<P: Parser<T> + ?Sized>(&mut self, p: &P, c: CharClass) -> (r: Result<(), ParseError>)
        ensures
            final(self).reader_unchanged(*old(self)),
            final(self).insert_concat == old(self).insert_concat,
            r is Ok ==> final(self).op_stack@ == old(self).op_stack@,
            final(self).log@ == old(self).log@.push(ParseEvent::Shift(class_of(c))),
            match p.spec_shift(old(self).stack@, old(self).op_stack@, class_of(c)) {
                Ok(s) => r is Ok && final(self).stack@ == s,
                Err(e) => r == Err::<(), ParseError>(e),
            },
    {
        let ghost g = c;
        let r = p.shift_action(&mut self.stack, &mut self.op_stack, c);
        self.log = Ghost(self.log@.push(ParseEvent::Shift(class_of(g))));
        r
    }

    /// Hands the stacks to the user's reduce action.
    pub fn reduce_action<P: Parser<T> + ?Sized>(&mut self, p: &P) -> (r: Result<(), ParseError>)
        requires
            old(self).op_stack@.len() > 0,
        ensures
            final(self).reader_unchanged(*old(self)),
            final(self).insert_concat == old(self).insert_concat,
            r is Ok ==> final(self).op_stack@ == old(self).op_stack@.drop_last(),
            final(self).log@ == old(self).log@.push(ParseEvent::Reduce(old(self).op_stack@.last())),
            match p.spec_reduce(old(self).stack@, old(self).op_stack@) {
                Ok(s) => r is Ok && final(self).stack@ == s,
                Err(e) => r == Err::<(), ParseError>(e),
            },
    {
        let ghost top = self.op_stack@.last();
        let r = p.reduce_action(&mut self.stack, &mut self.op_stack);
        self.log = Ghost(self.log@.push(ParseEvent::Reduce(top)));
        r
    }

    /// Reduces the operator on top of the stack.
    pub fn reduce_stack<P: Parser<T> + ?Sized>(&mut self, p: &P) -> (r: Result<(), ParseError>)
        requires
            old(self).op_stack@.len() > 0,
        ensures
            final(self).reader_unchanged(*old(self)),
            final(self).insert_concat == old(self).insert_concat,
            r is Ok ==> final(self).op_stack@ == old(self).op_stack@.drop_last(),
            final(self).log@ == old(self).log@.push(ParseEvent::Reduce(old(self).op_stack@.last())),
            match p.spec_reduce(old(self).stack@, old(self).op_stack@) {
                Ok(s) => r is Ok && final(self).stack@ == s,
                Err(e) => r == Err::<(), ParseError>(e),
            },
    {
        self.reduce_action(p)
    }

    /// Reduces the operator on top of the stack if it binds tighter than
    /// `op`, and tells whether it did.
    pub fn precedence_reduce_stack<P: Parser<T> + ?Sized>(&mut self, p: &P, op: &Operator) -> (r: Result<bool, ParseError>)
        ensures
            final(self).reader_unchanged(*old(self)),
            final(self).insert_concat == old(self).insert_concat,
            r is Err ==> reduces_once(old(self).op_stack@, *op),
            r matches Ok(b) ==> b == reduces_once(old(self).op_stack@, *op),
            r is Ok ==> final(self).op_stack@ == after_once(old(self).op_stack@, *op),
            final(self).log@ == old(self).log@ + once_events(old(self).op_stack@, *op),
            match reduce_before(p, old(self).stack@, old(self).op_stack@, *op) {
                Ok(s) => r == Ok::<bool, ParseError>(reduces_once(old(self).op_stack@, *op)) && final(self).stack@ == s,
                Err(e) => r == Err::<bool, ParseError>(e),
            },
    {
        let reduce = match self.op_stack.last() {
            Some(last_op) => reduces_before(*last_op, *op),
            None => false,
        };
        if reduce {
            if let Err(e) = self.reduce_stack(p) {
                assert(self.log@ =~= old(self).log@ + once_events(old(self).op_stack@, *op));
                return Err(e);
            }
        }
        proof {
            if !reduce {
                assert(self.log@ == old(self).log@ + once_events(old(self).op_stack@, *op));
            } else {
                assert(self.log@ =~= old(self).log@ + once_events(old(self).op_stack@, *op));
            }
        }
        Ok(reduce)
    }

    /// Shifts the character class `c` as an operand: first the reductions
    /// due before a concatenation, then a concatenation if one is due, then
    /// the shift.
    pub fn handle_char_class<P: Parser<T> + ?Sized>(&mut self, p: &P, c: CharClass) -> (r: Result<(), ParseError>)
        ensures
            final(self).reader_unchanged(*old(self)),
            r is Ok ==> final(self).insert_concat,
            r is Ok ==> final(self).op_stack@ == after_operand(old(self).op_stack@, old(self).insert_concat),
            r is Ok ==> final(self).log@ == old(self).log@ + reduce_events(
                old(self).op_stack@,
                concat_run(old(self).op_stack@),
            ) + seq![ParseEvent::Shift(class_of(c))],
            r is Err ==> calls_cut_short(
                old(self).log@,
                final(self).log@,
                reduce_events(old(self).op_stack@, concat_run(old(self).op_stack@)) + seq![ParseEvent::Shift(class_of(c))],
            ),
            match shift_operand(p, old(self).stack@, old(self).op_stack@, old(self).insert_concat, class_of(c)) {
                Ok(s) => r is Ok && final(self).stack@ == s,
                Err(e) => r == Err::<(), ParseError>(e),
            },
            final(self).log@ == old(self).log@ + shift_made(p, old(self).stack@, old(self).op_stack@, class_of(c)),
    {
        let ghost stack0 = self.stack@;
        let ghost ops0 = self.op_stack@;
        let ghost log0 = self.log@;
        let ghost g = c;
        proof {
            assert(ops0.subrange(0, ops0.len() - 0) =~= ops0);
            assert(reduce_events(ops0, 0) == Seq::<ParseEvent>::empty());
            assert(log0 + reduce_events(ops0, 0) =~= log0);
            lemma_concat_run_bound(ops0);
        }
        loop
            invariant_except_break
                self.reader_unchanged(*old(self)),
                self.insert_concat == old(self).insert_concat,
                self.op_stack@.len() <= ops0.len(),
                self.op_stack@ == ops0.subrange(0, self.op_stack@.len() as int),
                concat_run(ops0) == (ops0.len() - self.op_stack@.len()) + concat_run(self.op_stack@),
                self.log@ == log0 + reduce_events(ops0, (ops0.len() - self.op_stack@.len()) as nat),
                concat_run(ops0) <= ops0.len(),
                ops0 == old(self).op_stack@,
                log0 == old(self).log@,
                stack0 == old(self).stack@,
                g == c,
                reduce_n(p, stack0, ops0, (ops0.len() - self.op_stack@.len()) as nat) == Ok::<Seq<T>, ParseError>(self.stack@),
            ensures
                reduce_n(p, stack0, ops0, concat_run(ops0)) == Ok::<Seq<T>, ParseError>(self.stack@),
                self.reader_unchanged(*old(self)),
                self.insert_concat == old(self).insert_concat,
                self.op_stack@ == concat_strip(ops0),
                self.log@ == log0 + reduce_events(ops0, concat_run(ops0)),
            decreases self.op_stack@.len(),
        {
            let ghost j = (ops0.len() - self.op_stack@.len()) as nat;
            proof {
                assert(ops0.subrange(0, ops0.len() - j) == self.op_stack@);
                lemma_concat_run_step(ops0, j);
            }
            let ghost cur = self.op_stack@;
            let ghost logj = self.log@;
            let res = self.precedence_reduce_stack(p, &Operator::Concatenation);
            let b = match res {
                Ok(b) => b,
                Err(e) => {
                    proof {
                        lemma_reduce_n_step(p, stack0, ops0, j);
                        lemma_reduce_n_err(p, stack0, ops0, j + 1, concat_run(ops0), e);
                        assert(reduces_once(cur, Operator::Concatenation));
                        assert(cur == ops0.subrange(0, ops0.len() - j));
                        assert(concat_run(ops0) == j + 1 + concat_run(ops0.subrange(0, ops0.len() - j - 1)));
                        assert(self.log@ == logj + seq![ParseEvent::Reduce(ops0[ops0.len() - 1 - j])]);
                        lemma_reduce_events_snoc(ops0, j);
                        assert(self.log@ =~= log0 + reduce_events(ops0, j + 1));
                        lemma_reduce_events_prefix(ops0, j + 1, concat_run(ops0));
                        lemma_reduce_events_len(ops0, j + 1);
                        let planned = reduce_events(ops0, concat_run(ops0)) + seq![ParseEvent::Shift(class_of(g))];
                        assert(reduce_events(ops0, j + 1).is_prefix_of(planned)) by {
                            lemma_reduce_events_len(ops0, concat_run(ops0));
                            assert(planned.subrange(0, (j + 1) as int) =~= reduce_events(ops0, concat_run(ops0)).subrange(0, (j + 1) as int));
                        }
                        lemma_cut_short(log0, reduce_events(ops0, j + 1), planned);
                        lemma_reduce_made_err(p, stack0, ops0, j, concat_run(ops0));
                        assert(log0 + shift_made(p, stack0, ops0, class_of(g)) =~= log0 + reduce_events(ops0, j + 1));
                    }
                    return Err(e);
                },
            };
            if !b {
                break;
            }
            proof {
                lemma_reduce_n_step(p, stack0, ops0, j);
                lemma_reduce_events_snoc(ops0, j);
                assert(self.log@ =~= log0 + reduce_events(ops0, j + 1));
            }
        }
        if self.insert_concat {
            self.push_operator(Operator::Concatenation);
        }
        let ghost log1 = self.log@;
        let res = self.shift_action(p, c);
        assert(self.log@ =~= log1 + seq![ParseEvent::Shift(class_of(g))]);
        proof {
            lemma_reduce_made_ok(p, stack0, ops0, concat_run(ops0));
            assert(self.log@ =~= log0 + shift_made(p, stack0, ops0, class_of(g)));
        }
        if let Err(e) = res {
            proof {
                let planned = reduce_events(ops0, concat_run(ops0)) + seq![ParseEvent::Shift(class_of(g))];
                assert(planned.subrange(0, planned.len() as int) =~= planned);
                lemma_cut_short(log0, planned, planned);
                assert(self.log@ =~= log0 + planned);
            }
            return Err(e);
        }
        self.insert_concat = true;
        Ok(())
    }

    /// Shifts the one-character class of `c`.
    pub fn handle_literal_char<P: Parser<T> + ?Sized>(&mut self, p: &P, c: char) -> (r: Result<(), ParseError>)
        ensures
            final(self).reader_unchanged(*old(self)),
            r is Ok ==> final(self).insert_concat,
            r is Ok ==> final(self).op_stack@ == after_operand(old(self).op_stack@, old(self).insert_concat),
            r is Ok ==> final(self).log@ == old(self).log@ + reduce_events(
                old(self).op_stack@,
                concat_run(old(self).op_stack@),
            ) + seq![ParseEvent::Shift(set![c as u32])],
            r is Err ==> calls_cut_short(
                old(self).log@,
                final(self).log@,
                reduce_events(old(self).op_stack@, concat_run(old(self).op_stack@)) + seq![ParseEvent::Shift(set![c as u32])],
            ),
            match shift_operand(p, old(self).stack@, old(self).op_stack@, old(self).insert_concat, set![c as u32]) {
                Ok(s) => r is Ok && final(self).stack@ == s,
                Err(e) => r == Err::<(), ParseError>(e),
            },
            final(self).log@ == old(self).log@ + shift_made(p, old(self).stack@, old(self).op_stack@, set![c as u32]),
    {
        let char_class = CharClass::new_single(c);
        let ghost g = char_class;
        assert(class_of(g) =~= set![c as u32]);
        self.handle_char_class(p, char_class)
    }

    /// Pushes a union, after reducing an operator that binds tighter.
    pub fn handle_union<P: Parser<T> + ?Sized>(&mut self, p: &P) -> (r: Result<(), ParseError>)
        ensures
            final(self).reader_unchanged(*old(self)),
            r is Ok ==> final(self).insert_concat == false,
            r is Err ==> reduces_once(old(self).op_stack@, Operator::Union),
            match reduce_before(p, old(self).stack@, old(self).op_stack@, Operator::Union) {
                Ok(s) => r is Ok && final(self).stack@ == s,
                Err(e) => r == Err::<(), ParseError>(e),
            },
            r is Ok ==> final(self).op_stack@ == after_once(old(self).op_stack@, Operator::Union).push(
                Operator::Union,
            ),
            final(self).log@ == old(self).log@ + once_events(
                old(self).op_stack@,
                Operator::Union,
            ),
    {
        let op = Operator::Union;
        self.precedence_reduce_stack(p, &op)?;
        self.op_stack.push(op);
        self.insert_concat = false;
        Ok(())
    }

    /// Pushes a Kleene star, after reducing another star before it.
    pub fn handle_kleene_star<P: Parser<T> + ?Sized>(&mut self, p: &P) -> (r: Result<(), ParseError>)
        ensures
            final(self).reader_unchanged(*old(self)),
            r is Ok ==> final(self).insert_concat == true,
            r is Err ==> reduces_once(old(self).op_stack@, Operator::KleeneStar),
            match reduce_before(p, old(self).stack@, old(self).op_stack@, Operator::KleeneStar) {
                Ok(s) => r is Ok && final(self).stack@ == s,
                Err(e) => r == Err::<(), ParseError>(e),
            },
            r is Ok ==> final(self).op_stack@ == after_once(old(self).op_stack@, Operator::KleeneStar).push(
                Operator::KleeneStar,
            ),
            final(self).log@ == old(self).log@ + once_events(
                old(self).op_stack@,
                Operator::KleeneStar,
            ),
    {
        let op = Operator::KleeneStar;
        self.precedence_reduce_stack(p, &op)?;
        self.op_stack.push(op);
        self.insert_concat = true;
        Ok(())
    }

    /// Pushes a `+`, after reducing another `+` before it.
    pub fn handle_plus<P: Parser<T> + ?Sized>(&mut self, p: &P) -> (r: Result<(), ParseError>)
        ensures
            final(self).reader_unchanged(*old(self)),
            r is Ok ==> final(self).insert_concat == true,
            r is Err ==> reduces_once(old(self).op_stack@, Operator::Plus),
            match reduce_before(p, old(self).stack@, old(self).op_stack@, Operator::Plus) {
                Ok(s) => r is Ok && final(self).stack@ == s,
                Err(e) => r == Err::<(), ParseError>(e),
            },
            r is Ok ==> final(self).op_stack@ == after_once(old(self).op_stack@, Operator::Plus).push(
                Operator::Plus,
            ),
            final(self).log@ == old(self).log@ + once_events(
                old(self).op_stack@,
                Operator::Plus,
            ),
    {
        let op = Operator::Plus;
        self.precedence_reduce_stack(p, &op)?;
        self.op_stack.push(op);
        self.insert_concat = true;
        Ok(())
    }

    /// Pushes a `?`, after reducing another `?` before it.
    pub fn handle_optional<P: Parser<T> + ?Sized>(&mut self, p: &P) -> (r: Result<(), ParseError>)
        ensures
            final(self).reader_unchanged(*old(self)),
            r is Ok ==> final(self).insert_concat == true,
            r is Err ==> reduces_once(old(self).op_stack@, Operator::Optional),
            match reduce_before(p, old(self).stack@, old(self).op_stack@, Operator::Optional) {
                Ok(s) => r is Ok && final(self).stack@ == s,
                Err(e) => r == Err::<(), ParseError>(e),
            },
            r is Ok ==> final(self).op_stack@ == after_once(old(self).op_stack@, Operator::Optional).push(
                Operator::Optional,
            ),
            final(self).log@ == old(self).log@ + once_events(
                old(self).op_stack@,
                Operator::Optional,
            ),
    {
        let op = Operator::Optional;
        self.precedence_reduce_stack(p, &op)?;
        self.op_stack.push(op);
        self.insert_concat = true;
        Ok(())
    }

    /// Opens a group: reduces a postfix operator before it, pushes a
    /// concatenation if one is due, then the parenthesis, and records how
    /// many nodes the stack holds.
    pub fn handle_left_paren<P: Parser<T> + ?Sized>(&mut self, p: &P) -> (r: Result<(), ParseError>)
        ensures
            final(self).escaped == old(self).escaped,
            final(self).in_char_class == old(self).in_char_class,
            final(self).char_class_buf.0.ranges@ == old(self).char_class_buf.0.ranges@,
            final(self).char_class_buf.1 == old(self).char_class_buf.1,
            final(self).char_range_buf == old(self).char_range_buf,
            r is Err ==> final(self).paren_count_stack@ == old(self).paren_count_stack@,
            r is Err ==> reduces_once(old(self).op_stack@, Operator::LeftParen),
            match reduce_before(p, old(self).stack@, old(self).op_stack@, Operator::LeftParen) {
                Ok(s) => r is Ok && final(self).stack@ == s && final(self).paren_count_stack@ == old(self).paren_count_stack@.push(
                    s.len() as usize,
                ),
                Err(e) => r == Err::<(), ParseError>(e),
            },
            r is Ok ==> !final(self).insert_concat,
            r is Ok ==> final(self).op_stack@ == (if old(self).insert_concat {
                after_once(old(self).op_stack@, Operator::LeftParen).push(Operator::Concatenation)
            } else {
                after_once(old(self).op_stack@, Operator::LeftParen)
            }).push(Operator::LeftParen),
            r is Ok ==> final(self).paren_count_stack@ == old(self).paren_count_stack@.push(
                final(self).stack@.len() as usize,
            ),
            final(self).log@ == old(self).log@ + once_events(
                old(self).op_stack@,
                Operator::LeftParen,
            ),
    {
        let op = Operator::LeftParen;
        self.precedence_reduce_stack(p, &op)?;
        if self.insert_concat {
            self.push_concatenation();
        }
        self.op_stack.push(op);
        self.paren_count_stack.push(self.stack.len());
        self.insert_concat = false;
        Ok(())
    }

    /// Closes a group. A group with nothing in it is reduced as an empty
    /// placeholder; otherwise the operators above the left parenthesis are
    /// reduced and the parenthesis removed.
    pub fn handle_right_paren<P: Parser<T> + ?Sized>(&mut self, p: &P) -> (r: Result<(), ParseError>)
        ensures
            final(self).reader_unchanged(*old(self)),
            old(self).op_stack@.len() == 0 ==> r == Err::<(), ParseError>(ParseError::UnbalancedOperators),
            old(self).op_stack@.len() > 0 && old(self).paren_count_stack@.len() == 0 ==> r == Err::<
                (),
                ParseError,
            >(ParseError::UnbalancedParentheses),
            r is Err ==> final(self).insert_concat == old(self).insert_concat,
            old(self).paren_count_stack@.len() > 0 && paren_run(old(self).op_stack@) == old(self).op_stack@.len()
                && old(self).op_stack@.last() != Operator::LeftParen ==> r is Err,
            r is Ok ==> final(self).insert_concat,
            r is Ok ==> old(self).op_stack@.len() > 0 && old(self).paren_count_stack@.len() > 0,
            r is Ok && old(self).op_stack@.last() == Operator::LeftParen
                && old(self).paren_count_stack@.last() == old(self).stack@.len() ==> {
                &&& final(self).op_stack@ == old(self).op_stack@.drop_last()
                &&& final(self).log@ == old(self).log@.push(ParseEvent::Reduce(Operator::EmptyPlaceholder))
            },
            old(self).op_stack@.len() == 0 || old(self).paren_count_stack@.len() == 0 ==> {
                &&& final(self).log@ == old(self).log@
                &&& final(self).stack@ == old(self).stack@
                &&& final(self).op_stack@ == old(self).op_stack@
            },
            old(self).op_stack@.len() > 0 && old(self).paren_count_stack@.len() > 0 && old(self).op_stack@.last() == Operator::LeftParen
                && old(self).paren_count_stack@.last() == old(self).stack@.len() ==> final(self).log@ == old(self).log@.push(
                ParseEvent::Reduce(Operator::EmptyPlaceholder),
            ),
            old(self).op_stack@.len() > 0 && old(self).paren_count_stack@.len() > 0 && !(old(self).op_stack@.last() == Operator::LeftParen
                && old(self).paren_count_stack@.last() == old(self).stack@.len()) ==> match reduce_n(
                p,
                old(self).stack@,
                old(self).op_stack@,
                paren_run(old(self).op_stack@),
            ) {
                Ok(_) => final(self).log@ == old(self).log@ + reduce_events(old(self).op_stack@, paren_run(old(self).op_stack@)),
                Err(_) => calls_cut_short(old(self).log@, final(self).log@, reduce_events(old(self).op_stack@, paren_run(old(self).op_stack@))),
            },
            old(self).op_stack@.len() > 0 && old(self).paren_count_stack@.len() > 0 && !(old(self).op_stack@.last() == Operator::LeftParen
                && old(self).paren_count_stack@.last() == old(self).stack@.len()) ==> final(self).log@ == old(self).log@ + reduce_events(
                old(self).op_stack@,
                reduce_made(p, old(self).stack@, old(self).op_stack@, paren_run(old(self).op_stack@)),
            ),
            match close_group(p, old(self).stack@, old(self).op_stack@, old(self).paren_count_stack@) {
                Ok(s) => r is Ok && final(self).stack@ == s,
                Err(e) => r == Err::<(), ParseError>(e),
            },
            r is Ok && !(old(self).op_stack@.last() == Operator::LeftParen
                && old(self).paren_count_stack@.last() == old(self).stack@.len()) ==> {
                &&& paren_run(old(self).op_stack@) < old(self).op_stack@.len()
                &&& final(self).op_stack@ == old(self).op_stack@.subrange(
                    0,
                    old(self).op_stack@.len() - paren_run(old(self).op_stack@) - 1,
                )
                &&& final(self).log@ == old(self).log@ + reduce_events(
                    old(self).op_stack@,
                    paren_run(old(self).op_stack@),
                )
            },
    {
        let ghost ops0 = self.op_stack@;
        let ghost log0 = self.log@;
        let ghost stack0 = self.stack@;
        let last_op = match self.op_stack.last() {
            Some(op) => *op,
            None => {
                return Err(ParseError::UnbalancedOperators);
            },
        };
        let prev_node_count = match self.paren_count_stack.last() {
            Some(n) => *n,
            None => {
                return Err(ParseError::UnbalancedParentheses);
            },
        };
        if last_op == Operator::LeftParen && prev_node_count == self.stack.len() {
            self.op_stack.pop();
            self.op_stack.push(Operator::EmptyPlaceholder);
            self.reduce_stack(p)?;
            assert(self.op_stack@ =~= ops0.drop_last());
        } else {
            proof {
                assert(ops0.subrange(0, ops0.len() - 0) =~= ops0);
                assert(reduce_events(ops0, 0) == Seq::<ParseEvent>::empty());
                assert(log0 + reduce_events(ops0, 0) =~= log0);
                lemma_paren_run_bound(ops0);
            }
            loop
                invariant_except_break
                    self.reader_unchanged(*old(self)),
                    self.insert_concat == old(self).insert_concat,
                    self.op_stack@.len() <= ops0.len(),
                    self.op_stack@ == ops0.subrange(0, self.op_stack@.len() as int),
                    paren_run(ops0) == (ops0.len() - self.op_stack@.len()) + paren_run(self.op_stack@),
                    self.log@ == log0 + reduce_events(ops0, (ops0.len() - self.op_stack@.len()) as nat),
                    ops0 == old(self).op_stack@,
                    log0 == old(self).log@,
                    ops0.len() > 0,
                    old(self).paren_count_stack@.len() > 0,
                    paren_run(ops0) <= ops0.len(),
                    stack0 == old(self).stack@,
                    reduce_n(p, stack0, ops0, (ops0.len() - self.op_stack@.len()) as nat) == Ok::<Seq<T>, ParseError>(self.stack@),
                ensures
                    reduce_n(p, stack0, ops0, paren_run(ops0)) == Ok::<Seq<T>, ParseError>(self.stack@),
                    paren_run(ops0) <= ops0.len(),
                    self.reader_unchanged(*old(self)),
                    self.insert_concat == old(self).insert_concat,
                    self.op_stack@ == ops0.subrange(0, ops0.len() - paren_run(ops0)),
                    self.log@ == log0 + reduce_events(ops0, paren_run(ops0)),
                decreases self.op_stack@.len(),
            {
                let ghost j = (ops0.len() - self.op_stack@.len()) as nat;
                let ghost cur = self.op_stack@;
                let go = match self.op_stack.last() {
                    Some(op) => *op != Operator::LeftParen,
                    None => false,
                };
                if !go {
                    break;
                }
                proof {
                    assert(ops0.subrange(0, ops0.len() - j) == cur);
                    assert(cur.drop_last() =~= ops0.subrange(0, ops0.len() - j - 1));
                    assert(cur.last() == ops0[ops0.len() - 1 - j]);
                }
                proof {
                    lemma_reduce_n_step(p, stack0, ops0, j);
                    assert(paren_run(ops0) == j + paren_run(cur));
                    assert(paren_run(cur) == 1 + paren_run(cur.drop_last()));
                }
                if let Err(e) = self.reduce_stack(p) {
                    proof {
                        lemma_reduce_n_err(p, stack0, ops0, j + 1, paren_run(ops0), e);
                        lemma_reduce_events_snoc(ops0, j);
                        assert(self.log@ =~= log0 + reduce_events(ops0, j + 1));
                        lemma_reduce_events_prefix(ops0, j + 1, paren_run(ops0));
                        lemma_reduce_events_len(ops0, j + 1);
                        lemma_cut_short(log0, reduce_events(ops0, j + 1), reduce_events(ops0, paren_run(ops0)));
                        lemma_reduce_made_err(p, stack0, ops0, j, paren_run(ops0));
                    }
                    return Err(e);
                }
                proof {
                    lemma_reduce_events_snoc(ops0, j);
                    assert(self.log@ =~= log0 + reduce_events(ops0, j + 1));
                }
            }
            proof {
                lemma_reduce_made_ok(p, stack0, ops0, paren_run(ops0));
            }
            if self.op_stack.len() == 0 {
                return Err(ParseError::UnbalancedOperators);
            }
            self.op_stack.pop();
            proof {
                lemma_paren_run_bound(ops0);
                assert(self.op_stack@ =~= ops0.subrange(0, ops0.len() - paren_run(ops0) - 1));
            }
        }
        self.insert_concat = true;
        Ok(())
    }

    /// Everything but the class being read and the range buffer is as in `old`.
    pub open spec fn parse_unchanged(self, old: Self) -> bool {
        &&& self.stack@ == old.stack@
        &&& self.op_stack@ == old.op_stack@
        &&& self.paren_count_stack@ == old.paren_count_stack@
        &&& self.log@ == old.log@
        &&& self.escaped == old.escaped
        &&& self.insert_concat == old.insert_concat
        &&& self.in_char_class == old.in_char_class
        &&& self.char_class_buf.1 == old.char_class_buf.1
    }

    /// Adds to the class what the range buffer holds but has not completed,
    /// and empties the buffer.
    pub fn handle_incomplete_char_range_buf(&mut self)
        ensures
            final(self).parse_unchanged(*old(self)),
            final(self).char_class_buf.0.ranges@ == old(self).char_class_buf.0.ranges@
                + pending_ranges(old(self).char_range_buf),
            final(self).char_range_buf.0 is None && final(self).char_range_buf.1 is None
                && final(self).char_range_buf.2 is None,
    {
        let s0 = self.char_range_buf.0;
        if let Some(s) = s0 {
            self.char_class_buf.0.add_range(CharRange::new_single(s));
            let s1 = self.char_range_buf.1;
            if let Some(s) = s1 {
                self.char_class_buf.0.add_range(CharRange::new_single(s));
            }
        }
        self.char_range_buf.clear();
        assert(self.char_class_buf.0.ranges@ =~= old(self).char_class_buf.0.ranges@
            + pending_ranges(old(self).char_range_buf));
    }

    /// Appends the character `c` to the character class being read (see
    /// `spec_append`).
    pub fn append_char_range_buf(&mut self, c: char)
        ensures
            final(self).parse_unchanged(*old(self)),
            final(self).char_class_buf.0.ranges@ == old(self).char_class_buf.0.ranges@ + spec_append(
                old(self).char_range_buf,
                c,
            ).0,
            final(self).char_range_buf == spec_append(old(self).char_range_buf, c).1,
        decreases
            (if old(self).char_range_buf.0 is None {
                0nat
            } else {
                1nat
            }),
    {
        if self.char_range_buf.0.is_none() {
            self.char_range_buf.0 = Some(c);
            assert(self.char_class_buf.0.ranges@ =~= old(self).char_class_buf.0.ranges@ + spec_append(
                old(self).char_range_buf,
                c,
            ).0);
        } else if self.char_range_buf.1.is_none() {
            if c == '-' {
                self.char_range_buf.1 = Some(c);
                assert(self.char_class_buf.0.ranges@ =~= old(self).char_class_buf.0.ranges@
                    + spec_append(old(self).char_range_buf, c).0);
            } else {
                let new_range_char = self.char_range_buf.0.unwrap();
                let new_range = CharRange::new_single(new_range_char);
                self.char_class_buf.0.add_range(new_range);
                self.char_range_buf.clear();
                self.append_char_range_buf(c);
                assert(self.char_class_buf.0.ranges@ =~= old(self).char_class_buf.0.ranges@
                    + spec_append(old(self).char_range_buf, c).0);
            }
        } else if self.char_range_buf.2.is_none() {
            let start = self.char_range_buf.0.unwrap();
            let end = c;
            let new_range = CharRange::new(start, end);
            self.char_class_buf.0.add_range(new_range);
            self.char_range_buf.clear();
            assert(self.char_class_buf.0.ranges@ =~= old(self).char_class_buf.0.ranges@ + spec_append(
                old(self).char_range_buf,
                c,
            ).0);
        } else {
            assert(self.char_class_buf.0.ranges@ =~= old(self).char_class_buf.0.ranges@ + spec_append(
                old(self).char_range_buf,
                c,
            ).0);
        }
    }

    /// Empties the class being read and clears its negation.
    pub fn clear_char_class_buf(&mut self)
        ensures
            final(self).stack@ == old(self).stack@,
            final(self).op_stack@ == old(self).op_stack@,
            final(self).paren_count_stack@ == old(self).paren_count_stack@,
            final(self).log@ == old(self).log@,
            final(self).escaped == old(self).escaped,
            final(self).insert_concat == old(self).insert_concat,
            final(self).in_char_class == old(self).in_char_class,
            final(self).char_range_buf == old(self).char_range_buf,
            final(self).char_class_buf.0.ranges@ == Seq::<CharRange>::empty(),
            !final(self).char_class_buf.1,
    {
        self.char_class_buf = (CharClass::new(), false);
    }

    /// Closes the character class being read and shifts it, negated if a `^`
    /// opened it. An empty class is an error.
    pub fn handle_right_bracket<P: Parser<T> + ?Sized>(&mut self, p: &P) -> (r: Result<(), ParseError>)
        ensures
            !final(self).in_char_class,
            final(self).escaped == old(self).escaped,
            final(self).paren_count_stack@ == old(self).paren_count_stack@,
            old(self).char_range_buf.0 is None && old(self).char_class_buf.0.ranges@.len() == 0 ==> {
                &&& r == Err::<(), ParseError>(ParseError::EmptyCharacterClass)
                &&& final(self).stack@ == old(self).stack@
                &&& final(self).op_stack@ == old(self).op_stack@
                &&& final(self).log@ == old(self).log@
                &&& final(self).char_class_buf.0.ranges@ == old(self).char_class_buf.0.ranges@
                &&& final(self).char_class_buf.1 == old(self).char_class_buf.1
                &&& final(self).char_range_buf == old(self).char_range_buf
                &&& final(self).insert_concat == old(self).insert_concat
            },
            !(old(self).char_range_buf.0 is None && old(self).char_class_buf.0.ranges@.len() == 0) ==> match shift_operand(
                p,
                old(self).stack@,
                old(self).op_stack@,
                old(self).insert_concat,
                closed_class(class_of(old(self).char_class_buf.0), old(self).char_range_buf, old(self).char_class_buf.1),
            ) {
                Ok(s) => r is Ok && final(self).stack@ == s,
                Err(e) => r == Err::<(), ParseError>(e),
            },
            !(old(self).char_range_buf.0 is None && old(self).char_class_buf.0.ranges@.len() == 0) ==> final(self).log@ == old(self).log@
                + shift_made(
                p,
                old(self).stack@,
                old(self).op_stack@,
                closed_class(class_of(old(self).char_class_buf.0), old(self).char_range_buf, old(self).char_class_buf.1),
            ),
            r is Err && !(old(self).char_range_buf.0 is None && old(self).char_class_buf.0.ranges@.len() == 0) ==> calls_cut_short(
                old(self).log@,
                final(self).log@,
                reduce_events(old(self).op_stack@, concat_run(old(self).op_stack@)) + seq![
                    ParseEvent::Shift(closed_class(class_of(old(self).char_class_buf.0), old(self).char_range_buf, old(self).char_class_buf.1)),
                ],
            ),
            r is Ok ==> {
                &&& final(self).insert_concat
                &&& final(self).char_class_buf.0.ranges@.len() == 0
                &&& !final(self).char_class_buf.1
                &&& final(self).char_range_buf.0 is None && final(self).char_range_buf.1 is None
                    && final(self).char_range_buf.2 is None
                &&& final(self).op_stack@ == after_operand(old(self).op_stack@, old(self).insert_concat)
                &&& final(self).log@ == old(self).log@ + reduce_events(
                    old(self).op_stack@,
                    concat_run(old(self).op_stack@),
                ) + seq![
                    ParseEvent::Shift(closed_class(class_of(old(self).char_class_buf.0), old(self).char_range_buf, old(self).char_class_buf.1)),
                ]
            },
    {
        self.in_char_class = false;
        if self.char_range_buf.is_empty() && self.char_class_buf.0.ranges.len() == 0 {
            return Err(ParseError::EmptyCharacterClass);
        }
        self.handle_incomplete_char_range_buf();
        let char_class = if self.char_class_buf.1 {
            self.char_class_buf.0.complement()
        } else {
            self.char_class_buf.0.copy()
        };
        let ghost g = char_class;
        let ghost full = self.char_class_buf.0;
        let ghost ops0 = self.op_stack@;
        let ghost log0 = self.log@;
        proof {
            let want = closed_class(class_of(old(self).char_class_buf.0), old(self).char_range_buf, old(self).char_class_buf.1);
            assert forall|k: u32| class_of(g).contains(k) <==> want.contains(k) by {
                lemma_ranges_have_concat(old(self).char_class_buf.0.ranges@, pending_ranges(old(self).char_range_buf), k);
                if !old(self).char_class_buf.1 {
                    assert(g.ranges@ == full.ranges@);
                }
            }
            assert(class_of(g) =~= want);
        }
        let r = self.handle_char_class(p, char_class);
        if r.is_err() {
            proof {
                assert(calls_cut_short(log0, self.log@, reduce_events(ops0, concat_run(ops0)) + seq![ParseEvent::Shift(class_of(g))]));
            }
            return r;
        }
        self.clear_char_class_buf();
        Ok(())
    }

    /// Reads one character of the expression (see `spec_char_action`): the
    /// reader moves as `spec_step` says, and the node stack and the node
    /// counts of the open groups as `step_nodes` says, with the user's
    /// actions `p`.
    #[verifier::rlimit(60)]
    pub fn step<P: Parser<T> + ?Sized>(&mut self, p: &P, c: char) -> (r: Result<(), ParseError>)
        ensures
            r is Ok ==> spec_step(old(self).read_state(), c) == Ok::<ReadState, ParseError>(final(self).read_state()),
            spec_step(old(self).read_state(), c) is Err ==> r is Err,
            match step_nodes(p, old(self).read_state(), old(self).stack@, old(self).paren_count_stack@, c) {
                Ok((s, cn)) => r is Ok && final(self).stack@ == s && final(self).paren_count_stack@ == cn,
                Err(e) => r == Err::<(), ParseError>(e),
            },
            r is Ok ==> final(self).log@ == old(self).log@ + step_calls(
                old(self).read_state(),
                old(self).stack@.len(),
                old(self).paren_count_stack@,
                c,
            ),
            final(self).log@ == old(self).log@ + step_made(p, old(self).read_state(), old(self).stack@, old(self).paren_count_stack@, c),
            r is Err ==> final(self).log@ == old(self).log@ + step_calls(
                old(self).read_state(),
                old(self).stack@.len(),
                old(self).paren_count_stack@,
                c,
            ) || calls_cut_short(
                old(self).log@,
                final(self).log@,
                step_calls(old(self).read_state(), old(self).stack@.len(), old(self).paren_count_stack@, c),
            ),
    {
        let ghost st0 = self.read_state();
        let ghost old_ranges = self.char_class_buf.0.ranges@;
        let class_empty = self.char_range_buf.is_empty() && self.char_class_buf.0.ranges.len() == 0;
        let (action, esc) = char_action(c, self.escaped, self.in_char_class, class_empty);
        self.escaped = esc;
        match action {
            CharAction::Literal(ch) => {
                let ghost log0 = self.log@;
                let r = self.handle_literal_char(p, ch);
                proof {
                    let pre = reduce_events(st0.ops, concat_run(st0.ops));
                    assert(log0 + pre + seq![ParseEvent::Shift(set![ch as u32])] =~= log0 + (pre + seq![ParseEvent::Shift(set![ch as u32])]));
                    if r is Ok {
                        assert(self.read_state() =~= spec_step(st0, c)->Ok_0);
                    }
                }
                r
            },
            CharAction::Append(ch) => {
                self.append_char_range_buf(ch);
                proof {
                    assert forall|k: u32| class_of(self.char_class_buf.0).contains(k) <==> st0.class_set.union(
                        ranges_set(spec_append(st0.range_buf, ch).0),
                    ).contains(k) by {
                        lemma_ranges_have_concat(old_ranges, spec_append(st0.range_buf, ch).0, k);
                    }
                    assert(self.read_state() =~= spec_step(st0, c)->Ok_0);
                }
                Ok(())
            },
            CharAction::Union => {
                let r = self.handle_union(p);
                proof {
                    if r is Ok {
                        assert(self.read_state() =~= spec_step(st0, c)->Ok_0);
                    }
                }
                r
            },
            CharAction::KleeneStar => {
                let r = self.handle_kleene_star(p);
                proof {
                    if r is Ok {
                        assert(self.read_state() =~= spec_step(st0, c)->Ok_0);
                    }
                }
                r
            },
            CharAction::Plus => {
                let r = self.handle_plus(p);
                proof {
                    if r is Ok {
                        assert(self.read_state() =~= spec_step(st0, c)->Ok_0);
                    }
                }
                r
            },
            CharAction::Optional => {
                let r = self.handle_optional(p);
                proof {
                    if r is Ok {
                        assert(self.read_state() =~= spec_step(st0, c)->Ok_0);
                    }
                }
                r
            },
            CharAction::LeftParen => {
                let r = self.handle_left_paren(p);
                proof {
                    if r is Ok {
                        assert(self.read_state() =~= spec_step(st0, c)->Ok_0);
                    }
                }
                r
            },
            CharAction::RightParen => {
                let ghost ops0 = self.op_stack@;
                let ghost log0 = self.log@;
                let r = self.handle_right_paren(p);
                proof {
                    lemma_calls_assoc(log0, Seq::empty(), seq![ParseEvent::Reduce(Operator::EmptyPlaceholder)]);
                    if ops0.len() > 0 && ops0.last() == Operator::LeftParen {
                        assert(paren_run(ops0) == 0);
                        assert(ops0.drop_last() =~= ops0.subrange(0, ops0.len() - 0 - 1));
                    }
                    if ops0.len() > 0 && paren_run(ops0) == ops0.len() {
                        assert(ops0.last() != Operator::LeftParen);
                    }
                    if r is Ok {
                        assert(self.read_state() =~= spec_step(st0, c)->Ok_0);
                    }
                }
                r
            },
            CharAction::OpenClass => {
                self.in_char_class = true;
                self.clear_char_class_buf();
                proof {
                    assert(class_of(self.char_class_buf.0) =~= Set::<u32>::empty());
                    assert(self.read_state() =~= spec_step(st0, c)->Ok_0);
                }
                Ok(())
            },
            CharAction::CloseClass => {
                let ghost log0 = self.log@;
                let r = self.handle_right_bracket(p);
                proof {
                    lemma_calls_assoc(
                        log0,
                        reduce_events(st0.ops, concat_run(st0.ops)),
                        seq![ParseEvent::Shift(closed_class(st0.class_set, st0.range_buf, st0.negated))],
                    );
                    if r is Ok {
                        assert(class_of(self.char_class_buf.0) =~= Set::<u32>::empty());
                        assert(self.read_state() =~= spec_step(st0, c)->Ok_0);
                    }
                }
                r
            },
            CharAction::NegateClass => {
                self.char_class_buf.1 = true;
                proof {
                    assert(self.read_state() =~= spec_step(st0, c)->Ok_0);
                }
                Ok(())
            },
            CharAction::Escape => {
                proof {
                    assert(self.read_state() =~= spec_step(st0, c)->Ok_0);
                }
                Ok(())
            },
            CharAction::Dot => {
                let cc = CharClass::all_but_newline();
                proof {
                    assert(class_of(cc) =~= dot_set());
                }
                let ghost log0 = self.log@;
                let r = self.handle_char_class(p, cc);
                proof {
                    lemma_calls_assoc(log0, reduce_events(st0.ops, concat_run(st0.ops)), seq![ParseEvent::Shift(dot_set())]);
                    if r is Ok {
                        assert(self.read_state() =~= spec_step(st0, c)->Ok_0);
                    }
                }
                r
            },
            CharAction::Special(kind) => {
                let cc = special_class(kind);
                proof {
                    assert(class_of(cc) =~= special_set(kind));
                }
                if self.in_char_class {
                    proof {
                        lemma_special_nonempty(kind, cc);
                    }
                    self.handle_incomplete_char_range_buf();
                    let ghost mid = self.char_class_buf.0.ranges@;
                    CharClass::copy_into(&mut self.char_class_buf.0, &cc);
                    proof {
                        assert forall|k: u32| class_of(self.char_class_buf.0).contains(k) <==> st0.class_set.union(
                            ranges_set(pending_ranges(st0.range_buf)),
                        ).union(special_set(kind)).contains(k) by {
                            lemma_ranges_have_concat(old_ranges, pending_ranges(st0.range_buf), k);
                        }
                        assert(self.read_state() =~= spec_step(st0, c)->Ok_0);
                    }
                    Ok(())
                } else {
                    let ghost log0 = self.log@;
                    let r = self.handle_char_class(p, cc);
                    proof {
                        lemma_calls_assoc(log0, reduce_events(st0.ops, concat_run(st0.ops)), seq![ParseEvent::Shift(special_set(kind))]);
                        if r is Ok {
                            assert(self.read_state() =~= spec_step(st0, c)->Ok_0);
                        }
                    }
                        r
                }
            },
        }
    }

    /// Parses the expression `expr` from this fresh state by the user's
    /// actions `p` (see `parse`): the result is `spec_parse`, and the calls
    /// made of the actions are `parse_made`: those that `parse_calls` plans,
    /// up to and including the first that fails, and none after it.
    pub fn run<P: Parser<T> + ?Sized>(&mut self, p: &P, expr: &str) -> (r: Result<Option<T>, ParseError>)
        requires
            old(self).read_state() == initial_read_state(),
            old(self).stack@.len() == 0,
            old(self).paren_count_stack@.len() == 0,
            old(self).log@.len() == 0,
        ensures
            r == spec_parse(p, expr@),
            r is Ok ==> final(self).log@ == parse_calls(p, expr@),
            final(self).log@ == parse_made(p, expr@),
            final(self).log@.is_prefix_of(parse_calls(p, expr@)),
    {
        proof {
            assert(self.stack@ =~= Seq::<T>::empty());
            assert(self.paren_count_stack@ =~= Seq::<usize>::empty());
            assert(self.log@ =~= Seq::<ParseEvent>::empty());
        }
        let cs = chars_of(expr);
        let n = cs.len();
        let mut i: usize = 0;
        proof {
            assert(expr@.take(0) =~= Seq::<char>::empty());
        }
        while i < n
            invariant
                n == expr@.len(),
                cs@ == expr@,
                i <= n,
                spec_run(p, expr@.take(i as int)) == Ok::<(ReadState, Seq<T>, Seq<usize>), ParseError>(
                    (self.read_state(), self.stack@, self.paren_count_stack@),
                ),
                self.log@ == run_calls(p, expr@.take(i as int)),
                self.log@ == run_made(p, expr@.take(i as int)),
            decreases n - i,
        {
            let c = cs[i];
            let ghost take1 = expr@.take(i + 1);
            proof {
                assert(take1.drop_last() =~= expr@.take(i as int));
                assert(take1.last() == c);
            }
            if let Err(e) = self.step(p, c) {
                proof {
                    lemma_run_err(p, expr@, i + 1, e);
                    lemma_run_made_stops(p, expr@, i + 1);
                    lemma_run_calls_prefix(p, expr@, i + 1);
                    let planned = run_calls(p, take1);
                    let prev = run_calls(p, expr@.take(i as int));
                    assert(self.log@.is_prefix_of(planned)) by {
                        assert(self.log@.len() <= planned.len());
                        assert forall|q: int| 0 <= q < self.log@.len() implies self.log@[q] == planned[q] by {}
                    }
                    assert(run_calls(p, expr@).is_prefix_of(parse_calls(p, expr@)));
                    assert(self.log@.is_prefix_of(parse_calls(p, expr@))) by {
                        assert forall|q: int| 0 <= q < self.log@.len() implies self.log@[q] == parse_calls(p, expr@)[q] by {
                            assert(self.log@[q] == planned[q]);
                            assert(planned[q] == run_calls(p, expr@)[q]);
                        }
                    }
                }
                return Err(e);
            }
            i += 1;
        }
        proof {
            assert(expr@.take(n as int) =~= expr@);
        }
        if n == 0 {
            self.op_stack.push(Operator::EmptyPlaceholder);
        }
        let ghost stack1 = self.stack@;
        let ghost ops1 = self.op_stack@;
        let ghost log1 = self.log@;
        let ghost made1 = self.log@;
        proof {
            assert(parse_made(p, expr@) == made1 + reduce_events(ops1, reduce_made(p, stack1, ops1, ops1.len())));
            assert(ops1.subrange(0, ops1.len() - 0) =~= ops1);
            assert(log1 + reduce_events(ops1, 0) =~= log1);
            assert(parse_calls(p, expr@) == log1 + reduce_events(ops1, ops1.len()));
        }
        while self.op_stack.len() > 0
            invariant
                self.op_stack@.len() <= ops1.len(),
                self.op_stack@ == ops1.subrange(0, self.op_stack@.len() as int),
                reduce_n(p, stack1, ops1, (ops1.len() - self.op_stack@.len()) as nat) == Ok::<Seq<T>, ParseError>(self.stack@),
                self.log@ == log1 + reduce_events(ops1, (ops1.len() - self.op_stack@.len()) as nat),
                parse_calls(p, expr@) == log1 + reduce_events(ops1, ops1.len()),
                parse_made(p, expr@) == log1 + reduce_events(ops1, reduce_made(p, stack1, ops1, ops1.len())),
                spec_parse(p, expr@) == (match reduce_n(p, stack1, ops1, ops1.len()) {
                    Ok(st) => Ok(if st.len() == 0 {
                        None
                    } else {
                        Some(st.last())
                    }),
                    Err(e) => Err(e),
                }),
            decreases self.op_stack@.len(),
        {
            let ghost j = (ops1.len() - self.op_stack@.len()) as nat;
            proof {
                lemma_reduce_n_step(p, stack1, ops1, j);
                assert(ops1.subrange(0, ops1.len() - j) == self.op_stack@);
                assert(self.op_stack@.last() == ops1[ops1.len() - 1 - j]);
                lemma_reduce_events_snoc(ops1, j);
            }
            let r = self.reduce_stack(p);
            proof {
                assert(self.log@ =~= log1 + reduce_events(ops1, j + 1));
            }
            if let Err(e) = r {
                proof {
                    lemma_reduce_n_err(p, stack1, ops1, j + 1, ops1.len(), e);
                    lemma_reduce_made_err(p, stack1, ops1, j, ops1.len());
                    lemma_reduce_events_prefix(ops1, j + 1, ops1.len());
                    assert(self.log@.is_prefix_of(parse_calls(p, expr@))) by {
                        assert forall|q: int| 0 <= q < self.log@.len() implies self.log@[q] == parse_calls(p, expr@)[q] by {
                            if q >= log1.len() {
                                assert(reduce_events(ops1, j + 1)[q - log1.len()] == reduce_events(ops1, ops1.len())[q - log1.len()]);
                            }
                        }
                    }
                }
                return Err(e);
            }
            proof {
                assert(self.op_stack@ =~= ops1.subrange(0, self.op_stack@.len() as int));
            }
        }
        proof {
            assert(self.log@ == parse_calls(p, expr@));
            lemma_reduce_made_ok(p, stack1, ops1, ops1.len());
        }
        Ok(self.stack.pop())
    }

    pub fn push_operator(&mut self, op: Operator)
        ensures
            final(self).reader_unchanged(*old(self)),
            final(self).insert_concat == old(self).insert_concat,
            final(self).stack@ == old(self).stack@,
            final(self).log@ == old(self).log@,
            final(self).op_stack@ == old(self).op_stack@.push(op),
    {
        self.op_stack.push(op);
    }

    pub fn push_concatenation(&mut self)
        ensures
            final(self).reader_unchanged(*old(self)),
            final(self).insert_concat == old(self).insert_concat,
            final(self).stack@ == old(self).stack@,
            final(self).log@ == old(self).log@,
            final(self).op_stack@ == old(self).op_stack@.push(Operator::Concatenation),
    {
        self.op_stack.push(Operator::Concatenation);
    }
}

/// The characters of `s`, read once from the start.
fn chars_of(s: &str) -> (r: Vec<char>)
    ensures
        r@ == s@,
{
    broadcast use vstd::string::axiom_spec_iter;
    let mut r: Vec<char> = Vec::new();
    for ch in it: s.chars()
        invariant
            it.seq() == s@,
            r@ == it.seq().take(it.index() as int),
    {
        r.push(ch);
        assert(r@ =~= it.seq().take(it.index() as int + 1));
    }
    assert(r@ =~= s@);
    r
}

/// A shift-reduce parser of regular expressions. Implementors build the
/// nodes: the shift action pushes a node for a character class, the reduce
/// action combines nodes by the operator on top of the operator stack.
///
/// What an action does is a function of the nodes, the operator stack and,
/// for a shift, the characters of the class, given by `spec_shift` and
/// `spec_reduce`; the parse is stated in their terms (see `spec_parse`).
/// A shift leaves the operator stack as it is, and a reduction removes the
/// operator on top of it, as the parser's loops rely on.
///
/// A shift sees the class it is handed only through the code points it
/// holds (`class_of`): an implementor must treat two classes that hold the
/// same characters alike, whatever their ranges. So a node must not keep
/// the class's ranges as they were handed over (`[ab]` and `[a-b]` come
/// with different ranges); it may keep a form that depends on the
/// characters only, such as the runs of consecutive code points.
pub trait Parser<T: Clone> {
    /// The node stack after shifting a class that holds the code points
    /// `c` onto `stack` under the operator stack `ops`, or the error.
    spec fn spec_shift(&self, stack: Seq<T>, ops: Seq<Operator>, c: Set<u32>) -> Result<Seq<T>, ParseError>;

    /// The node stack after reducing `stack` by the operator on top of
    /// `ops`, or the error.
    spec fn spec_reduce(&self, stack: Seq<T>, ops: Seq<Operator>) -> Result<Seq<T>, ParseError>;

    /// Pushes a node for the character class `c`. It must leave the operator
    /// stack as it found it, and what it does depends on the characters of
    /// the class only.
    fn shift_action(&self, stack: &mut Vec<T>, op_stack: &mut Vec<Operator>, c: CharClass) -> (r: Result<(), ParseError>)
        ensures
            match self.spec_shift(old(stack)@, old(op_stack)@, class_of(c)) {
                Ok(s) => r is Ok && final(stack)@ == s && final(op_stack)@ == old(op_stack)@,
                Err(e) => r == Err::<(), ParseError>(e),
            },
    ;

    /// Reduces by the operator on top of the operator stack, which it must
    /// remove from that stack.
    fn reduce_action(&self, stack: &mut Vec<T>, op_stack: &mut Vec<Operator>) -> (r: Result<(), ParseError>)
        requires
            old(op_stack)@.len() > 0,
        ensures
            match self.spec_reduce(old(stack)@, old(op_stack)@) {
                Ok(s) => r is Ok && final(stack)@ == s && final(op_stack)@ == old(op_stack)@.drop_last(),
                Err(e) => r == Err::<(), ParseError>(e),
            },
    ;
}

/// The parse as a method of every `Parser`: `p.parse(expr)`.
pub trait ParseExpr<T: Clone>: Parser<T> {
    /// Parses the expression `expr` with these actions: the node left on
    /// top of the stack once every operator is reduced, or the first error
    /// (see the free function `parse`, which does the work).
    fn parse(&self, expr: &str) -> (r: Result<Option<T>, ParseError>)
        ensures
            r == spec_parse(self, expr@),
    ;
}

impl<T: Clone, P: Parser<T> + ?Sized> ParseExpr<T> for P {
    fn parse(&self, expr: &str) -> (r: Result<Option<T>, ParseError>) {
        parse(self, expr)
    }
}

/// The code points that the class `c` holds.
pub open spec fn class_of(c: CharClass) -> Set<u32> {
    Set::new(|k: u32| c.has(k))
}

/// Reading more of an expression keeps the first error.
proof fn lemma_run_err<T: Clone, P: Parser<T> + ?Sized>(p: &P, s: Seq<char>, k: int, e: ParseError)
    requires
        0 <= k <= s.len(),
        spec_run(p, s.take(k)) == Err::<(ReadState, Seq<T>, Seq<usize>), ParseError>(e),
    ensures
        spec_run(p, s) == Err::<(ReadState, Seq<T>, Seq<usize>), ParseError>(e),
    decreases s.len() - k,
{
    if k == s.len() {
        assert(s.take(k) =~= s);
    } else {
        assert(s.drop_last().take(k) =~= s.take(k));
        lemma_run_err(p, s.drop_last(), k, e);
    }
}

/// Where the user's actions let the reading go on, the reader moves as
/// `spec_read` says.
proof fn lemma_run_read<T: Clone, P: Parser<T> + ?Sized>(p: &P, s: Seq<char>)
    ensures
        spec_run(p, s) is Ok ==> spec_read(s) == Ok::<ReadState, ParseError>(spec_run(p, s)->Ok_0.0),
    decreases s.len(),
{
    if s.len() > 0 {
        lemma_run_read(p, s.drop_last());
    }
}

/// Parses the expression `expr` by the user's actions `p` and returns the
/// node left on top of the stack once every operator is reduced (see
/// `spec_parse`): the characters are read one by one, each shifting,
/// reducing or recording as `step_nodes` says; the first error, the
/// user's or the parser's own, is returned, and no action is called after
/// it. Whenever reading the expression meets an error that the parser
/// itself finds (an unbalanced parenthesis or operator, or an empty
/// character class; see `spec_read`), the parse fails. The calls made of
/// the actions are stated by `ParserState::run`, which does the work.
pub fn parse<T: Clone, P: Parser<T> + ?Sized>(p: &P, expr: &str) -> (r: Result<Option<T>, ParseError>)
    ensures
        r == spec_parse(p, expr@),
        spec_read(expr@) is Err ==> r is Err,
{
    proof {
        lemma_run_read(p, expr@);
    }
    let mut state: ParserState<T> = ParserState::new();
    proof {
        assert(class_of(state.char_class_buf.0) =~= Set::<u32>::empty());
        assert(state.read_state() =~= initial_read_state());
    }
    state.run(p, expr)
}

} // verus!
