//! Pattern text to automaton: an operator-precedence parser that drives the
//! [`Builder`].

use crate::language::{lemma_compiled, lemma_retained, recognizes, Pattern};
use crate::nfa::{BuildOp, Builder, BuilderView, Nfa, NfaView};
use crate::syntax::{lemma_syntax_complete, syntax, Regex};
use vstd::prelude::*;
use vstd::std_specs::iter::IteratorSpec;
use vstd::string::*;

verus! {

/// Why a pattern was refused.
#[derive(Clone, Copy, Debug, PartialEq, Eq)]
pub enum ParseError {
    /// The pattern ends after a backslash.
    UnexpectedEnd,
    /// A backslash stands before a character that needs no escape.
    BadEscape,
    /// A `(` is never closed.
    UnmatchedOpen,
    /// A `)` closes nothing.
    UnmatchedClose,
    /// A quantifier, `|`, `)` or the end stands where an operand is due.
    MissingOperand,
}

/// An entry of the operator stack.
#[derive(Clone, Copy, Debug)]
pub enum Operator {
    LeftParenthesis,
    Alternate,
    Concatenate,
}

impl Operator {
    pub open spec fn spec_is_left_parenthesis(self) -> bool {
        self is LeftParenthesis
    }

    #[verifier::when_used_as_spec(spec_is_left_parenthesis)]
    pub fn is_left_parenthesis(self) -> (b: bool)
        ensures
            b == self.spec_is_left_parenthesis(),
    {
        match self {
            Self::LeftParenthesis => true,
            _ => false,
        }
    }

    /// How tightly a binary operator binds.
    pub open spec fn spec_precedence(self) -> u32 {
        match self {
            Operator::Concatenate => 1,
            _ => 0,
        }
    }

    #[verifier::when_used_as_spec(spec_precedence)]
    pub fn precedence(self) -> (p: u32)
        requires
            !(self is LeftParenthesis),
        ensures
            p == self.spec_precedence(),
    {
        match self {
            Operator::Alternate => 0,
            _ => 1,
        }
    }

    pub open spec fn spec_groups_left(self, other: Self) -> bool {
        self.spec_precedence() >= other.spec_precedence()
    }

    /// Whether `self`, already on the stack, is applied before `other` is pushed.
    #[verifier::when_used_as_spec(spec_groups_left)]
    pub fn groups_left(self, other: Self) -> (b: bool)
        requires
            !(self is LeftParenthesis),
            !(other is LeftParenthesis),
        ensures
            b == self.spec_groups_left(other),
    {
        self.precedence() >= other.precedence()
    }

    /// The combinator that a binary operator stands for.
    pub open spec fn combinator(self) -> BuildOp {
        match self {
            Operator::Alternate => BuildOp::Alternate,
            _ => BuildOp::Concatenate,
        }
    }
}

/// The characters with a meaning of their own; a backslash makes them literal.
pub open spec fn is_meta(ch: char) -> bool {
    ch == '(' || ch == ')' || ch == '*' || ch == '+' || ch == '?' || ch == '\\' || ch == '|'
}

/// The characters that cannot begin an operand.
pub open spec fn ends_operand(ch: char) -> bool {
    ch == ')' || ch == '*' || ch == '+' || ch == '?' || ch == '|'
}

/// Whether an operand begins at position `i`, so that whatever ends just
/// before it is concatenated with it.
pub open spec fn operand_follows(pattern: Seq<char>, i: int) -> bool {
    0 <= i < pattern.len() && !ends_operand(pattern[i])
}

/// What a reader of the pattern has to remember to tell whether it is well formed.
pub struct Scan {
    /// The number of groups that are open.
    pub depth: nat,
    /// Whether an operand has just ended.
    pub operand: bool,
    /// Whether the last character was a backslash that escapes the next.
    pub escaped: bool,
}

/// The reader's state after one more character, or the fault that the
/// character makes.
pub open spec fn scan_step(s: Scan, ch: char) -> Result<Scan, ParseError> {
    if s.escaped {
        if is_meta(ch) {
            Ok(Scan { operand: true, escaped: false, ..s })
        } else {
            Err(ParseError::BadEscape)
        }
    } else if ch == '(' {
        Ok(Scan { depth: s.depth + 1, operand: false, ..s })
    } else if ch == ')' {
        if s.depth == 0 {
            Err(ParseError::UnmatchedClose)
        } else if !s.operand {
            Err(ParseError::MissingOperand)
        } else {
            Ok(Scan { depth: (s.depth - 1) as nat, ..s })
        }
    } else if ch == '*' || ch == '+' || ch == '?' {
        if s.operand {
            Ok(s)
        } else {
            Err(ParseError::MissingOperand)
        }
    } else if ch == '|' {
        if s.operand {
            Ok(Scan { operand: false, ..s })
        } else {
            Err(ParseError::MissingOperand)
        }
    } else if ch == '\\' {
        Ok(Scan { escaped: true, ..s })
    } else {
        Ok(Scan { operand: true, ..s })
    }
}

/// The reader's state after the first `n` characters, or the first fault among them.
pub open spec fn scan(pattern: Seq<char>, n: nat) -> Result<Scan, ParseError>
    decreases n,
{
    if n == 0 {
        Ok(Scan { depth: 0, operand: false, escaped: false })
    } else {
        match scan(pattern, (n - 1) as nat) {
            Ok(s) => scan_step(s, pattern[n - 1]),
            Err(e) => Err(e),
        }
    }
}

/// The fault of a pattern: the first one that a reader meets from left to
/// right, or else what is amiss at the end; `None` for a well-formed pattern.
pub open spec fn pattern_error(pattern: Seq<char>) -> Option<ParseError> {
    match scan(pattern, pattern.len()) {
        Err(e) => Some(e),
        Ok(s) => if s.escaped {
            Some(ParseError::UnexpectedEnd)
        } else if s.depth > 0 {
            Some(ParseError::UnmatchedOpen)
        } else if !s.operand {
            Some(ParseError::MissingOperand)
        } else {
            None
        },
    }
}

/// The operator stack and the combinators called so far.
pub struct Shunt {
    pub ops: Seq<Operator>,
    pub out: Seq<BuildOp>,
}

impl Shunt {
    pub open spec fn start() -> Shunt {
        Shunt { ops: Seq::empty(), out: Seq::empty() }
    }

    pub open spec fn emit(self, op: BuildOp) -> Shunt {
        Shunt { out: self.out.push(op), ..self }
    }

    pub open spec fn push(self, op: Operator) -> Shunt {
        Shunt { ops: self.ops.push(op), ..self }
    }

    /// Takes the top operator off the stack and calls its combinator.
    pub open spec fn apply_top(self) -> Shunt {
        Shunt { ops: self.ops.drop_last(), out: self.out.push(self.ops.last().combinator()) }
    }

    /// Applies the operators on top that bind at least as tightly as `op`.
    pub open spec fn reduce(self, op: Operator) -> Shunt
        decreases self.ops.len(),
    {
        if self.ops.len() > 0 && !(self.ops.last() is LeftParenthesis)
            && self.ops.last().spec_groups_left(op) {
            self.apply_top().reduce(op)
        } else {
            self
        }
    }

    /// A binary operator arrives: tighter ones are applied, then it is pushed.
    pub open spec fn handle(self, op: Operator) -> Shunt {
        self.reduce(op).push(op)
    }

    /// A group ends: the operators down to its `(` are applied, and the `(` is dropped.
    pub open spec fn close(self) -> Shunt
        decreases self.ops.len(),
    {
        if self.ops.len() == 0 {
            self
        } else if self.ops.last() is LeftParenthesis {
            Shunt { ops: self.ops.drop_last(), ..self }
        } else {
            self.apply_top().close()
        }
    }

    /// The pattern ends: every operator left is applied.
    pub open spec fn drain(self) -> Shunt
        decreases self.ops.len(),
    {
        if self.ops.len() == 0 {
            self
        } else {
            self.apply_top().drain()
        }
    }

    /// An operand has ended: if another follows, a concatenation is due.
    pub open spec fn join(self, follows: bool) -> Shunt {
        if follows {
            self.handle(Operator::Concatenate)
        } else {
            self
        }
    }

    /// The state after the character at position `i`, which a backslash
    /// escapes if `escaped` holds.
    pub open spec fn step(self, pattern: Seq<char>, i: int, escaped: bool) -> Shunt {
        let ch = pattern[i];
        let follows = operand_follows(pattern, i + 1);
        if escaped {
            self.emit(BuildOp::Char(ch)).join(follows)
        } else if ch == '(' {
            self.push(Operator::LeftParenthesis)
        } else if ch == ')' {
            self.close().join(follows)
        } else if ch == '*' {
            self.emit(BuildOp::ZeroOrMore).join(follows)
        } else if ch == '+' {
            self.emit(BuildOp::OneOrMore).join(follows)
        } else if ch == '?' {
            self.emit(BuildOp::ZeroOrOne).join(follows)
        } else if ch == '|' {
            self.handle(Operator::Alternate)
        } else if ch == '\\' {
            self
        } else {
            self.emit(BuildOp::Char(ch)).join(follows)
        }
    }
}

/// The operator stack and the combinators called after the first `n`
/// characters of a well-formed pattern.
pub open spec fn shunt(pattern: Seq<char>, n: nat) -> Shunt
    decreases n,
{
    if n == 0 {
        Shunt::start()
    } else {
        let escaped = match scan(pattern, (n - 1) as nat) {
            Ok(s) => s.escaped,
            Err(_) => false,
        };
        shunt(pattern, (n - 1) as nat).step(pattern, n - 1, escaped)
    }
}

/// The combinators that a well-formed pattern stands for, in the order of
/// their calls: operands before their operator.
pub open spec fn postfix(pattern: Seq<char>) -> Seq<BuildOp> {
    shunt(pattern, pattern.len()).drain().out
}

/// The automaton `nfa` with the combinators `ops` run and their result
/// accepted under `token`.
pub open spec fn extended(nfa: NfaView, ops: Seq<BuildOp>, token: usize) -> NfaView {
    BuilderView { nfa, stack: Seq::empty() }.run(ops).accept(token).nfa
}

/// The automaton `nfa` with the expression `tree` added under `token`.
pub open spec fn compiled(nfa: NfaView, tree: Regex, token: usize) -> NfaView {
    extended(nfa, tree.flatten(), token)
}


/// The number of binary operators on the stack.
pub open spec fn count_binary(ops: Seq<Operator>) -> nat
    decreases ops.len(),
{
    if ops.len() == 0 {
        0
    } else {
        count_binary(ops.drop_last()) + if ops.last() is LeftParenthesis {
            0nat
        } else {
            1nat
        }
    }
}

/// The number of open groups on the stack.
pub open spec fn count_open(ops: Seq<Operator>) -> nat
    decreases ops.len(),
{
    if ops.len() == 0 {
        0
    } else {
        count_open(ops.drop_last()) + if ops.last() is LeftParenthesis {
            1nat
        } else {
            0nat
        }
    }
}

proof fn lemma_count_open_le_len(ops: Seq<Operator>)
    ensures
        count_open(ops) <= ops.len(),
    decreases ops.len(),
{
    if ops.len() > 0 {
        lemma_count_open_le_len(ops.drop_last());
    }
}

/// Once the reader has met a fault, more input does not change it.
pub proof fn lemma_scan_error_stays(pattern: Seq<char>, n: nat, m: nat)
    requires
        n <= m,
        scan(pattern, n) is Err,
    ensures
        scan(pattern, m) == scan(pattern, n),
    decreases m,
{
    if n < m {
        lemma_scan_error_stays(pattern, n, (m - 1) as nat);
    }
}

/// The builder has grown out of `base` without touching it: the states of
/// `base` are as they were, the later states report nothing, and the
/// fragments on the stack are made of later states.
spec fn grown(cur: BuilderView, base: NfaView) -> bool {
    &&& cur.nfa.extends(base)
    &&& cur.nfa.states.len() <= usize::MAX
    &&& cur.nfa.quiet_from(base.states.len() as int)
    &&& forall|i: int|
        0 <= i < cur.stack.len() ==> (#[trigger] cur.stack[i]).start_state_id
            >= base.states.len() && cur.stack[i].end_state_id >= base.states.len()
}

fn is_meta_char(ch: char) -> (b: bool)
    ensures
        b == is_meta(ch),
{
    ch == '(' || ch == ')' || ch == '*' || ch == '+' || ch == '?' || ch == '\\' || ch == '|'
}

fn ends_operand_char(ch: char) -> (b: bool)
    ensures
        b == ends_operand(ch),
{
    ch == ')' || ch == '*' || ch == '+' || ch == '?' || ch == '|'
}

fn collect_chars(text: &str) -> (chars: Vec<char>)
    ensures
        chars@ == text@,
{
    let mut chars: Vec<char> = Vec::new();
    let mut rest = text.chars();
    loop
        invariant
            rest.obeys_prophetic_iter_laws(),
            rest.decrease() is Some,
            chars@ + rest.remaining() == text@,
        ensures
            chars@ == text@,
        decreases rest.decrease()->0,
    {
        let ghost before = rest.remaining();
        let ghost collected = chars@;
        match rest.next() {
            Some(ch) => {
                chars.push(ch);
                assert(chars@ + rest.remaining() =~= collected + before);
            },
            None => {
                assert(chars@ + rest.remaining() =~= chars@);
                break;
            },
        }
    }
    chars
}

/// Compiles patterns, one after the other, into one automaton.
pub struct Parser {
    nfa: Builder,
    operator_stack: Vec<Operator>,
    patterns: Ghost<Seq<Pattern>>,
}

impl View for Parser {
    type V = NfaView;

    /// The automaton of the patterns parsed so far.
    closed spec fn view(&self) -> NfaView {
        self.nfa@.nfa
    }
}

impl Parser {
    /// The patterns parsed so far: the tree of each, and its token.
    pub closed spec fn patterns(&self) -> Seq<Pattern> {
        self.patterns@
    }

    /// Between two patterns both stacks are empty.
    closed spec fn idle(&self) -> bool {
        &&& self.nfa@.wf()
        &&& self.nfa@.stack.len() == 0
        &&& self.operator_stack@.len() == 0
    }

    /// Between two patterns both stacks are empty, and the automaton
    /// recognizes the patterns parsed so far.
    pub closed spec fn wf(&self) -> bool {
        &&& self.idle()
        &&& recognizes(self@, self.patterns@)
    }

    pub fn new() -> (parser: Self)
        ensures
            parser.wf(),
            parser@ == NfaView::empty(),
            parser.patterns() == Seq::<Pattern>::empty(),
    {
        Self { nfa: Builder::new(), operator_stack: Vec::new(), patterns: Ghost(Seq::empty()) }
    }

    /// Adds `pattern` to the automaton, with `token` reported where it matches.
    ///
    /// A pattern that the grammar derives is added as its tree says. Any
    /// other is refused with its fault, and the patterns parsed before stay
    /// as they were.
    pub fn parse(&mut self, pattern: &str, token: usize) -> (result: Result<(), ParseError>)
        requires
            old(self).wf(),
            token < usize::MAX,
        ensures
            final(self).wf(),
            match result {
                Ok(()) => {
                    &&& syntax(pattern@) is Some
                    &&& final(self)@ == compiled(old(self)@, syntax(pattern@)->0, token)
                    &&& final(self)@.fragments.len() == old(self)@.fragments.len() + 1
                    &&& final(self).patterns() == old(self).patterns().push(
                        Pattern { tree: syntax(pattern@)->0, token },
                    )
                },
                Err(e) => {
                    &&& syntax(pattern@) is None
                    &&& pattern_error(pattern@) == Some(e)
                    &&& final(self)@.fragments == old(self)@.fragments
                    &&& final(self).patterns() == old(self).patterns()
                },
            },
            old(self)@.states.is_prefix_of(final(self)@.states),
    {
        let chars = collect_chars(pattern);
        proof {
            lemma_syntax_complete(pattern@);
        }
        let result = self.parse_chars(&chars, token);
        if result.is_err() {
            self.operator_stack.clear();
            self.nfa.truncate(0);
            proof {
                lemma_retained(self@, old(self)@, self.patterns@);
            }
        } else {
            proof {
                let tree = syntax(pattern@)->0;
                self.nfa.lemma_state_count_fits();
                lemma_compiled(old(self)@, self.patterns@, tree, token);
                self.patterns@ = self.patterns@.push(Pattern { tree, token });
            }
        }
        result
    }

    /// The automaton of the patterns parsed so far.
    pub fn build(self) -> (nfa: Nfa)
        requires
            self.wf(),
        ensures
            nfa@ == self@,
            nfa@.wf(),
            recognizes(nfa@, self.patterns()),
    {
        self.nfa.build()
    }

    fn parse_chars(&mut self, chars: &Vec<char>, token: usize) -> (result: Result<
        (),
        ParseError,
    >)
        requires
            old(self).idle(),
            token < usize::MAX,
        ensures
            final(self).nfa@.wf(),
            final(self).patterns == old(self).patterns,
            old(self)@.states.is_prefix_of(final(self)@.states),
            result is Err ==> final(self)@.quiet_from(old(self)@.states.len() as int),
            match result {
                Ok(()) => pattern_error(chars@) is None && final(self)@ == extended(
                    old(self)@,
                    postfix(chars@),
                    token,
                ) && final(self).idle() && final(self)@.fragments.len() == old(
                    self,
                )@.fragments.len() + 1,
                Err(e) => pattern_error(chars@) == Some(e) && final(self)@.fragments == old(
                    self,
                )@.fragments,
            },
    {
        let ghost base = self.nfa@;
        let ghost mut out: Seq<BuildOp> = Seq::empty();
        let mut depth: usize = 0;
        let mut operand = false;
        let mut i: usize = 0;
        proof {
            self.nfa.lemma_state_count_fits();
            assert(base.stack =~= Seq::empty());
            assert(self.operator_stack@ =~= Seq::empty());
        }
        while i < chars.len()
            invariant
                self.patterns == old(self).patterns,
                i <= chars.len(),
                base == old(self).nfa@,
                base.stack.len() == 0,
                scan(chars@, i as nat) == Ok::<Scan, ParseError>(
                    Scan { depth: depth as nat, operand, escaped: false },
                ),
                shunt(chars@, i as nat) == (Shunt { ops: self.operator_stack@, out }),
                self.nfa@ == base.run(out),
                self.nfa@.wf(),
                grown(self.nfa@, base.nfa),
                count_open(self.operator_stack@) == depth,
                self.nfa@.stack.len() == count_binary(self.operator_stack@) + if operand
                    && !operand_follows(chars@, i as int) {
                    1int
                } else {
                    0int
                },
            decreases chars.len() - i,
        {
            let ch = chars[i];
            let ghost before = scan(chars@, i as nat)->Ok_0;
            assert(scan(chars@, (i + 1) as nat) == scan_step(before, ch));
            let ghost shunted = shunt(chars@, i as nat);
            assert(shunt(chars@, (i + 1) as nat) == shunted.step(chars@, i as int, false));
            if ch == '(' {
                self.operator_stack.push(Operator::LeftParenthesis);
                proof {
                    assert(self.operator_stack@.drop_last() =~= shunted.ops);
                    assert(count_open(self.operator_stack@) == depth + 1);
                    lemma_count_open_le_len(self.operator_stack@);
                    assert(self.operator_stack.len() == self.operator_stack@.len());
                }
                depth += 1;
                operand = false;
                i += 1;
            } else if ch == ')' {
                if depth == 0 {
                    proof {
                        lemma_scan_error_stays(chars@, (i + 1) as nat, chars@.len());
                    }
                    return Err(ParseError::UnmatchedClose);
                }
                if !operand {
                    proof {
                        lemma_scan_error_stays(chars@, (i + 1) as nat, chars@.len());
                    }
                    return Err(ParseError::MissingOperand);
                }
                let closed = self.close_group(Ghost(base), Ghost(out));
                depth -= 1;
                let joined = self.try_concatenate(chars, i + 1, Ghost(base), closed);
                proof {
                    out = joined@;
                }
                i += 1;
            } else if ch == '*' || ch == '+' || ch == '?' {
                if !operand {
                    proof {
                        lemma_scan_error_stays(chars@, (i + 1) as nat, chars@.len());
                    }
                    return Err(ParseError::MissingOperand);
                }
                let quantified = self.quantify(ch, Ghost(base), Ghost(out));
                let joined = self.try_concatenate(chars, i + 1, Ghost(base), quantified);
                proof {
                    out = joined@;
                }
                i += 1;
            } else if ch == '|' {
                if !operand {
                    proof {
                        lemma_scan_error_stays(chars@, (i + 1) as nat, chars@.len());
                    }
                    return Err(ParseError::MissingOperand);
                }
                let handled = self.handle_operator(Operator::Alternate, Ghost(base), Ghost(out));
                proof {
                    out = handled@;
                }
                operand = false;
                i += 1;
            } else if ch == '\\' {
                if i + 1 >= chars.len() {
                    return Err(ParseError::UnexpectedEnd);
                }
                let escaped = chars[i + 1];
                let ghost middle = scan(chars@, (i + 1) as nat)->Ok_0;
                assert(scan(chars@, (i + 2) as nat) == scan_step(middle, escaped));
                assert(shunt(chars@, (i + 2) as nat) == shunted.step(chars@, i + 1, true));
                if !is_meta_char(escaped) {
                    proof {
                        lemma_scan_error_stays(chars@, (i + 2) as nat, chars@.len());
                    }
                    return Err(ParseError::BadEscape);
                }
                let pushed = self.literal(escaped, Ghost(base), Ghost(out));
                let joined = self.try_concatenate(chars, i + 2, Ghost(base), pushed);
                proof {
                    out = joined@;
                }
                operand = true;
                i += 2;
            } else {
                let pushed = self.literal(ch, Ghost(base), Ghost(out));
                let joined = self.try_concatenate(chars, i + 1, Ghost(base), pushed);
                proof {
                    out = joined@;
                }
                operand = true;
                i += 1;
            }
        }
        if depth > 0 {
            return Err(ParseError::UnmatchedOpen);
        }
        if !operand {
            return Err(ParseError::MissingOperand);
        }
        self.drain(Ghost(base), Ghost(out));
        self.nfa.accept(token);
        proof {
            assert(self.nfa@.stack =~= Seq::empty());
            assert(base == (BuilderView { nfa: old(self)@, stack: Seq::empty() }));
        }
        Ok(())
    }

    /// Pushes the fragment of a literal character.
    fn literal(&mut self, ch: char, Ghost(base): Ghost<BuilderView>, Ghost(out): Ghost<
        Seq<BuildOp>,
    >) -> (new_out: Ghost<Seq<BuildOp>>)
        requires
            old(self).nfa@ == base.run(out),
            old(self).nfa@.wf(),
            grown(old(self).nfa@, base.nfa),
        ensures
            final(self).patterns == old(self).patterns,
            new_out@ == out.push(BuildOp::Char(ch)),
            final(self).operator_stack@ == old(self).operator_stack@,
            final(self).nfa@ == base.run(new_out@),
            final(self).nfa@.wf(),
            grown(final(self).nfa@, base.nfa),
            final(self).nfa@.stack.len() == old(self).nfa@.stack.len() + 1,
    {
        self.nfa.char(ch);
        proof {
            self.nfa.lemma_state_count_fits();
            base.lemma_run_push(out, BuildOp::Char(ch));
            let ghost now = self.nfa@;
            assert forall|i: int| 0 <= i < now.stack.len() implies (#[trigger] now.stack[i]).start_state_id
                >= base.nfa.states.len() && now.stack[i].end_state_id >= base.nfa.states.len() by {
                if i < now.stack.len() - 1 {
                    assert(now.stack[i] == now.stack.drop_last()[i]);
                }
            }
        }
        Ghost(out.push(BuildOp::Char(ch)))
    }

    /// Applies the quantifier `ch` to the fragment on top.
    fn quantify(&mut self, ch: char, Ghost(base): Ghost<BuilderView>, Ghost(out): Ghost<
        Seq<BuildOp>,
    >) -> (new_out: Ghost<Seq<BuildOp>>)
        requires
            ch == '*' || ch == '+' || ch == '?',
            old(self).nfa@ == base.run(out),
            old(self).nfa@.wf(),
            grown(old(self).nfa@, base.nfa),
            old(self).nfa@.stack.len() >= 1,
        ensures
            final(self).patterns == old(self).patterns,
            new_out@ == out.push(
                if ch == '*' {
                    BuildOp::ZeroOrMore
                } else if ch == '+' {
                    BuildOp::OneOrMore
                } else {
                    BuildOp::ZeroOrOne
                },
            ),
            final(self).operator_stack@ == old(self).operator_stack@,
            final(self).nfa@ == base.run(new_out@),
            final(self).nfa@.wf(),
            grown(final(self).nfa@, base.nfa),
            final(self).nfa@.stack.len() == old(self).nfa@.stack.len(),
    {
        let ghost op = if ch == '*' {
            BuildOp::ZeroOrMore
        } else if ch == '+' {
            BuildOp::OneOrMore
        } else {
            BuildOp::ZeroOrOne
        };
        if ch == '*' {
            self.nfa.zero_or_more();
        } else if ch == '+' {
            self.nfa.one_or_more();
        } else {
            self.nfa.zero_or_one();
        }
        proof {
            self.nfa.lemma_state_count_fits();
            base.lemma_run_push(out, op);
        }
        Ghost(out.push(op))
    }

    /// Calls the combinator of a binary operator.
    fn apply_operator(
        &mut self,
        operator: Operator,
        Ghost(base): Ghost<BuilderView>,
        Ghost(out): Ghost<Seq<BuildOp>>,
    ) -> (new_out: Ghost<Seq<BuildOp>>)
        requires
            !(operator is LeftParenthesis),
            old(self).nfa@ == base.run(out),
            old(self).nfa@.wf(),
            grown(old(self).nfa@, base.nfa),
            old(self).nfa@.stack.len() >= 2,
        ensures
            final(self).patterns == old(self).patterns,
            new_out@ == out.push(operator.combinator()),
            final(self).operator_stack@ == old(self).operator_stack@,
            final(self).nfa@ == base.run(new_out@),
            final(self).nfa@.wf(),
            grown(final(self).nfa@, base.nfa),
            final(self).nfa@.stack.len() == old(self).nfa@.stack.len() - 1,
    {
        match operator {
            Operator::Alternate => self.nfa.alternate(),
            _ => self.nfa.concatenate(),
        }
        proof {
            self.nfa.lemma_state_count_fits();
            base.lemma_run_push(out, operator.combinator());
        }
        Ghost(out.push(operator.combinator()))
    }

    /// Whether the operator on top is applied before `operator` is pushed.
    fn top_groups_left(&self, operator: Operator) -> (b: bool)
        requires
            !(operator is LeftParenthesis),
        ensures
            b == (self.operator_stack@.len() > 0 && !(self.operator_stack@.last() is LeftParenthesis)
                && self.operator_stack@.last().spec_groups_left(operator)),
    {
        let len: usize = self.operator_stack.len();
        if len == 0 {
            return false;
        }
        let top = self.operator_stack[len - 1];
        !top.is_left_parenthesis() && top.groups_left(operator)
    }

    /// Applies the operators that bind at least as tightly as `operator_0`,
    /// then pushes it.
    fn handle_operator(
        &mut self,
        operator_0: Operator,
        Ghost(base): Ghost<BuilderView>,
        Ghost(out): Ghost<Seq<BuildOp>>,
    ) -> (new_out: Ghost<Seq<BuildOp>>)
        requires
            !(operator_0 is LeftParenthesis),
            old(self).nfa@ == base.run(out),
            old(self).nfa@.wf(),
            grown(old(self).nfa@, base.nfa),
            old(self).nfa@.stack.len() == count_binary(old(self).operator_stack@) + 1,
        ensures
            final(self).patterns == old(self).patterns,
            (Shunt { ops: final(self).operator_stack@, out: new_out@ }) == (Shunt {
                ops: old(self).operator_stack@,
                out,
            }).handle(operator_0),
            final(self).nfa@ == base.run(new_out@),
            final(self).nfa@.wf(),
            grown(final(self).nfa@, base.nfa),
            final(self).nfa@.stack.len() == count_binary(final(self).operator_stack@),
            count_open(final(self).operator_stack@) == count_open(old(self).operator_stack@),
    {
        let ghost start = Shunt { ops: self.operator_stack@, out };
        let ghost mut cur = out;
        while self.top_groups_left(operator_0)
            invariant
                self.patterns == old(self).patterns,
                !(operator_0 is LeftParenthesis),
                (Shunt { ops: self.operator_stack@, out: cur }).reduce(operator_0) == start.reduce(
                    operator_0,
                ),
                self.nfa@ == base.run(cur),
                self.nfa@.wf(),
                grown(self.nfa@, base.nfa),
                self.nfa@.stack.len() == count_binary(self.operator_stack@) + 1,
                count_open(self.operator_stack@) == count_open(start.ops),
            decreases self.operator_stack@.len(),
        {
            let operator_1 = self.operator_stack.pop().unwrap();
            let applied = self.apply_operator(operator_1, Ghost(base), Ghost(cur));
            proof {
                cur = applied@;
            }
        }
        self.operator_stack.push(operator_0);
        proof {
            assert(self.operator_stack@.drop_last() =~= start.reduce(operator_0).ops);
        }
        Ghost(cur)
    }

    /// Pushes a concatenation if an operand begins at position `i`.
    fn try_concatenate(
        &mut self,
        chars: &Vec<char>,
        i: usize,
        Ghost(base): Ghost<BuilderView>,
        Ghost(out): Ghost<Seq<BuildOp>>,
    ) -> (new_out: Ghost<Seq<BuildOp>>)
        requires
            i <= chars.len(),
            old(self).nfa@ == base.run(out),
            old(self).nfa@.wf(),
            grown(old(self).nfa@, base.nfa),
            old(self).nfa@.stack.len() == count_binary(old(self).operator_stack@) + 1,
        ensures
            final(self).patterns == old(self).patterns,
            (Shunt { ops: final(self).operator_stack@, out: new_out@ }) == (Shunt {
                ops: old(self).operator_stack@,
                out,
            }).join(operand_follows(chars@, i as int)),
            final(self).nfa@ == base.run(new_out@),
            final(self).nfa@.wf(),
            grown(final(self).nfa@, base.nfa),
            final(self).nfa@.stack.len() == count_binary(final(self).operator_stack@)
                + if operand_follows(chars@, i as int) {
                0int
            } else {
                1int
            },
            count_open(final(self).operator_stack@) == count_open(old(self).operator_stack@),
    {
        if i < chars.len() && !ends_operand_char(chars[i]) {
            self.handle_operator(Operator::Concatenate, Ghost(base), Ghost(out))
        } else {
            Ghost(out)
        }
    }

    fn top_is_left_parenthesis(&self) -> (b: bool)
        requires
            self.operator_stack@.len() > 0,
        ensures
            b == (self.operator_stack@.last() is LeftParenthesis),
    {
        self.operator_stack[self.operator_stack.len() - 1].is_left_parenthesis()
    }

    /// Applies the operators down to the innermost `(` and drops it.
    fn close_group(&mut self, Ghost(base): Ghost<BuilderView>, Ghost(out): Ghost<Seq<BuildOp>>) -> (new_out: Ghost<Seq<BuildOp>>)
        requires
            old(self).nfa@ == base.run(out),
            old(self).nfa@.wf(),
            grown(old(self).nfa@, base.nfa),
            old(self).nfa@.stack.len() == count_binary(old(self).operator_stack@) + 1,
            count_open(old(self).operator_stack@) >= 1,
        ensures
            final(self).patterns == old(self).patterns,
            (Shunt { ops: final(self).operator_stack@, out: new_out@ }) == (Shunt {
                ops: old(self).operator_stack@,
                out,
            }).close(),
            final(self).nfa@ == base.run(new_out@),
            final(self).nfa@.wf(),
            grown(final(self).nfa@, base.nfa),
            final(self).nfa@.stack.len() == count_binary(final(self).operator_stack@) + 1,
            count_open(final(self).operator_stack@) == count_open(old(self).operator_stack@) - 1,
    {
        let ghost start = Shunt { ops: self.operator_stack@, out };
        let ghost mut cur = out;
        while !self.top_is_left_parenthesis()
            invariant
                self.patterns == old(self).patterns,
                (Shunt { ops: self.operator_stack@, out: cur }).close() == start.close(),
                self.nfa@ == base.run(cur),
                self.nfa@.wf(),
                grown(self.nfa@, base.nfa),
                self.nfa@.stack.len() == count_binary(self.operator_stack@) + 1,
                count_open(self.operator_stack@) == count_open(start.ops),
                count_open(self.operator_stack@) >= 1,
            decreases self.operator_stack@.len(),
        {
            let operator = self.operator_stack.pop().unwrap();
            let applied = self.apply_operator(operator, Ghost(base), Ghost(cur));
            proof {
                cur = applied@;
            }
        }
        self.operator_stack.pop();
        Ghost(cur)
    }

    /// Applies every operator that is left at the end of the pattern.
    fn drain(&mut self, Ghost(base): Ghost<BuilderView>, Ghost(out): Ghost<Seq<BuildOp>>) -> (new_out: Ghost<Seq<BuildOp>>)
        requires
            old(self).nfa@ == base.run(out),
            old(self).nfa@.wf(),
            grown(old(self).nfa@, base.nfa),
            old(self).nfa@.stack.len() == count_binary(old(self).operator_stack@) + 1,
            count_open(old(self).operator_stack@) == 0,
        ensures
            final(self).patterns == old(self).patterns,
            (Shunt { ops: final(self).operator_stack@, out: new_out@ }) == (Shunt {
                ops: old(self).operator_stack@,
                out,
            }).drain(),
            final(self).operator_stack@.len() == 0,
            final(self).nfa@ == base.run(new_out@),
            final(self).nfa@.wf(),
            grown(final(self).nfa@, base.nfa),
            final(self).nfa@.stack.len() == 1,
    {
        let ghost start = Shunt { ops: self.operator_stack@, out };
        let ghost mut cur = out;
        while self.operator_stack.len() > 0
            invariant
                self.patterns == old(self).patterns,
                (Shunt { ops: self.operator_stack@, out: cur }).drain() == start.drain(),
                self.nfa@ == base.run(cur),
                self.nfa@.wf(),
                grown(self.nfa@, base.nfa),
                self.nfa@.stack.len() == count_binary(self.operator_stack@) + 1,
                count_open(self.operator_stack@) == 0,
            decreases self.operator_stack@.len(),
        {
            let operator = self.operator_stack.pop().unwrap();
            let applied = self.apply_operator(operator, Ghost(base), Ghost(cur));
            proof {
                cur = applied@;
            }
        }
        Ghost(cur)
    }
}

impl Default for Parser {
    /// The parser that has seen no pattern.
    fn default() -> (parser: Self)
        ensures
            parser.wf(),
            parser@ == NfaView::empty(),
            parser.patterns() == Seq::<Pattern>::empty(),
    {
        Self::new()
    }
}

} // verus!
