//! The grammar of patterns, and the tree that a pattern stands for.

use crate::nfa::BuildOp;
use crate::parser::{
    ends_operand, is_meta, lemma_scan_error_stays, operand_follows, pattern_error, postfix, scan,
    scan_step, shunt, Operator, ParseError, Scan, Shunt,
};
use vstd::prelude::*;

verus! {

/// A regular expression.
pub enum Regex {
    /// The character itself.
    Char(char),
    /// The expression, or nothing.
    ZeroOrOne(Box<Regex>),
    /// The expression, once or several times.
    OneOrMore(Box<Regex>),
    /// The expression, any number of times.
    ZeroOrMore(Box<Regex>),
    /// The first expression, then the second.
    Concatenate(Box<Regex>, Box<Regex>),
    /// The first expression or the second.
    Alternate(Box<Regex>, Box<Regex>),
}

impl Regex {
    /// The combinators that build the expression: those of the operands
    /// before that of their operator.
    pub open spec fn flatten(self) -> Seq<BuildOp>
        decreases self,
    {
        match self {
            Regex::Char(ch) => seq![BuildOp::Char(ch)],
            Regex::ZeroOrOne(inner) => inner.flatten().push(BuildOp::ZeroOrOne),
            Regex::OneOrMore(inner) => inner.flatten().push(BuildOp::OneOrMore),
            Regex::ZeroOrMore(inner) => inner.flatten().push(BuildOp::ZeroOrMore),
            Regex::Concatenate(first, second) => (first.flatten() + second.flatten()).push(
                BuildOp::Concatenate,
            ),
            Regex::Alternate(first, second) => (first.flatten() + second.flatten()).push(
                BuildOp::Alternate,
            ),
        }
    }
}

/// A part of a pattern that was read: its tree, and where it ends.
pub struct Phrase {
    pub tree: Regex,
    pub end: int,
}

/// Whether `ch` is a quantifier.
pub open spec fn is_quantifier(ch: char) -> bool {
    ch == '*' || ch == '+' || ch == '?'
}

/// The expression `tree` under the quantifier `ch`.
pub open spec fn quantify(tree: Regex, ch: char) -> Regex {
    if ch == '*' {
        Regex::ZeroOrMore(Box::new(tree))
    } else if ch == '+' {
        Regex::OneOrMore(Box::new(tree))
    } else {
        Regex::ZeroOrOne(Box::new(tree))
    }
}

/// `tree` under the quantifiers that stand from position `j` on.
pub open spec fn quantified(pattern: Seq<char>, tree: Regex, j: int) -> Phrase
    decreases pattern.len() - j,
{
    if 0 <= j < pattern.len() && is_quantifier(pattern[j]) {
        quantified(pattern, quantify(tree, pattern[j]), j + 1)
    } else {
        Phrase { tree, end: j }
    }
}

/// A group, an escaped character or a plain character at position `i`.
pub open spec fn primary(pattern: Seq<char>, i: int) -> Option<Phrase>
    decreases pattern.len() - i, 0int,
{
    if !(0 <= i < pattern.len()) {
        None
    } else if pattern[i] == '(' {
        match alternation(pattern, i + 1) {
            Some(inner) => if i < inner.end < pattern.len() && pattern[inner.end] == ')' {
                Some(Phrase { tree: inner.tree, end: inner.end + 1 })
            } else {
                None
            },
            None => None,
        }
    } else if pattern[i] == '\\' {
        if i + 1 < pattern.len() && is_meta(pattern[i + 1]) {
            Some(Phrase { tree: Regex::Char(pattern[i + 1]), end: i + 2 })
        } else {
            None
        }
    } else if ends_operand(pattern[i]) {
        None
    } else {
        Some(Phrase { tree: Regex::Char(pattern[i]), end: i + 1 })
    }
}

/// A primary with its quantifiers at position `i`.
pub open spec fn atom(pattern: Seq<char>, i: int) -> Option<Phrase>
    decreases pattern.len() - i, 1int,
{
    match primary(pattern, i) {
        Some(inner) => Some(quantified(pattern, inner.tree, inner.end)),
        None => None,
    }
}

/// `left` followed by the atoms that stand from position `j` on.
pub open spec fn sequence_from(pattern: Seq<char>, left: Regex, j: int) -> Option<Phrase>
    decreases pattern.len() - j, 2int,
{
    if operand_follows(pattern, j) {
        match atom(pattern, j) {
            Some(next) => if j < next.end <= pattern.len() {
                sequence_from(
                    pattern,
                    Regex::Concatenate(Box::new(left), Box::new(next.tree)),
                    next.end,
                )
            } else {
                None
            },
            None => None,
        }
    } else {
        Some(Phrase { tree: left, end: j })
    }
}

/// One or more atoms at position `i`.
pub open spec fn sequence(pattern: Seq<char>, i: int) -> Option<Phrase>
    decreases pattern.len() - i, 3int,
{
    match atom(pattern, i) {
        Some(first) => if i <= first.end <= pattern.len() {
            sequence_from(pattern, first.tree, first.end)
        } else {
            None
        },
        None => None,
    }
}

/// `left` or the sequences that stand, each after a `|`, from position `j` on.
pub open spec fn alternation_from(pattern: Seq<char>, left: Regex, j: int) -> Option<Phrase>
    decreases pattern.len() - j, 4int,
{
    if 0 <= j < pattern.len() && pattern[j] == '|' {
        match sequence(pattern, j + 1) {
            Some(next) => if j < next.end <= pattern.len() {
                alternation_from(
                    pattern,
                    Regex::Alternate(Box::new(left), Box::new(next.tree)),
                    next.end,
                )
            } else {
                None
            },
            None => None,
        }
    } else {
        Some(Phrase { tree: left, end: j })
    }
}

/// One or more sequences with `|` between them at position `i`.
pub open spec fn alternation(pattern: Seq<char>, i: int) -> Option<Phrase>
    decreases pattern.len() - i, 5int,
{
    match sequence(pattern, i) {
        Some(first) => if i <= first.end <= pattern.len() {
            alternation_from(pattern, first.tree, first.end)
        } else {
            None
        },
        None => None,
    }
}

/// The tree of a pattern that the grammar derives as a whole.
pub open spec fn syntax(pattern: Seq<char>) -> Option<Regex> {
    match alternation(pattern, 0) {
        Some(whole) => if whole.end == pattern.len() {
            Some(whole.tree)
        } else {
            None
        },
        None => None,
    }
}


/// The combinators of the operators on the stack, in the order in which
/// they leave it.
pub open spec fn unwind(pending: Seq<Operator>) -> Seq<BuildOp>
    decreases pending.len(),
{
    if pending.len() == 0 {
        Seq::empty()
    } else {
        seq![pending.last().combinator()] + unwind(pending.drop_last())
    }
}

/// Whether no entry is a parenthesis.
pub open spec fn binary(pending: Seq<Operator>) -> bool {
    forall|i: int| 0 <= i < pending.len() ==> !(#[trigger] pending[i] is LeftParenthesis)
}

/// Whether there is nothing pending, or one concatenation.
pub open spec fn loose(pending: Seq<Operator>) -> bool {
    pending.len() == 0 || (pending.len() == 1 && pending[0] is Concatenate)
}

/// Whether a concatenation that arrives leaves the stack as it is.
pub open spec fn tight(base: Seq<Operator>) -> bool {
    base.len() == 0 || !(base.last() is Concatenate)
}

/// Whether a binary operator that arrives leaves the stack as it is.
pub open spec fn opened(base: Seq<Operator>) -> bool {
    base.len() == 0 || base.last() is LeftParenthesis
}

/// Whether the reader is in a plain state after `j` characters.
pub open spec fn scanned(pattern: Seq<char>, j: int, depth: nat, operand: bool) -> bool {
    0 <= j <= pattern.len() && scan(pattern, j as nat) == Ok::<Scan, ParseError>(
        Scan { depth, operand, escaped: false },
    )
}

/// Whether the machine has the stack `ops` and the output `out` after `j` characters.
pub open spec fn raw(pattern: Seq<char>, j: int, ops: Seq<Operator>, out: Seq<BuildOp>) -> bool {
    0 <= j <= pattern.len() && shunt(pattern, j as nat) == (Shunt { ops, out })
}

/// Whether the machine, after `j` characters of which the last ended an
/// operand, has the stack `ops` and the output `out` but for the
/// concatenation that is due where another operand follows.
pub open spec fn joined(pattern: Seq<char>, j: int, ops: Seq<Operator>, out: Seq<BuildOp>) -> bool {
    0 <= j <= pattern.len() && shunt(pattern, j as nat) == (Shunt { ops, out }).join(
        operand_follows(pattern, j),
    )
}

/// Pushing a combinator is adding a sequence of one combinator.
pub proof fn lemma_push_is_add(out: Seq<BuildOp>, op: BuildOp)
    ensures
        out.push(op) == out + seq![op],
{
    assert(out.push(op) =~= out + seq![op]);
}

/// Operators leave the stack last in, first out.
pub proof fn lemma_unwind_add(below: Seq<Operator>, above: Seq<Operator>)
    ensures
        unwind(below + above) == unwind(above) + unwind(below),
    decreases above.len(),
{
    if above.len() == 0 {
        assert(below + above =~= below);
        assert(unwind(above) + unwind(below) =~= unwind(below));
    } else {
        assert((below + above).drop_last() =~= below + above.drop_last());
        assert((below + above).last() == above.last());
        lemma_unwind_add(below, above.drop_last());
        assert(unwind(below + above) =~= unwind(above) + unwind(below));
    }
}

/// Closing a group applies what is pending in it and drops its parenthesis.
pub proof fn lemma_close(base: Seq<Operator>, pending: Seq<Operator>, out: Seq<BuildOp>)
    requires
        binary(pending),
    ensures
        (Shunt { ops: base.push(Operator::LeftParenthesis) + pending, out }).close() == (Shunt {
            ops: base,
            out: out + unwind(pending),
        }),
    decreases pending.len(),
{
    let ops = base.push(Operator::LeftParenthesis) + pending;
    let state = Shunt { ops, out };
    if pending.len() == 0 {
        assert(ops.drop_last() =~= base);
        assert(out + unwind(pending) =~= out);
    } else {
        assert(ops.last() == pending.last());
        assert(!(pending[pending.len() - 1] is LeftParenthesis));
        assert(ops.drop_last() =~= base.push(Operator::LeftParenthesis) + pending.drop_last());
        lemma_close(base, pending.drop_last(), out.push(pending.last().combinator()));
        assert(out.push(pending.last().combinator()) + unwind(pending.drop_last()) =~= out
            + unwind(pending));
        assert(state.close() == state.apply_top().close());
    }
}

/// At the end everything that is pending is applied.
pub proof fn lemma_drain(pending: Seq<Operator>, out: Seq<BuildOp>)
    ensures
        (Shunt { ops: pending, out }).drain() == (Shunt {
            ops: Seq::empty(),
            out: out + unwind(pending),
        }),
    decreases pending.len(),
{
    if pending.len() == 0 {
        assert(out + unwind(pending) =~= out);
        assert(pending =~= Seq::empty());
    } else {
        lemma_drain(pending.drop_last(), out.push(pending.last().combinator()));
        assert(out.push(pending.last().combinator()) + unwind(pending.drop_last()) =~= out
            + unwind(pending));
    }
}

/// An operator that arrives applies what is pending above `base`, where
/// all of that binds at least as tightly and the top of `base` does not.
pub proof fn lemma_reduce(
    base: Seq<Operator>,
    pending: Seq<Operator>,
    out: Seq<BuildOp>,
    operator: Operator,
)
    requires
        binary(pending),
        forall|i: int| 0 <= i < pending.len() ==> (#[trigger] pending[i]).spec_groups_left(operator),
        base.len() == 0 || base.last() is LeftParenthesis || !base.last().spec_groups_left(
            operator,
        ),
    ensures
        (Shunt { ops: base + pending, out }).reduce(operator) == (Shunt {
            ops: base,
            out: out + unwind(pending),
        }),
    decreases pending.len(),
{
    let ops = base + pending;
    let state = Shunt { ops, out };
    if pending.len() == 0 {
        assert(ops =~= base);
        assert(out + unwind(pending) =~= out);
    } else {
        assert(ops.last() == pending.last());
        assert(!(pending[pending.len() - 1] is LeftParenthesis));
        assert(pending[pending.len() - 1].spec_groups_left(operator));
        assert(ops.drop_last() =~= base + pending.drop_last());
        lemma_reduce(base, pending.drop_last(), out.push(pending.last().combinator()), operator);
        assert(out.push(pending.last().combinator()) + unwind(pending.drop_last()) =~= out
            + unwind(pending));
        assert(state.reduce(operator) == state.apply_top().reduce(operator));
    }
}

/// The machine follows the quantifiers after an operand.
pub proof fn lemma_quantified(
    pattern: Seq<char>,
    tree: Regex,
    j: int,
    depth: nat,
    ops: Seq<Operator>,
    out: Seq<BuildOp>,
)
    requires
        scanned(pattern, j, depth, true),
        joined(pattern, j, ops, out + tree.flatten()),
    ensures
        j <= quantified(pattern, tree, j).end <= pattern.len(),
        scanned(pattern, quantified(pattern, tree, j).end, depth, true),
        joined(
            pattern,
            quantified(pattern, tree, j).end,
            ops,
            out + quantified(pattern, tree, j).tree.flatten(),
        ),
        !(quantified(pattern, tree, j).end < pattern.len() && is_quantifier(
            pattern[quantified(pattern, tree, j).end],
        )),
    decreases pattern.len() - j,
{
    if j < pattern.len() && is_quantifier(pattern[j]) {
        let ch = pattern[j];
        let wrapped = quantify(tree, ch);
        let before = Scan { depth, operand: true, escaped: false };
        assert(scan(pattern, (j + 1) as nat) == scan_step(before, ch));
        let state = Shunt { ops, out: out + tree.flatten() };
        assert(!operand_follows(pattern, j));
        assert(shunt(pattern, j as nat) == state);
        assert(shunt(pattern, (j + 1) as nat) == state.step(pattern, j, false));
        assert((out + tree.flatten()).push(wrapped.flatten().last()) =~= out + wrapped.flatten());
        lemma_quantified(pattern, wrapped, j + 1, depth, ops, out);
    }
}

/// The machine follows a primary: it calls the combinators of its tree.
pub proof fn lemma_primary(
    pattern: Seq<char>,
    i: int,
    depth: nat,
    operand: bool,
    ops: Seq<Operator>,
    out: Seq<BuildOp>,
)
    requires
        primary(pattern, i) is Some,
        scanned(pattern, i, depth, operand),
        raw(pattern, i, ops, out),
    ensures
        i < primary(pattern, i)->0.end <= pattern.len(),
        scanned(pattern, primary(pattern, i)->0.end, depth, true),
        joined(pattern, primary(pattern, i)->0.end, ops, out + primary(pattern, i)->0.tree.flatten()),
    decreases pattern.len() - i, 0int,
{
    let ch = pattern[i];
    let before = Scan { depth, operand, escaped: false };
    let state = Shunt { ops, out };
    assert(scan(pattern, (i + 1) as nat) == scan_step(before, ch));
    assert(shunt(pattern, (i + 1) as nat) == state.step(pattern, i, false));
    if ch == '(' {
        let inner = alternation(pattern, i + 1)->0;
        let (pending, body) = lemma_alternation(
            pattern,
            i + 1,
            depth + 1,
            ops.push(Operator::LeftParenthesis),
            out,
        );
        let end = inner.end;
        let inside = Scan { depth: depth + 1, operand: true, escaped: false };
        assert(scan(pattern, (end + 1) as nat) == scan_step(inside, pattern[end]));
        let reached = Shunt { ops: ops.push(Operator::LeftParenthesis) + pending, out: out + body };
        assert(shunt(pattern, (end + 1) as nat) == reached.step(pattern, end, false));
        lemma_close(ops, pending, out + body);
        assert(out + body + unwind(pending) =~= out + (body + unwind(pending)));
    } else if ch == '\\' {
        let escaped = pattern[i + 1];
        let middle = Scan { depth, operand, escaped: true };
        assert(scan(pattern, (i + 2) as nat) == scan_step(middle, escaped));
        assert(shunt(pattern, (i + 2) as nat) == state.step(pattern, i + 1, true));
        lemma_push_is_add(out, BuildOp::Char(escaped));
    } else {
        lemma_push_is_add(out, BuildOp::Char(ch));
    }
}

/// The machine follows an atom: it calls the combinators of its tree.
pub proof fn lemma_atom(
    pattern: Seq<char>,
    i: int,
    depth: nat,
    operand: bool,
    ops: Seq<Operator>,
    out: Seq<BuildOp>,
)
    requires
        atom(pattern, i) is Some,
        scanned(pattern, i, depth, operand),
        raw(pattern, i, ops, out),
    ensures
        i < atom(pattern, i)->0.end <= pattern.len(),
        scanned(pattern, atom(pattern, i)->0.end, depth, true),
        joined(pattern, atom(pattern, i)->0.end, ops, out + atom(pattern, i)->0.tree.flatten()),
        !(atom(pattern, i)->0.end < pattern.len() && is_quantifier(
            pattern[atom(pattern, i)->0.end],
        )),
    decreases pattern.len() - i, 1int,
{
    lemma_primary(pattern, i, depth, operand, ops, out);
    let inner = primary(pattern, i)->0;
    lemma_quantified(pattern, inner.tree, inner.end, depth, ops, out);
}

/// The machine follows the atoms of a sequence: all but the last
/// concatenation is applied, and the last is pending.
pub proof fn lemma_sequence_from(
    pattern: Seq<char>,
    left: Regex,
    j: int,
    depth: nat,
    base: Seq<Operator>,
    pending: Seq<Operator>,
    out: Seq<BuildOp>,
    body: Seq<BuildOp>,
) -> (reached: (Seq<Operator>, Seq<BuildOp>))
    requires
        sequence_from(pattern, left, j) is Some,
        scanned(pattern, j, depth, true),
        tight(base),
        loose(pending),
        body + unwind(pending) == left.flatten(),
        joined(pattern, j, base + pending, out + body),
        !(j < pattern.len() && is_quantifier(pattern[j])),
    ensures
        loose(reached.0),
        reached.1 + unwind(reached.0) == sequence_from(pattern, left, j)->0.tree.flatten(),
        raw(pattern, sequence_from(pattern, left, j)->0.end, base + reached.0, out + reached.1),
        scanned(pattern, sequence_from(pattern, left, j)->0.end, depth, true),
        j <= sequence_from(pattern, left, j)->0.end <= pattern.len(),
        !operand_follows(pattern, sequence_from(pattern, left, j)->0.end),
        !(sequence_from(pattern, left, j)->0.end < pattern.len() && is_quantifier(
            pattern[sequence_from(pattern, left, j)->0.end],
        )),
    decreases pattern.len() - j, 2int,
{
    if operand_follows(pattern, j) {
        let next = atom(pattern, j)->0;
        assert(forall|i: int|
            0 <= i < pending.len() ==> (#[trigger] pending[i]).spec_groups_left(
                Operator::Concatenate,
            ));
        lemma_reduce(base, pending, out + body, Operator::Concatenate);
        assert(out + body + unwind(pending) =~= out + left.flatten());
        let pushed = base.push(Operator::Concatenate);
        assert(shunt(pattern, j as nat) == (Shunt { ops: pushed, out: out + left.flatten() }));
        lemma_atom(pattern, j, depth, true, pushed, out + left.flatten());
        let both = left.flatten() + next.tree.flatten();
        let one = seq![Operator::Concatenate];
        assert(base + one =~= pushed);
        assert(out + left.flatten() + next.tree.flatten() =~= out + both);
        assert(unwind(one) =~= seq![BuildOp::Concatenate]) by {
            assert(one.drop_last() =~= Seq::empty());
            reveal_with_fuel(unwind, 2);
        }
        assert(both + unwind(one) =~= Regex::Concatenate(
            Box::new(left),
            Box::new(next.tree),
        ).flatten());
        lemma_sequence_from(
            pattern,
            Regex::Concatenate(Box::new(left), Box::new(next.tree)),
            next.end,
            depth,
            base,
            one,
            out,
            both,
        )
    } else {
        (pending, body)
    }
}

/// The machine follows a sequence.
pub proof fn lemma_sequence(
    pattern: Seq<char>,
    i: int,
    depth: nat,
    operand: bool,
    base: Seq<Operator>,
    out: Seq<BuildOp>,
) -> (reached: (Seq<Operator>, Seq<BuildOp>))
    requires
        sequence(pattern, i) is Some,
        scanned(pattern, i, depth, operand),
        tight(base),
        raw(pattern, i, base, out),
    ensures
        loose(reached.0),
        reached.1 + unwind(reached.0) == sequence(pattern, i)->0.tree.flatten(),
        raw(pattern, sequence(pattern, i)->0.end, base + reached.0, out + reached.1),
        scanned(pattern, sequence(pattern, i)->0.end, depth, true),
        i < sequence(pattern, i)->0.end <= pattern.len(),
        !operand_follows(pattern, sequence(pattern, i)->0.end),
        !(sequence(pattern, i)->0.end < pattern.len() && is_quantifier(
            pattern[sequence(pattern, i)->0.end],
        )),
    decreases pattern.len() - i, 3int,
{
    lemma_atom(pattern, i, depth, operand, base, out);
    let first = atom(pattern, i)->0;
    let none = Seq::<Operator>::empty();
    assert(base + none =~= base);
    assert(first.tree.flatten() + unwind(none) =~= first.tree.flatten());
    lemma_sequence_from(pattern, first.tree, first.end, depth, base, none, out, first.tree.flatten())
}

/// The machine follows the sequences of an alternation: all but the last
/// operators are applied, and those are pending.
pub proof fn lemma_alternation_from(
    pattern: Seq<char>,
    left: Regex,
    j: int,
    depth: nat,
    base: Seq<Operator>,
    pending: Seq<Operator>,
    out: Seq<BuildOp>,
    body: Seq<BuildOp>,
) -> (reached: (Seq<Operator>, Seq<BuildOp>))
    requires
        alternation_from(pattern, left, j) is Some,
        scanned(pattern, j, depth, true),
        opened(base),
        binary(pending),
        body + unwind(pending) == left.flatten(),
        raw(pattern, j, base + pending, out + body),
        !operand_follows(pattern, j),
        !(j < pattern.len() && is_quantifier(pattern[j])),
    ensures
        binary(reached.0),
        reached.1 + unwind(reached.0) == alternation_from(pattern, left, j)->0.tree.flatten(),
        raw(pattern, alternation_from(pattern, left, j)->0.end, base + reached.0, out + reached.1),
        scanned(pattern, alternation_from(pattern, left, j)->0.end, depth, true),
        j <= alternation_from(pattern, left, j)->0.end <= pattern.len(),
        alternation_from(pattern, left, j)->0.end == pattern.len()
            || pattern[alternation_from(pattern, left, j)->0.end] == ')',
    decreases pattern.len() - j, 4int,
{
    if j < pattern.len() && pattern[j] == '|' {
        let next = sequence(pattern, j + 1)->0;
        let before = Scan { depth, operand: true, escaped: false };
        assert(scan(pattern, (j + 1) as nat) == scan_step(before, '|'));
        let state = Shunt { ops: base + pending, out: out + body };
        assert(shunt(pattern, (j + 1) as nat) == state.step(pattern, j, false));
        assert(forall|i: int|
            0 <= i < pending.len() ==> (#[trigger] pending[i]).spec_groups_left(
                Operator::Alternate,
            ));
        lemma_reduce(base, pending, out + body, Operator::Alternate);
        assert(out + body + unwind(pending) =~= out + left.flatten());
        let pushed = base.push(Operator::Alternate);
        let (above, more) = lemma_sequence(
            pattern,
            j + 1,
            depth,
            false,
            pushed,
            out + left.flatten(),
        );
        let one = seq![Operator::Alternate];
        let both = left.flatten() + more;
        assert(base + (one + above) =~= pushed + above);
        assert(out + left.flatten() + more =~= out + both);
        lemma_unwind_add(one, above);
        assert(unwind(one) =~= seq![BuildOp::Alternate]) by {
            assert(one.drop_last() =~= Seq::empty());
            reveal_with_fuel(unwind, 2);
        }
        assert(both + unwind(one + above) =~= Regex::Alternate(
            Box::new(left),
            Box::new(next.tree),
        ).flatten()) by {
            assert(both + (unwind(above) + unwind(one)) =~= (left.flatten() + (more + unwind(
                above,
            ))).push(BuildOp::Alternate));
        }
        assert(binary(one + above));
        lemma_alternation_from(
            pattern,
            Regex::Alternate(Box::new(left), Box::new(next.tree)),
            next.end,
            depth,
            base,
            one + above,
            out,
            both,
        )
    } else {
        (pending, body)
    }
}

/// The machine follows an alternation.
pub proof fn lemma_alternation(
    pattern: Seq<char>,
    i: int,
    depth: nat,
    base: Seq<Operator>,
    out: Seq<BuildOp>,
) -> (reached: (Seq<Operator>, Seq<BuildOp>))
    requires
        alternation(pattern, i) is Some,
        scanned(pattern, i, depth, false),
        opened(base),
        raw(pattern, i, base, out),
    ensures
        binary(reached.0),
        reached.1 + unwind(reached.0) == alternation(pattern, i)->0.tree.flatten(),
        raw(pattern, alternation(pattern, i)->0.end, base + reached.0, out + reached.1),
        scanned(pattern, alternation(pattern, i)->0.end, depth, true),
        i < alternation(pattern, i)->0.end <= pattern.len(),
        alternation(pattern, i)->0.end == pattern.len() || pattern[alternation(pattern, i)->0.end]
            == ')',
    decreases pattern.len() - i, 5int,
{
    let first = sequence(pattern, i)->0;
    let (pending, body) = lemma_sequence(pattern, i, depth, false, base, out);
    lemma_alternation_from(pattern, first.tree, first.end, depth, base, pending, out, body)
}

/// A pattern that the grammar derives has no fault, and stands for the
/// combinators of its tree.
pub proof fn lemma_syntax(pattern: Seq<char>)
    requires
        syntax(pattern) is Some,
    ensures
        pattern_error(pattern) is None,
        postfix(pattern) == syntax(pattern)->0.flatten(),
{
    let none = Seq::<Operator>::empty();
    let nothing = Seq::<BuildOp>::empty();
    let (pending, body) = lemma_alternation(pattern, 0, 0, none, nothing);
    assert(none + pending =~= pending);
    assert(nothing + body =~= body);
    lemma_drain(pending, body);
}


/// In a pattern without fault the reader meets no fault.
pub proof fn lemma_prefix_scanned(pattern: Seq<char>, n: int)
    requires
        pattern_error(pattern) is None,
        0 <= n <= pattern.len(),
    ensures
        scan(pattern, n as nat) is Ok,
{
    if scan(pattern, n as nat) is Err {
        lemma_scan_error_stays(pattern, n as nat, pattern.len());
    }
}

/// The reader passes the quantifiers after an operand.
pub proof fn lemma_quantified_scanned(pattern: Seq<char>, tree: Regex, j: int, depth: nat)
    requires
        scanned(pattern, j, depth, true),
    ensures
        j <= quantified(pattern, tree, j).end <= pattern.len(),
        scanned(pattern, quantified(pattern, tree, j).end, depth, true),
        !(quantified(pattern, tree, j).end < pattern.len() && is_quantifier(
            pattern[quantified(pattern, tree, j).end],
        )),
    decreases pattern.len() - j,
{
    if j < pattern.len() && is_quantifier(pattern[j]) {
        let before = Scan { depth, operand: true, escaped: false };
        assert(scan(pattern, (j + 1) as nat) == scan_step(before, pattern[j]));
        lemma_quantified_scanned(pattern, quantify(tree, pattern[j]), j + 1, depth);
    }
}

/// In a pattern without fault a primary stands wherever an operand is due.
pub proof fn lemma_primary_present(pattern: Seq<char>, i: int, depth: nat, operand: bool)
    requires
        pattern_error(pattern) is None,
        scanned(pattern, i, depth, operand),
        !operand || operand_follows(pattern, i),
    ensures
        primary(pattern, i) is Some,
        i < primary(pattern, i)->0.end <= pattern.len(),
        scanned(pattern, primary(pattern, i)->0.end, depth, true),
    decreases pattern.len() - i, 0int,
{
    let before = Scan { depth, operand, escaped: false };
    if i == pattern.len() {
        assert(pattern_error(pattern) is Some);
    } else {
        let ch = pattern[i];
        assert(scan(pattern, (i + 1) as nat) == scan_step(before, ch));
        lemma_prefix_scanned(pattern, i + 1);
        if ch == '(' {
            lemma_alternation_present(pattern, i + 1, depth + 1);
            let inner = alternation(pattern, i + 1)->0;
            if inner.end == pattern.len() {
                assert(pattern_error(pattern) is Some);
            } else {
                let inside = Scan { depth: depth + 1, operand: true, escaped: false };
                assert(scan(pattern, (inner.end + 1) as nat) == scan_step(
                    inside,
                    pattern[inner.end],
                ));
            }
        } else if ch == '\\' {
            if i + 1 == pattern.len() {
                assert(pattern_error(pattern) is Some);
            } else {
                let middle = Scan { depth, operand, escaped: true };
                assert(scan(pattern, (i + 2) as nat) == scan_step(middle, pattern[i + 1]));
                lemma_prefix_scanned(pattern, i + 2);
            }
        }
    }
}

/// In a pattern without fault an atom stands wherever an operand is due.
pub proof fn lemma_atom_present(pattern: Seq<char>, i: int, depth: nat, operand: bool)
    requires
        pattern_error(pattern) is None,
        scanned(pattern, i, depth, operand),
        !operand || operand_follows(pattern, i),
    ensures
        atom(pattern, i) is Some,
        i < atom(pattern, i)->0.end <= pattern.len(),
        scanned(pattern, atom(pattern, i)->0.end, depth, true),
        !(atom(pattern, i)->0.end < pattern.len() && is_quantifier(
            pattern[atom(pattern, i)->0.end],
        )),
    decreases pattern.len() - i, 1int,
{
    lemma_primary_present(pattern, i, depth, operand);
    let inner = primary(pattern, i)->0;
    lemma_quantified_scanned(pattern, inner.tree, inner.end, depth);
}

/// In a pattern without fault the atoms of a sequence follow each other.
pub proof fn lemma_sequence_from_present(pattern: Seq<char>, left: Regex, j: int, depth: nat)
    requires
        pattern_error(pattern) is None,
        scanned(pattern, j, depth, true),
    ensures
        sequence_from(pattern, left, j) is Some,
        j <= sequence_from(pattern, left, j)->0.end <= pattern.len(),
        scanned(pattern, sequence_from(pattern, left, j)->0.end, depth, true),
        !operand_follows(pattern, sequence_from(pattern, left, j)->0.end),
    decreases pattern.len() - j, 2int,
{
    if operand_follows(pattern, j) {
        lemma_atom_present(pattern, j, depth, true);
        let next = atom(pattern, j)->0;
        lemma_sequence_from_present(
            pattern,
            Regex::Concatenate(Box::new(left), Box::new(next.tree)),
            next.end,
            depth,
        );
    }
}

/// In a pattern without fault a sequence stands wherever an operand is due.
pub proof fn lemma_sequence_present(pattern: Seq<char>, i: int, depth: nat)
    requires
        pattern_error(pattern) is None,
        scanned(pattern, i, depth, false),
    ensures
        sequence(pattern, i) is Some,
        i < sequence(pattern, i)->0.end <= pattern.len(),
        scanned(pattern, sequence(pattern, i)->0.end, depth, true),
        !operand_follows(pattern, sequence(pattern, i)->0.end),
        !(sequence(pattern, i)->0.end < pattern.len() && is_quantifier(
            pattern[sequence(pattern, i)->0.end],
        )),
    decreases pattern.len() - i, 3int,
{
    lemma_atom_present(pattern, i, depth, false);
    let first = atom(pattern, i)->0;
    lemma_sequence_from_present(pattern, first.tree, first.end, depth);
    lemma_sequence_from_ends(pattern, first.tree, first.end);
}

/// A sequence does not end before a quantifier, unless it begins there.
pub proof fn lemma_sequence_from_ends(pattern: Seq<char>, left: Regex, j: int)
    requires
        sequence_from(pattern, left, j) is Some,
        !(0 <= j < pattern.len() && is_quantifier(pattern[j])),
    ensures
        !(0 <= sequence_from(pattern, left, j)->0.end < pattern.len() && is_quantifier(
            pattern[sequence_from(pattern, left, j)->0.end],
        )),
    decreases pattern.len() - j,
{
    if operand_follows(pattern, j) {
        let next = atom(pattern, j)->0;
        let inner = primary(pattern, j)->0;
        lemma_quantified_ends(pattern, inner.tree, inner.end);
        lemma_sequence_from_ends(
            pattern,
            Regex::Concatenate(Box::new(left), Box::new(next.tree)),
            next.end,
        );
    }
}

/// Quantifiers are read to the last.
pub proof fn lemma_quantified_ends(pattern: Seq<char>, tree: Regex, j: int)
    ensures
        !(0 <= quantified(pattern, tree, j).end < pattern.len() && is_quantifier(
            pattern[quantified(pattern, tree, j).end],
        )),
        j <= quantified(pattern, tree, j).end,
    decreases pattern.len() - j,
{
    if 0 <= j < pattern.len() && is_quantifier(pattern[j]) {
        lemma_quantified_ends(pattern, quantify(tree, pattern[j]), j + 1);
    }
}

/// In a pattern without fault the sequences of an alternation follow each other.
pub proof fn lemma_alternation_from_present(pattern: Seq<char>, left: Regex, j: int, depth: nat)
    requires
        pattern_error(pattern) is None,
        scanned(pattern, j, depth, true),
        !operand_follows(pattern, j),
        !(j < pattern.len() && is_quantifier(pattern[j])),
    ensures
        alternation_from(pattern, left, j) is Some,
        j <= alternation_from(pattern, left, j)->0.end <= pattern.len(),
        scanned(pattern, alternation_from(pattern, left, j)->0.end, depth, true),
        alternation_from(pattern, left, j)->0.end == pattern.len()
            || pattern[alternation_from(pattern, left, j)->0.end] == ')',
    decreases pattern.len() - j, 4int,
{
    if j < pattern.len() && pattern[j] == '|' {
        let before = Scan { depth, operand: true, escaped: false };
        assert(scan(pattern, (j + 1) as nat) == scan_step(before, '|'));
        lemma_sequence_present(pattern, j + 1, depth);
        let next = sequence(pattern, j + 1)->0;
        lemma_alternation_from_present(
            pattern,
            Regex::Alternate(Box::new(left), Box::new(next.tree)),
            next.end,
            depth,
        );
    }
}

/// In a pattern without fault an alternation stands wherever a group or
/// the pattern begins.
pub proof fn lemma_alternation_present(pattern: Seq<char>, i: int, depth: nat)
    requires
        pattern_error(pattern) is None,
        scanned(pattern, i, depth, false),
    ensures
        alternation(pattern, i) is Some,
        i < alternation(pattern, i)->0.end <= pattern.len(),
        scanned(pattern, alternation(pattern, i)->0.end, depth, true),
        alternation(pattern, i)->0.end == pattern.len() || pattern[alternation(pattern, i)->0.end]
            == ')',
    decreases pattern.len() - i, 5int,
{
    lemma_sequence_present(pattern, i, depth);
    let first = sequence(pattern, i)->0;
    lemma_alternation_from_present(pattern, first.tree, first.end, depth);
}

/// The patterns without fault are those that the grammar derives.
pub proof fn lemma_syntax_complete(pattern: Seq<char>)
    ensures
        pattern_error(pattern) is None <==> syntax(pattern) is Some,
        syntax(pattern) is Some ==> postfix(pattern) == syntax(pattern)->0.flatten(),
{
    if syntax(pattern) is Some {
        lemma_syntax(pattern);
    }
    if pattern_error(pattern) is None {
        lemma_alternation_present(pattern, 0, 0);
        let whole = alternation(pattern, 0)->0;
        if whole.end < pattern.len() {
            let before = Scan { depth: 0, operand: true, escaped: false };
            assert(scan(pattern, (whole.end + 1) as nat) == scan_step(before, pattern[whole.end]));
            lemma_prefix_scanned(pattern, whole.end + 1);
        }
    }
}

} // verus!
