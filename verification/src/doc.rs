//! The document model: the instructions that describe a layout.

use vstd::prelude::*;

verus! {

/// What the breaks standing directly in a box do once the box does not fit.
#[derive(Clone, Copy, Debug, PartialEq, Eq, Structural)]
pub enum BoxMode {
    /// All of them become newlines.
    Consistent,
    /// Each one is decided by whether the text up to the next one fits.
    Inconsistent,
}

/// What a break renders while it is not broken, and whether it may break.
#[derive(Clone, Copy, Debug, PartialEq, Eq, Structural)]
pub enum BreakKind {
    /// Nothing when not broken.
    Zero,
    /// One space when not broken.
    Space,
    /// Always a newline.
    Hard,
    /// Nothing, and never a newline.
    Never,
}

/// One layout instruction.
#[derive(Debug, PartialEq, Eq)]
pub enum Instr {
    /// Literal characters, never split.
    Text(String),
    /// Opens a box; the number is added to the indentation of the lines
    /// started inside it.
    BeginBox(BoxMode, isize),
    /// Closes the box opened last.
    EndBox,
    /// A place where the line may end.
    Break(BreakKind),
    /// A break that writes a comma before its newline when it breaks.
    CommaBreak(BreakKind),
    /// Adjusts the indentation of one line only: the line that the break
    /// just before it starts. Behind anything but a break that becomes a
    /// newline it has no effect.
    Offset(isize),
}

/// The mathematical value of an instruction.
pub enum Op {
    Text(Seq<char>),
    BeginBox(BoxMode, int),
    EndBox,
    Break(BreakKind),
    CommaBreak(BreakKind),
    Offset(int),
}

impl View for Instr {
    type V = Op;

    open spec fn view(&self) -> Op {
        match *self {
            Instr::Text(s) => Op::Text(s@),
            Instr::BeginBox(mode, delta) => Op::BeginBox(mode, delta as int),
            Instr::EndBox => Op::EndBox,
            Instr::Break(kind) => Op::Break(kind),
            Instr::CommaBreak(kind) => Op::CommaBreak(kind),
            Instr::Offset(delta) => Op::Offset(delta as int),
        }
    }
}

/// The stream of abstract instructions that a vector of instructions stands for.
pub open spec fn ops(v: Seq<Instr>) -> Seq<Op> {
    Seq::new(v.len(), |i: int| v[i]@)
}

/// By how much an instruction changes the number of open boxes.
pub open spec fn nesting_step(op: Op) -> int {
    match op {
        Op::BeginBox(_, _) => 1,
        Op::EndBox => -1,
        _ => 0,
    }
}

/// The number of boxes left open by a stream, counting a stray `EndBox` as -1.
pub open spec fn open_boxes(s: Seq<Op>) -> int
    decreases s.len(),
{
    if s.len() == 0 {
        0
    } else {
        open_boxes(s.drop_last()) + nesting_step(s.last())
    }
}

/// No prefix of the stream closes a box that it has not opened.
pub open spec fn well_nested(s: Seq<Op>) -> bool
    decreases s.len(),
{
    s.len() == 0 || (well_nested(s.drop_last()) && open_boxes(s) >= 0)
}

/// Every box that the stream opens it also closes, and it closes no other.
pub open spec fn balanced(s: Seq<Op>) -> bool {
    well_nested(s) && open_boxes(s) == 0
}

/// The value of a vector after a push is the value before with one more.
pub proof fn lemma_ops_push(v: Seq<Instr>, x: Instr)
    ensures
        ops(v.push(x)) == ops(v).push(x@),
{
    assert(ops(v.push(x)) =~= ops(v).push(x@));
}

/// One more instruction changes the number of open boxes by its own step,
/// and keeps the stream well nested where it closes no box that is not open.
pub proof fn lemma_open_boxes_push(s: Seq<Op>, op: Op)
    ensures
        open_boxes(s.push(op)) == open_boxes(s) + nesting_step(op),
        well_nested(s.push(op)) == (well_nested(s) && open_boxes(s) + nesting_step(op) >= 0),
{
    assert(s.push(op).drop_last() =~= s);
}


/// A prefix of a well-nested stream is well nested.
pub proof fn lemma_well_nested_prefix(s: Seq<Op>, k: int)
    requires
        well_nested(s),
        0 <= k <= s.len(),
    ensures
        well_nested(s.take(k)),
    decreases s.len(),
{
    if k == s.len() {
        assert(s.take(k) =~= s);
    } else {
        assert(s.drop_last().take(k) =~= s.take(k));
        lemma_well_nested_prefix(s.drop_last(), k);
    }
}

/// Tells whether every box that the stream opens is closed again, and no
/// other: the test that finds a malformed stream.
pub fn is_balanced(doc: &Vec<Instr>) -> (r: bool)
    ensures
        r == balanced(ops(doc@)),
{
    let ghost d = ops(doc@);
    let mut depth: usize = 0;
    let mut i: usize = 0;
    while i < doc.len()
        invariant
            i <= doc.len(),
            d == ops(doc@),
            well_nested(d.take(i as int)),
            depth == open_boxes(d.take(i as int)),
            depth <= i,
        decreases doc.len() - i,
    {
        proof {
            assert(d.take(i + 1).drop_last() =~= d.take(i as int));
            assert(d.take(i + 1).last() == doc@[i as int]@);
        }
        match &doc[i] {
            Instr::BeginBox(_, _) => {
                depth = depth + 1;
            },
            Instr::EndBox => {
                if depth == 0 {
                    proof {
                        if well_nested(d) {
                            lemma_well_nested_prefix(d, i + 1);
                        }
                    }
                    return false;
                }
                depth = depth - 1;
            },
            _ => {},
        }
        i = i + 1;
    }
    proof {
        assert(d.take(i as int) =~= d);
    }
    depth == 0
}


/// One stream behind another leaves open what both leave open, and is well
/// nested where both are and the first closes no box of its own.
pub proof fn lemma_nesting_concat(a: Seq<Op>, b: Seq<Op>)
    ensures
        open_boxes(a + b) == open_boxes(a) + open_boxes(b),
        well_nested(a) && open_boxes(a) >= 0 && well_nested(b) ==> well_nested(a + b),
    decreases b.len(),
{
    if b.len() == 0 {
        assert(a + b =~= a);
    } else {
        assert((a + b).drop_last() =~= a + b.drop_last());
        lemma_nesting_concat(a, b.drop_last());
    }
}

/// One balanced stream behind another is balanced.
pub proof fn lemma_balanced_concat(a: Seq<Op>, b: Seq<Op>)
    requires
        balanced(a),
        balanced(b),
    ensures
        balanced(a + b),
{
    lemma_nesting_concat(a, b);
}

/// A stream that neither opens nor closes a box is balanced.
pub proof fn lemma_plain_balanced(s: Seq<Op>)
    requires
        forall|i: int| 0 <= i < s.len() ==> nesting_step(#[trigger] s[i]) == 0,
    ensures
        balanced(s),
    decreases s.len(),
{
    if s.len() > 0 {
        lemma_plain_balanced(s.drop_last());
    }
}

// Short names for the instructions, for writing streams down.

/// Literal text.
pub open spec fn text(s: Seq<char>) -> Op {
    Op::Text(s)
}

/// Opens a consistent box.
pub open spec fn cbox(indent: int) -> Op {
    Op::BeginBox(BoxMode::Consistent, indent)
}

/// Opens an inconsistent box.
pub open spec fn ibox(indent: int) -> Op {
    Op::BeginBox(BoxMode::Inconsistent, indent)
}

/// Closes the box opened last.
pub open spec fn end() -> Op {
    Op::EndBox
}

/// A break that is a space while it is not broken.
pub open spec fn space() -> Op {
    Op::Break(BreakKind::Space)
}

/// A break that is nothing while it is not broken.
pub open spec fn zerobreak() -> Op {
    Op::Break(BreakKind::Zero)
}

/// A newline.
pub open spec fn hardbreak() -> Op {
    Op::Break(BreakKind::Hard)
}

/// A break that never becomes a newline.
pub open spec fn neverbreak() -> Op {
    Op::Break(BreakKind::Never)
}

/// Shifts the indentation of the line that the break before it starts.
pub open spec fn offset(delta: int) -> Op {
    Op::Offset(delta)
}

} // verus!
