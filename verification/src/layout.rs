//! The layout engine: turns a stream of instructions into text, deciding for
//! every break whether it renders as a newline.
//!
//! The engine measures before it writes. When a box opens outside any region
//! that is already known to fit, its content is measured against the width
//! left on the line; a box that fits is laid out flat, a box that does not is
//! broken. Inside a broken box a consistent box turns each of its own breaks
//! into a newline, and an inconsistent one measures, at each of its own breaks,
//! the text up to its next break.

use vstd::prelude::*;
use crate::doc::{balanced, is_balanced, ops, BoxMode, BreakKind, Instr, Op};
use crate::error::Error;

verus! {

/// The indentation of a line never passes this many columns.
pub const INDENT_LIMIT: u64 = 0xffff_ffff;

/// A broken box that is still open.
pub struct Frame {
    pub mode: BoxMode,
    /// The indentation in force before the box opened.
    pub indent: nat,
}

/// A region of the stream that has been measured and fits on the current
/// line: a whole box, or the stretch that follows an unbroken break up to the
/// next break of the same box.
pub struct Region {
    /// The number of boxes opened inside the region and still open.
    pub depth: nat,
    /// Whether the region is a stretch after a break (and not a whole box).
    pub stretch: bool,
}

/// The state of the engine between two instructions.
pub struct State {
    /// The text written so far.
    pub out: Seq<char>,
    /// Spaces owed to the current line, written only once text follows.
    pub pending: nat,
    /// The column at which the next text would end up: the characters on the
    /// current line plus the spaces owed.
    pub col: nat,
    /// Whether the instruction before was a break that became a newline, or
    /// an offset following one.
    pub fresh: bool,
    /// The indentation of the lines started from here.
    pub indent: nat,
    /// The broken boxes that are open, innermost last.
    pub stack: Seq<Frame>,
    /// The fitting region that the engine is in, if any.
    pub region: Option<Region>,
}

/// A run of `n` spaces.
pub open spec fn spaces(n: nat) -> Seq<char> {
    Seq::new(n, |i: int| ' ')
}

/// An indentation moved by `delta`, kept between 0 and `INDENT_LIMIT`.
pub open spec fn shift(indent: nat, delta: int) -> nat {
    if indent + delta < 0 {
        0
    } else if indent + delta > INDENT_LIMIT as int {
        INDENT_LIMIT as nat
    } else {
        (indent + delta) as nat
    }
}

/// The width of a break that is not broken.
pub open spec fn blank(kind: BreakKind) -> nat {
    match kind {
        BreakKind::Space => 1,
        _ => 0,
    }
}

/// Whether the stream from `i` on, laid out without a newline, takes at most
/// `budget` columns before it ends: at the `EndBox` that closes more than the
/// `depth` boxes opened since the start or, for a stretch, already at a break
/// that stands outside all of these. A hard break on the way never fits.
pub open spec fn fits(doc: Seq<Op>, i: int, depth: nat, budget: int, stretch: bool) -> bool
    decreases doc.len() - i,
{
    if i < 0 || i >= doc.len() {
        true
    } else {
        match doc[i] {
            Op::Text(t) => t.len() <= budget && fits(doc, i + 1, depth, budget - t.len(), stretch),
            Op::BeginBox(_, _) => fits(doc, i + 1, depth + 1, budget, stretch),
            Op::EndBox => depth == 0 || fits(doc, i + 1, (depth - 1) as nat, budget, stretch),
            Op::Break(kind) => (stretch && depth == 0) || (kind != BreakKind::Hard && blank(kind)
                <= budget && fits(doc, i + 1, depth, budget - blank(kind), stretch)),
            Op::CommaBreak(kind) => (stretch && depth == 0) || (kind != BreakKind::Hard && blank(
                kind,
            ) <= budget && fits(doc, i + 1, depth, budget - blank(kind), stretch)),
            Op::Offset(_) => fits(doc, i + 1, depth, budget, stretch),
        }
    }
}

/// Whether the engine stands directly in a broken box, or outside all boxes:
/// the places where a break is decided on its own.
pub open spec fn direct(s: State) -> bool {
    match s.region {
        None => true,
        Some(r) => r.stretch && r.depth == 0,
    }
}

/// The mode that governs a break met directly: that of the innermost broken
/// box; outside all boxes breaks are decided one by one.
pub open spec fn mode_here(s: State) -> BoxMode {
    if s.stack.len() == 0 {
        BoxMode::Inconsistent
    } else {
        s.stack.last().mode
    }
}

/// Whether a break of width `gap` met directly at instruction `i` becomes a
/// newline: always in a consistent box; in an inconsistent one exactly when
/// the text up to the next break does not fit behind it.
pub open spec fn gives_way(doc: Seq<Op>, w: nat, i: int, s: State, gap: nat) -> bool {
    mode_here(s) == BoxMode::Consistent || !(s.col + gap <= w && fits(
        doc,
        i + 1,
        0,
        w - s.col - gap,
        true,
    ))
}

/// The state after a newline: the spaces owed to the old line are dropped, and
/// the new line owes its indentation.
pub open spec fn newline(s: State) -> State {
    State { out: s.out.push('\n'), pending: s.indent, col: s.indent, fresh: true, ..s }
}

/// The state after a break that stays on the line.
pub open spec fn stay(s: State, gap: nat) -> State {
    State { pending: s.pending + gap, col: s.col + gap, fresh: false, ..s }
}

/// The state after writing `t`, behind the spaces owed.
pub open spec fn write(s: State, t: Seq<char>) -> State {
    State {
        out: s.out + spaces(s.pending) + t,
        pending: 0,
        col: s.col + t.len(),
        fresh: false,
        ..s
    }
}

/// The state after a break that becomes a newline, behind its comma if it
/// has one.
pub open spec fn give_way(s: State, comma: bool) -> State {
    if comma {
        newline(write(s, seq![',']))
    } else {
        newline(s)
    }
}

/// Whether the break at instruction `i`, of the given kind, becomes a newline
/// in state `s`.
pub open spec fn breaks(doc: Seq<Op>, w: nat, i: int, s: State, kind: BreakKind) -> bool {
    kind == BreakKind::Hard || (kind != BreakKind::Never && direct(s) && gives_way(
        doc,
        w,
        i,
        s,
        blank(kind),
    ))
}

/// The state after the break at instruction `i`, with or without a comma of
/// its own.
pub open spec fn break_step(doc: Seq<Op>, w: nat, i: int, s: State, kind: BreakKind, comma: bool) -> State {
    if !direct(s) {
        if breaks(doc, w, i, s, kind) {
            give_way(s, comma)
        } else {
            stay(s, blank(kind))
        }
    } else if breaks(doc, w, i, s, kind) {
        give_way(State { region: None, ..s }, comma)
    } else if kind == BreakKind::Never {
        stay(State { region: None, ..s }, 0)
    } else {
        stay(State { region: Some(Region { depth: 0, stretch: true }), ..s }, blank(kind))
    }
}

/// The state after instruction `i`, met in state `s`.
pub open spec fn step(doc: Seq<Op>, w: nat, i: int, s: State) -> State {
    match doc[i] {
        Op::Text(t) => write(s, t),
        Op::BeginBox(mode, delta) => match s.region {
            Some(r) => State { region: Some(Region { depth: r.depth + 1, ..r }), fresh: false, ..s },
            None => if s.col <= w && fits(doc, i + 1, 0, w - s.col, false) {
                State { region: Some(Region { depth: 0, stretch: false }), fresh: false, ..s }
            } else {
                State {
                    stack: s.stack.push(Frame { mode, indent: s.indent }),
                    indent: shift(s.indent, delta),
                    fresh: false,
                    ..s
                }
            },
        },
        Op::EndBox => match s.region {
            Some(r) if r.depth > 0 => State {
                region: Some(Region { depth: (r.depth - 1) as nat, ..r }),
                fresh: false,
                ..s
            },
            Some(r) if !r.stretch => State { region: None, fresh: false, ..s },
            _ => if s.stack.len() > 0 {
                State {
                    stack: s.stack.drop_last(),
                    indent: s.stack.last().indent,
                    region: None,
                    fresh: false,
                    ..s
                }
            } else {
                State { region: None, fresh: false, ..s }
            },
        },
        Op::Break(kind) => break_step(doc, w, i, s, kind, false),
        Op::CommaBreak(kind) => break_step(doc, w, i, s, kind, true),
        Op::Offset(delta) => if s.fresh {
            State { pending: shift(s.pending, delta), col: shift(s.pending, delta), ..s }
        } else {
            s
        },
    }
}

/// The state in which the engine starts.
pub open spec fn start() -> State {
    State {
        out: Seq::empty(),
        pending: 0,
        col: 0,
        fresh: false,
        indent: 0,
        stack: Seq::empty(),
        region: None,
    }
}

/// The state of the engine after the first `i` instructions of `doc`.
pub open spec fn state_at(doc: Seq<Op>, w: nat, i: int) -> State
    decreases i,
{
    if i <= 0 {
        start()
    } else {
        step(doc, w, i - 1, state_at(doc, w, i - 1))
    }
}

/// The text that `doc` is laid out as under the maximum width `w`.
pub open spec fn layout(doc: Seq<Op>, w: nat) -> Seq<char> {
    state_at(doc, w, doc.len() as int).out
}


/// What holds of every state that the engine reaches: the spaces owed are part
/// of the column, indentations stay under the limit, a fresh line holds
/// nothing but the spaces owed, and a region that the engine is in still fits.
pub open spec fn sound(doc: Seq<Op>, w: nat, i: int, s: State) -> bool {
    &&& s.pending <= s.col
    &&& s.pending <= INDENT_LIMIT + w
    &&& s.indent <= INDENT_LIMIT
    &&& forall|k: int| 0 <= k < s.stack.len() ==> (#[trigger] s.stack[k]).indent <= INDENT_LIMIT
    &&& s.fresh ==> s.region is None && s.col == s.pending
    &&& match s.region {
        Some(r) => s.col <= w && r.depth <= i && fits(doc, i, r.depth, w - s.col, r.stretch),
        None => true,
    }
}

/// One instruction takes a sound state to a sound state.
pub proof fn lemma_step_sound(doc: Seq<Op>, w: nat, i: int, s: State)
    requires
        0 <= i < doc.len(),
        sound(doc, w, i, s),
    ensures
        sound(doc, w, i + 1, step(doc, w, i, s)),
{
}

/// Every state that the engine reaches is sound.
pub proof fn lemma_state_sound(doc: Seq<Op>, w: nat, i: int)
    requires
        0 <= i <= doc.len(),
    ensures
        sound(doc, w, i, state_at(doc, w, i)),
    decreases i,
{
    if i > 0 {
        lemma_state_sound(doc, w, i - 1);
        lemma_step_sound(doc, w, i - 1, state_at(doc, w, i - 1));
    }
}


/// A broken box that is open, as the engine keeps it while it runs.
struct OpenBox {
    mode: BoxMode,
    indent: u64,
}

/// What the running engine keeps besides the text.
struct Cursor {
    pending: u64,
    /// The column, or `u64::MAX` where the column has passed it.
    col: u64,
    fresh: bool,
    indent: u64,
    stack: Vec<OpenBox>,
    region: Option<(usize, bool)>,
}

impl Cursor {
    /// The running engine stands for the state `s`.
    spec fn stands_for(&self, out: Seq<char>, s: State) -> bool {
        &&& out == s.out
        &&& self.pending == s.pending
        &&& self.col as nat == if s.col <= u64::MAX { s.col } else { u64::MAX as nat }
        &&& self.fresh == s.fresh
        &&& self.indent == s.indent
        &&& self.stack@.len() == s.stack.len()
        &&& forall|k: int|
            0 <= k < s.stack.len() ==> (#[trigger] self.stack@[k]).mode == s.stack[k].mode
                && self.stack@[k].indent == s.stack[k].indent
        &&& match self.region {
            Some((depth, stretch)) => s.region == Some(Region { depth: depth as nat, stretch }),
            None => s.region is None,
        }
    }
}

fn shifted(indent: u64, delta: isize) -> (r: u64)
    requires
        indent <= INDENT_LIMIT + u32::MAX,
    ensures
        r == shift(indent as nat, delta as int),
{
    let v: i128 = indent as i128 + delta as i128;
    if v < 0 {
        0
    } else if v > INDENT_LIMIT as i128 {
        INDENT_LIMIT
    } else {
        v as u64
    }
}

fn push_spaces(out: &mut String, n: u64)
    ensures
        final(out)@ == old(out)@ + spaces(n as nat),
{
    let mut k: u64 = 0;
    while k < n
        invariant
            k <= n,
            out@ == old(out)@ + spaces(k as nat),
        decreases n - k,
    {
        proof {
            reveal_strlit(" ");
            assert(spaces(k as nat) + " "@ =~= spaces((k + 1) as nat));
        }
        out.append(" ");
        k = k + 1;
    }
}

/// Measures the stream from `from` on against `budget` columns.
fn fits_within(doc: &Vec<Instr>, from: usize, budget: u64, stretch: bool) -> (r: bool)
    ensures
        r == fits(ops(doc@), from as int, 0, budget as int, stretch),
{
    let mut i: usize = from;
    let mut depth: usize = 0;
    let mut left: u64 = budget;
    while i < doc.len()
        invariant
            from <= i,
            depth <= i - from,
            fits(ops(doc@), from as int, 0, budget as int, stretch) == fits(
                ops(doc@),
                i as int,
                depth as nat,
                left as int,
                stretch,
            ),
        decreases doc.len() - i,
    {
        assert(ops(doc@)[i as int] == doc@[i as int]@);
        match &doc[i] {
            Instr::Text(t) => {
                let n: usize = t.as_str().unicode_len();
                if n as u64 > left {
                    return false;
                }
                left = left - n as u64;
            },
            Instr::BeginBox(_, _) => {
                depth = depth + 1;
            },
            Instr::EndBox => {
                if depth == 0 {
                    return true;
                }
                depth = depth - 1;
            },
            Instr::Break(kind) => {
                if stretch && depth == 0 {
                    return true;
                }
                match kind {
                    BreakKind::Hard => {
                        return false;
                    },
                    BreakKind::Space => {
                        if left < 1 {
                            return false;
                        }
                        left = left - 1;
                    },
                    _ => {},
                }
            },
            Instr::CommaBreak(kind) => {
                if stretch && depth == 0 {
                    return true;
                }
                match kind {
                    BreakKind::Hard => {
                        return false;
                    },
                    BreakKind::Space => {
                        if left < 1 {
                            return false;
                        }
                        left = left - 1;
                    },
                    _ => {},
                }
            },
            Instr::Offset(_) => {},
        }
        i = i + 1;
    }
    true
}

/// Ends the current line.
fn end_line(out: &mut String, cur: &mut Cursor, Ghost(s): Ghost<State>)
    requires
        old(cur).stands_for(old(out)@, s),
    ensures
        final(cur).stands_for(final(out)@, newline(s)),
        final(cur).stack == old(cur).stack,
        final(cur).region == old(cur).region,
{
    proof {
        reveal_strlit("\n");
        assert("\n"@ =~= seq!['\n']);
        assert(s.out + seq!['\n'] =~= s.out.push('\n'));
    }
    out.append("\n");
    cur.pending = cur.indent;
    cur.col = cur.indent;
    cur.fresh = true;
}

/// Writes `t` behind the spaces owed.
fn put(out: &mut String, cur: &mut Cursor, t: &str, Ghost(s): Ghost<State>)
    requires
        old(cur).stands_for(old(out)@, s),
    ensures
        final(cur).stands_for(final(out)@, write(s, t@)),
        final(cur).stack == old(cur).stack,
        final(cur).region == old(cur).region,
{
    push_spaces(out, cur.pending);
    out.append(t);
    let n: usize = t.unicode_len();
    cur.pending = 0;
    cur.col = cur.col.saturating_add(n as u64);
    cur.fresh = false;
}

/// Runs the engine over a stream, and tells besides the text whether nothing
/// written outside the fitting regions passed the width.
fn run(doc: &Vec<Instr>, w: u32) -> (r: (String, bool))
    ensures
        r.0@ == layout(ops(doc@), w as nat),
        r.1 == no_loose_overflow(ops(doc@), w as nat),
{
    let mut out = String::new();
    let mut cur = Cursor {
        pending: 0,
        col: 0,
        fresh: false,
        indent: 0,
        stack: Vec::new(),
        region: None,
    };
    let mut kept: bool = true;
    let ghost d = ops(doc@);
    let mut i: usize = 0;
    while i < doc.len()
        invariant
            i <= doc.len(),
            d == ops(doc@),
            cur.stands_for(out@, state_at(d, w as nat, i as int)),
            kept == (forall|k: int| 0 <= k < i ==> #[trigger] loose_reach(d, w as nat, k) <= w),
        decreases doc.len() - i,
    {
        let ghost s = state_at(d, w as nat, i as int);
        proof {
            lemma_state_sound(d, w as nat, i as int);
            assert(d[i as int] == doc@[i as int]@);
            assert(state_at(d, w as nat, i + 1) == step(d, w as nat, i as int, s));
        }
        let mut within: bool = true;
        match &doc[i] {
            Instr::Text(t) => {
                if cur.region.is_none() {
                    let n: usize = t.as_str().unicode_len();
                    within = cur.col <= w as u64 && n as u64 <= w as u64 - cur.col;
                }
                put(&mut out, &mut cur, t.as_str(), Ghost(s));
            },
            Instr::BeginBox(mode, delta) => {
                cur.fresh = false;
                match cur.region {
                    Some((depth, stretch)) => {
                        cur.region = Some((depth + 1, stretch));
                    },
                    None => {
                        if cur.col <= w as u64 && fits_within(doc, i + 1, w as u64 - cur.col, false) {
                            cur.region = Some((0, false));
                        } else {
                            cur.stack.push(OpenBox { mode: *mode, indent: cur.indent });
                            cur.indent = shifted(cur.indent, *delta);
                        }
                    },
                }
            },
            Instr::EndBox => {
                cur.fresh = false;
                let closes_broken: bool = match cur.region {
                    Some((depth, stretch)) => {
                        if depth > 0 {
                            cur.region = Some((depth - 1, stretch));
                            false
                        } else {
                            cur.region = None;
                            stretch
                        }
                    },
                    None => true,
                };
                if closes_broken {
                    match cur.stack.pop() {
                        Some(frame) => {
                            cur.indent = frame.indent;
                        },
                        None => {},
                    }
                }
            },
            Instr::Break(kind) => {
                let _ = break_here(doc, w, i, &mut out, &mut cur, *kind, false, Ghost(s));
            },
            Instr::CommaBreak(kind) => {
                let met_directly: bool = match cur.region {
                    None => true,
                    Some((depth, stretch)) => stretch && depth == 0,
                };
                let room: bool = cur.col < w as u64;
                let gave = break_here(doc, w, i, &mut out, &mut cur, *kind, true, Ghost(s));
                within = !(met_directly && gave) || room;
            },
            Instr::Offset(delta) => {
                if cur.fresh {
                    cur.pending = shifted(cur.pending, *delta);
                    cur.col = cur.pending;
                }
            },
        }
        assert(within == (loose_reach(d, w as nat, i as int) <= w));
        kept = kept && within;
        i = i + 1;
    }
    (out, kept)
}

/// Lays out a stream of instructions under the maximum width `w`, whether or
/// not its boxes are balanced; an `EndBox` that closes nothing is passed over.
pub fn lay_out(doc: &Vec<Instr>, w: u32) -> (text: String)
    ensures
        text@ == layout(ops(doc@), w as nat),
        long_lines_are_loose(ops(doc@), w as nat, text@),
{
    proof {
        lemma_long_lines_are_loose(ops(doc@), w as nat);
    }
    run(doc, w).0
}

/// Tells whether the layout of a stream keeps all that is written outside
/// the fitting regions within the width `w`, and with it every line. Where
/// no text of the stream holds a newline of its own, this tells whether every
/// line of the layout is within the width.
pub fn keeps_width(doc: &Vec<Instr>, w: u32) -> (kept: bool)
    ensures
        kept == no_loose_overflow(ops(doc@), w as nat),
        kept ==> lines_within(layout(ops(doc@), w as nat), w as nat),
        single_line_texts(ops(doc@)) ==> kept == lines_within(layout(ops(doc@), w as nat), w as nat),
{
    proof {
        if no_loose_overflow(ops(doc@), w as nat) {
            lemma_width_bound(ops(doc@), w as nat);
        }
        if single_line_texts(ops(doc@)) {
            lemma_width_bound_exact(ops(doc@), w as nat);
        }
    }
    run(doc, w).1
}

/// Renders the break at instruction `i`, and tells whether it became a
/// newline.
fn break_here(
    doc: &Vec<Instr>,
    w: u32,
    i: usize,
    out: &mut String,
    cur: &mut Cursor,
    kind: BreakKind,
    comma: bool,
    Ghost(s): Ghost<State>,
) -> (gave: bool)
    requires
        i < doc.len(),
        old(cur).stands_for(old(out)@, s),
        sound(ops(doc@), w as nat, i as int, s),
    ensures
        final(cur).stands_for(final(out)@, break_step(ops(doc@), w as nat, i as int, s, kind, comma)),
        gave == breaks(ops(doc@), w as nat, i as int, s, kind),
{
    let gap: u64 = match kind {
        BreakKind::Space => 1,
        _ => 0,
    };
    let is_direct: bool = match cur.region {
        None => true,
        Some((depth, stretch)) => stretch && depth == 0,
    };
    let gives: bool = match kind {
        BreakKind::Hard => true,
        BreakKind::Never => false,
        _ => is_direct && {
            let consistent: bool = cur.stack.len() > 0 && match cur.stack[cur.stack.len() - 1].mode {
                BoxMode::Consistent => true,
                BoxMode::Inconsistent => false,
            };
            consistent || !(cur.col <= w as u64 && gap <= w as u64 - cur.col && fits_within(
                doc,
                i + 1,
                w as u64 - cur.col - gap,
                true,
            ))
        },
    };
    let ghost base = if is_direct {
        State { region: None, ..s }
    } else {
        s
    };
    if is_direct {
        cur.region = None;
    }
    if gives {
        if comma {
            proof {
                reveal_strlit(",");
                assert(","@ =~= seq![',']);
            }
            put(out, cur, ",", Ghost(base));
            end_line(out, cur, Ghost(write(base, seq![','])));
        } else {
            end_line(out, cur, Ghost(base));
        }
    } else {
        if is_direct {
            match kind {
                BreakKind::Never => {},
                _ => {
                    cur.region = Some((0, true));
                },
            }
        }
        cur.pending = cur.pending + gap;
        cur.col = cur.col.saturating_add(gap);
        cur.fresh = false;
    }
    gives
}

/// No newline stands in `s` from `a` up to `b`.
pub open spec fn no_newline(s: Seq<char>, a: int, b: int) -> bool {
    forall|j: int| a <= j < b ==> s[j] != '\n'
}

/// No line of the text `s` is longer than `w`: every stretch of `s` without a
/// newline has at most `w` characters.
pub open spec fn lines_within(s: Seq<char>, w: nat) -> bool {
    forall|a: int, b: int| 0 <= a <= b <= s.len() && #[trigger] no_newline(s, a, b) ==> b - a <= w
}

/// The last line of `s`, as far as it is written, has at most `t` characters.
pub open spec fn tail_within(s: Seq<char>, t: int) -> bool {
    forall|a: int| 0 <= a <= s.len() && #[trigger] no_newline(s, a, s.len() as int) ==> s.len() - a <= t
}

/// The column up to which instruction `i` writes outside every fitting
/// region, or 0 where it writes nothing there: a text that stands directly in
/// a broken box or outside all boxes, measured by no one; and the comma of a
/// break met there that becomes a newline.
pub open spec fn loose_reach(doc: Seq<Op>, w: nat, i: int) -> nat {
    let s = state_at(doc, w, i);
    match doc[i] {
        Op::Text(t) => if s.region is None {
            s.col + t.len()
        } else {
            0
        },
        Op::CommaBreak(kind) => if direct(s) && breaks(doc, w, i, s, kind) {
            s.col + 1
        } else {
            0
        },
        _ => 0,
    }
}

/// Nothing that is written outside the fitting regions passes the width `w`.
pub open spec fn no_loose_overflow(doc: Seq<Op>, w: nat) -> bool {
    forall|i: int| 0 <= i < doc.len() ==> #[trigger] loose_reach(doc, w, i) <= w
}

proof fn lemma_lines_append(s: Seq<char>, x: Seq<char>, t: int, w: nat)
    requires
        lines_within(s, w),
        tail_within(s, t),
        0 <= t,
        t + x.len() <= w,
    ensures
        lines_within(s + x, w),
        tail_within(s + x, t + x.len()),
{
    let r = s + x;
    assert forall|a: int, b: int| 0 <= a <= b <= r.len() && #[trigger] no_newline(r, a, b) implies b
        - a <= w by {
        if b <= s.len() {
            assert forall|j: int| a <= j < b implies s[j] != '\n' by {
                assert(r[j] == s[j]);
            }
            assert(no_newline(s, a, b));
        } else if a < s.len() {
            assert forall|j: int| a <= j < s.len() implies s[j] != '\n' by {
                assert(r[j] == s[j]);
            }
            assert(no_newline(s, a, s.len() as int));
        }
    }
    assert forall|a: int| 0 <= a <= r.len() && #[trigger] no_newline(r, a, r.len() as int) implies r.len()
        - a <= t + x.len() by {
        if a < s.len() {
            assert forall|j: int| a <= j < s.len() implies s[j] != '\n' by {
                assert(r[j] == s[j]);
            }
            assert(no_newline(s, a, s.len() as int));
        }
    }
}

proof fn lemma_lines_newline(s: Seq<char>, t: int, w: nat)
    requires
        lines_within(s, w),
        tail_within(s, t),
        t <= w,
    ensures
        lines_within(s.push('\n'), w),
        tail_within(s.push('\n'), 0),
{
    let r = s.push('\n');
    assert(r[s.len() as int] == '\n');
    assert forall|a: int, b: int| 0 <= a <= b <= r.len() && #[trigger] no_newline(r, a, b) implies b
        - a <= w by {
        if b <= s.len() {
            assert forall|j: int| a <= j < b implies s[j] != '\n' by {
                assert(r[j] == s[j]);
            }
            assert(no_newline(s, a, b));
        } else if a < b {
            assert(r[s.len() as int] == '\n');
        }
    }
    assert forall|a: int| 0 <= a <= r.len() && #[trigger] no_newline(r, a, r.len() as int) implies r.len()
        - a <= 0 by {
        if a < r.len() {
            assert(r[s.len() as int] == '\n');
        }
    }
}

/// The text written so far keeps every line within the width.
spec fn tidy(w: nat, s: State) -> bool {
    &&& lines_within(s.out, w)
    &&& tail_within(s.out, s.col - s.pending)
    &&& s.col - s.pending <= w
}

proof fn lemma_write_tidy(w: nat, s: State, t: Seq<char>)
    requires
        tidy(w, s),
        s.pending <= s.col,
        s.col + t.len() <= w,
    ensures
        tidy(w, write(s, t)),
{
    let x = spaces(s.pending) + t;
    lemma_lines_append(s.out, x, s.col - s.pending, w);
    assert(s.out + x =~= s.out + spaces(s.pending) + t);
}

proof fn lemma_newline_tidy(w: nat, s: State)
    requires
        tidy(w, s),
    ensures
        tidy(w, newline(s)),
{
    lemma_lines_newline(s.out, s.col - s.pending, w);
}

proof fn lemma_step_tidy(doc: Seq<Op>, w: nat, i: int)
    requires
        0 <= i < doc.len(),
        tidy(w, state_at(doc, w, i)),
        loose_reach(doc, w, i) <= w,
    ensures
        tidy(w, state_at(doc, w, i + 1)),
{
    let s = state_at(doc, w, i);
    lemma_state_sound(doc, w, i);
    assert(state_at(doc, w, i + 1) == step(doc, w, i, s));
    match doc[i] {
        Op::Text(t) => {
            lemma_write_tidy(w, s, t);
        },
        Op::Break(kind) => {
            let base = State { region: None, ..s };
            lemma_newline_tidy(w, s);
            lemma_newline_tidy(w, base);
        },
        Op::CommaBreak(kind) => {
            let base = State { region: None, ..s };
            if direct(s) && breaks(doc, w, i, s, kind) {
                lemma_write_tidy(w, base, seq![',']);
                lemma_newline_tidy(w, write(base, seq![',']));
            }
        },
        _ => {},
    }
}

proof fn lemma_state_tidy(doc: Seq<Op>, w: nat, i: int)
    requires
        0 <= i <= doc.len(),
        no_loose_overflow(doc, w),
    ensures
        tidy(w, state_at(doc, w, i)),
    decreases i,
{
    if i > 0 {
        lemma_state_tidy(doc, w, i - 1);
        assert(loose_reach(doc, w, i - 1) <= w);
        lemma_step_tidy(doc, w, i - 1);
    }
}

/// The width bound. Where nothing that is written outside the fitting regions
/// passes the width, no line of the text is longer than the width: whatever
/// the engine keeps on a line because it measured it, fits there.
pub proof fn lemma_width_bound(doc: Seq<Op>, w: nat)
    requires
        no_loose_overflow(doc, w),
    ensures
        lines_within(layout(doc, w), w),
{
    lemma_state_tidy(doc, w, doc.len() as int);
}


/// Lays out a stream of instructions under the maximum width `w`.
///
/// A stream whose boxes are not balanced is refused. The text is that of the
/// layout engine. A line of it that is longer than `w` holds something
/// written outside the fitting regions that passes `w`.
pub fn render(doc: &Vec<Instr>, w: u32) -> (r: Result<String, Error>)
    ensures
        r is Ok <==> balanced(ops(doc@)),
        r matches Ok(text) ==> text@ == layout(ops(doc@), w as nat) && long_lines_are_loose(
            ops(doc@),
            w as nat,
            text@,
        ),
        r matches Err(e) ==> e == Error::Unbalanced,
{
    if !is_balanced(doc) {
        return Err(Error::Unbalanced);
    }
    Ok(lay_out(doc, w))
}

/// No text of the stream holds a newline of its own.
pub open spec fn single_line_texts(doc: Seq<Op>) -> bool {
    forall|i: int, j: int|
        0 <= i < doc.len() && doc[i] is Text && 0 <= j < doc[i]->Text_0.len() ==> (
        #[trigger] doc[i]->Text_0[j]) != '\n'
}

/// One text is the beginning of another.
pub open spec fn begins(a: Seq<char>, b: Seq<char>) -> bool {
    a.len() <= b.len() && b.subrange(0, a.len() as int) == a
}

/// The line being written holds exactly as many characters as the column
/// says, less the spaces owed.
spec fn exact(s: State) -> bool {
    &&& s.pending <= s.col
    &&& s.col - s.pending <= s.out.len()
    &&& no_newline(s.out, s.out.len() - (s.col - s.pending), s.out.len() as int)
}

proof fn lemma_write_exact(s: State, t: Seq<char>)
    requires
        exact(s),
        forall|j: int| 0 <= j < t.len() ==> t[j] != '\n',
    ensures
        exact(write(s, t)),
        begins(s.out, write(s, t).out),
{
    let n = write(s, t);
    assert(n.out.subrange(0, s.out.len() as int) =~= s.out);
    assert forall|j: int| n.out.len() - n.col <= j < n.out.len() implies n.out[j] != '\n' by {
        if j < s.out.len() {
            assert(n.out[j] == s.out[j]);
        } else if j < s.out.len() + s.pending {
            assert(n.out[j] == spaces(s.pending)[j - s.out.len()]);
        } else {
            assert(n.out[j] == t[j - s.out.len() - s.pending]);
        }
    }
}

proof fn lemma_step_exact(doc: Seq<Op>, w: nat, i: int)
    requires
        0 <= i < doc.len(),
        single_line_texts(doc),
        exact(state_at(doc, w, i)),
    ensures
        exact(state_at(doc, w, i + 1)),
        begins(state_at(doc, w, i).out, state_at(doc, w, i + 1).out),
{
    let s = state_at(doc, w, i);
    let n = state_at(doc, w, i + 1);
    lemma_state_sound(doc, w, i);
    assert(n == step(doc, w, i, s));
    assert(s.out.subrange(0, s.out.len() as int) =~= s.out);
    match doc[i] {
        Op::Text(t) => {
            assert forall|j: int| 0 <= j < t.len() implies t[j] != '\n' by {
                assert(doc[i]->Text_0[j] != '\n');
            }
            lemma_write_exact(s, t);
        },
        Op::Break(kind) => {
            assert(s.out.push('\n').subrange(0, s.out.len() as int) =~= s.out);
        },
        Op::CommaBreak(kind) => {
            let base = State { region: None, ..s };
            lemma_write_exact(s, seq![',']);
            lemma_write_exact(base, seq![',']);
            let c = write(s, seq![',']);
            assert(s.out.push('\n').subrange(0, s.out.len() as int) =~= s.out);
            assert(c.out.push('\n').subrange(0, s.out.len() as int) =~= c.out.subrange(
                0,
                s.out.len() as int,
            ));
        },
        _ => {},
    }
}

proof fn lemma_state_exact(doc: Seq<Op>, w: nat, i: int)
    requires
        0 <= i <= doc.len(),
        single_line_texts(doc),
    ensures
        exact(state_at(doc, w, i)),
    decreases i,
{
    if i > 0 {
        lemma_state_exact(doc, w, i - 1);
        lemma_step_exact(doc, w, i - 1);
    }
}

proof fn lemma_out_grows(doc: Seq<Op>, w: nat, i: int, k: int)
    requires
        0 <= i <= k <= doc.len(),
        single_line_texts(doc),
    ensures
        begins(state_at(doc, w, i).out, state_at(doc, w, k).out),
    decreases k - i,
{
    let a = state_at(doc, w, i).out;
    if i == k {
        assert(a.subrange(0, a.len() as int) =~= a);
    } else {
        lemma_out_grows(doc, w, i, k - 1);
        lemma_state_exact(doc, w, k - 1);
        lemma_step_exact(doc, w, k - 1);
        let b = state_at(doc, w, k - 1).out;
        let c = state_at(doc, w, k).out;
        assert(c.subrange(0, a.len() as int) =~= b.subrange(0, a.len() as int));
    }
}

proof fn lemma_long_line_stays(a: Seq<char>, b: Seq<char>, from: int, to: int, w: nat)
    requires
        begins(a, b),
        0 <= from <= to <= a.len(),
        no_newline(a, from, to),
        to - from > w,
    ensures
        !lines_within(b, w),
{
    assert forall|j: int| from <= j < to implies b[j] != '\n' by {
        assert(b.subrange(0, a.len() as int)[j] == b[j]);
    }
    assert(no_newline(b, from, to));
}

/// The width bound, both ways. In a stream whose texts hold no newline of
/// their own, no line of the layout is longer than the width exactly when
/// nothing that is written outside the fitting regions passes the width.
pub proof fn lemma_width_bound_exact(doc: Seq<Op>, w: nat)
    requires
        single_line_texts(doc),
    ensures
        lines_within(layout(doc, w), w) <==> no_loose_overflow(doc, w),
{
    if no_loose_overflow(doc, w) {
        lemma_width_bound(doc, w);
    } else {
        let i = choose|i: int| 0 <= i < doc.len() && #[trigger] loose_reach(doc, w, i) > w;
        let s = state_at(doc, w, i);
        let n = state_at(doc, w, i + 1);
        lemma_state_sound(doc, w, i);
        lemma_state_exact(doc, w, i);
        lemma_state_exact(doc, w, i + 1);
        lemma_out_grows(doc, w, i + 1, doc.len() as int);
        assert(n == step(doc, w, i, s));
        match doc[i] {
            Op::Text(t) => {
                lemma_long_line_stays(n.out, layout(doc, w), n.out.len() - n.col, n.out.len() as int, w);
            },
            Op::CommaBreak(kind) => {
                let base = State { region: None, ..s };
                let c = write(base, seq![',']);
                lemma_write_exact(base, seq![',']);
                assert(n.out == c.out.push('\n'));
                assert(n.out.subrange(0, c.out.len() as int) =~= c.out);
                assert forall|j: int| c.out.len() - c.col <= j < c.out.len() implies n.out[j] != '\n' by {
                    assert(n.out[j] == c.out[j]);
                }
                assert(no_newline(n.out, c.out.len() - c.col, c.out.len() as int));
                lemma_long_line_stays(n.out, layout(doc, w), c.out.len() - c.col, c.out.len() as int, w);
            },
            _ => {},
        }
    }
}


/// Instruction `i` wrote the character at place `p` of the text.
pub open spec fn wrote(doc: Seq<Op>, w: nat, i: int, p: int) -> bool {
    state_at(doc, w, i).out.len() <= p < state_at(doc, w, i + 1).out.len()
}

/// Every line of `text` that is longer than the width holds something that
/// was written outside the fitting regions and passes the width: wherever
/// more than `w` characters stand without a newline between them, the last
/// of them was written by an instruction whose loose reach passes `w`.
pub open spec fn long_lines_are_loose(doc: Seq<Op>, w: nat, text: Seq<char>) -> bool {
    forall|a: int, b: int|
        0 <= a <= b <= text.len() && #[trigger] no_newline(text, a, b) && b - a > w ==> exists|i: int|
            0 <= i < doc.len() && wrote(doc, w, i, b - 1) && #[trigger] loose_reach(doc, w, i) > w
}

/// The column accounts for the line: what is written of the current line is
/// no longer than the column says, less the spaces owed.
spec fn accounted(s: State) -> bool {
    s.pending <= s.col && tail_within(s.out, s.col - s.pending)
}

proof fn lemma_tail_append(s: Seq<char>, x: Seq<char>, t: int)
    requires
        tail_within(s, t),
        0 <= t,
    ensures
        tail_within(s + x, t + x.len()),
{
    let r = s + x;
    assert forall|a: int| 0 <= a <= r.len() && #[trigger] no_newline(r, a, r.len() as int) implies r.len()
        - a <= t + x.len() by {
        if a < s.len() {
            assert forall|j: int| a <= j < s.len() implies s[j] != '\n' by {
                assert(r[j] == s[j]);
            }
            assert(no_newline(s, a, s.len() as int));
        }
    }
}

proof fn lemma_tail_newline(s: Seq<char>)
    ensures
        tail_within(s.push('\n'), 0),
{
    let r = s.push('\n');
    assert forall|a: int| 0 <= a <= r.len() && #[trigger] no_newline(r, a, r.len() as int) implies r.len()
        - a <= 0 by {
        if a < r.len() {
            assert(r[s.len() as int] == '\n');
        }
    }
}

proof fn lemma_step_accounted(doc: Seq<Op>, w: nat, i: int)
    requires
        0 <= i < doc.len(),
        accounted(state_at(doc, w, i)),
    ensures
        accounted(state_at(doc, w, i + 1)),
        begins(state_at(doc, w, i).out, state_at(doc, w, i + 1).out),
{
    let s = state_at(doc, w, i);
    let n = state_at(doc, w, i + 1);
    lemma_state_sound(doc, w, i);
    assert(n == step(doc, w, i, s));
    assert(s.out.subrange(0, s.out.len() as int) =~= s.out);
    match doc[i] {
        Op::Text(t) => {
            lemma_tail_append(s.out, spaces(s.pending) + t, s.col - s.pending);
            assert(s.out + (spaces(s.pending) + t) =~= n.out);
            assert(n.out.subrange(0, s.out.len() as int) =~= s.out);
        },
        Op::Break(kind) => {
            lemma_tail_newline(s.out);
            assert(s.out.push('\n').subrange(0, s.out.len() as int) =~= s.out);
        },
        Op::CommaBreak(kind) => {
            let c = s.out + spaces(s.pending) + seq![','];
            lemma_tail_newline(c);
            assert(c.push('\n').subrange(0, s.out.len() as int) =~= s.out);
        },
        _ => {},
    }
}

proof fn lemma_state_accounted(doc: Seq<Op>, w: nat, i: int)
    requires
        0 <= i <= doc.len(),
    ensures
        accounted(state_at(doc, w, i)),
    decreases i,
{
    if i > 0 {
        lemma_state_accounted(doc, w, i - 1);
        lemma_step_accounted(doc, w, i - 1);
    }
}

/// What an instruction adds to a line that is too long, it writes outside
/// the fitting regions and past the width.
proof fn lemma_step_long(doc: Seq<Op>, w: nat, k: int, a: int, b: int)
    requires
        0 <= k < doc.len(),
        0 <= a <= b <= state_at(doc, w, k + 1).out.len(),
        no_newline(state_at(doc, w, k + 1).out, a, b),
        b - a > w,
        b > state_at(doc, w, k).out.len(),
    ensures
        loose_reach(doc, w, k) > w,
{
    let s = state_at(doc, w, k);
    let n = state_at(doc, w, k + 1);
    lemma_state_sound(doc, w, k);
    lemma_state_accounted(doc, w, k);
    assert(n == step(doc, w, k, s));
    let cut = s.out.len() as int;
    if a < cut {
        assert forall|j: int| a <= j < cut implies s.out[j] != '\n' by {
            lemma_step_accounted(doc, w, k);
            assert(n.out.subrange(0, cut)[j] == n.out[j]);
        }
        assert(no_newline(s.out, a, cut));
        assert(cut - a <= s.col - s.pending);
    }
    match doc[k] {
        Op::Text(t) => {
            assert(n.out.len() == cut + s.pending + t.len());
        },
        Op::Break(kind) => {
            if n.out.len() > cut {
                assert(n.out == s.out.push('\n'));
                assert(n.out[cut] == '\n');
            }
        },
        Op::CommaBreak(kind) => {
            if n.out.len() > cut {
                let c = s.out + spaces(s.pending) + seq![','];
                assert(n.out == c.push('\n'));
                assert(n.out[c.len() as int] == '\n');
                assert(b <= c.len());
            }
        },
        _ => {},
    }
}

/// The long lines of the text written so far hold what was written outside
/// the fitting regions and passes the width.
spec fn long_lines_upto(doc: Seq<Op>, w: nat, k: int) -> bool {
    forall|a: int, b: int|
        0 <= a <= b <= state_at(doc, w, k).out.len() && #[trigger] no_newline(state_at(doc, w, k).out, a, b)
            && b - a > w ==> exists|i: int|
            0 <= i < k && wrote(doc, w, i, b - 1) && #[trigger] loose_reach(doc, w, i) > w
}

proof fn lemma_long_lines_upto(doc: Seq<Op>, w: nat, k: int)
    requires
        0 <= k <= doc.len(),
    ensures
        long_lines_upto(doc, w, k),
    decreases k,
{
    let cur = state_at(doc, w, k).out;
    if k == 0 {
        assert(cur.len() == 0);
    } else {
        lemma_long_lines_upto(doc, w, k - 1);
        lemma_state_accounted(doc, w, k - 1);
        lemma_step_accounted(doc, w, k - 1);
        let prev = state_at(doc, w, k - 1).out;
        assert forall|a: int, b: int|
            0 <= a <= b <= cur.len() && #[trigger] no_newline(cur, a, b) && b - a > w implies exists|i: int|
            0 <= i < k && wrote(doc, w, i, b - 1) && #[trigger] loose_reach(doc, w, i) > w by {
            if b <= prev.len() {
                assert forall|j: int| a <= j < b implies prev[j] != '\n' by {
                    assert(cur.subrange(0, prev.len() as int)[j] == cur[j]);
                }
                assert(no_newline(prev, a, b));
                let i = choose|i: int|
                    0 <= i < k - 1 && wrote(doc, w, i, b - 1) && #[trigger] loose_reach(doc, w, i) > w;
                assert(0 <= i < k && wrote(doc, w, i, b - 1) && loose_reach(doc, w, i) > w);
            } else {
                lemma_step_long(doc, w, k - 1, a, b);
                assert(wrote(doc, w, k - 1, b - 1));
            }
        }
    }
}

/// The width bound, line by line. Every line of the layout that is longer
/// than the width holds something that was written outside the fitting
/// regions and passes the width; what the engine measured never makes a line
/// too long.
pub proof fn lemma_long_lines_are_loose(doc: Seq<Op>, w: nat)
    ensures
        long_lines_are_loose(doc, w, layout(doc, w)),
{
    lemma_long_lines_upto(doc, w, doc.len() as int);
}

} // verus!
