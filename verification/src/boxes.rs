//! What the layout engine does with boxes: laws that state, for every stream
//! and every width, when a box is laid out flat and when a break that stands
//! directly in a box becomes a newline.

use vstd::prelude::*;
use crate::doc::{
    balanced, lemma_well_nested_prefix, nesting_step, open_boxes, well_nested, BoxMode, BreakKind, Op,
};
use crate::layout::{
    blank, breaks, direct, fits, lemma_state_sound, mode_here, shift, sound, spaces, state_at, step,
    Frame, Region, State,
};

verus! {

/// The content of the box that opens at `a`, measured from where it opens,
/// fits in what is left of the line.
pub open spec fn box_fits(doc: Seq<Op>, w: nat, a: int) -> bool {
    let s = state_at(doc, w, a);
    s.col <= w && fits(doc, a + 1, 0, w - s.col, false)
}

/// The box that opens at `a` is laid out flat: it opens inside a region that
/// fits, or fits itself.
pub open spec fn laid_flat(doc: Seq<Op>, w: nat, a: int) -> bool {
    state_at(doc, w, a).region is Some || box_fits(doc, w, a)
}

/// The place `i` stands directly in the box that opens at `a`: every box
/// opened between the two is closed again.
pub open spec fn directly_in(doc: Seq<Op>, a: int, i: int) -> bool {
    0 <= a < i <= doc.len() && doc[a] is BeginBox && balanced(doc.subrange(a + 1, i))
}

/// The text behind the break at `i`, up to the next break of its box, fits
/// behind the break on the line.
pub open spec fn stretch_fits(doc: Seq<Op>, w: nat, i: int, kind: BreakKind) -> bool {
    let s = state_at(doc, w, i);
    s.col + blank(kind) <= w && fits(doc, i + 1, 0, w - s.col - blank(kind), true)
}

/// What fits up to the end of an enclosing region fits up to the end of a
/// box inside it.
proof fn lemma_fits_inner(doc: Seq<Op>, i: int, outer: nat, inner: nat, budget: int, stretch: bool)
    requires
        outer > inner,
        fits(doc, i, outer, budget, stretch),
    ensures
        fits(doc, i, inner, budget, false),
    decreases doc.len() - i,
{
    if 0 <= i < doc.len() {
        match doc[i] {
            Op::Text(t) => {
                lemma_fits_inner(doc, i + 1, outer, inner, budget - t.len(), stretch);
            },
            Op::BeginBox(_, _) => {
                lemma_fits_inner(doc, i + 1, outer + 1, inner + 1, budget, stretch);
            },
            Op::EndBox => {
                if inner > 0 {
                    lemma_fits_inner(doc, i + 1, (outer - 1) as nat, (inner - 1) as nat, budget, stretch);
                }
            },
            Op::Break(kind) => {
                lemma_fits_inner(doc, i + 1, outer, inner, budget - blank(kind), stretch);
            },
            Op::CommaBreak(kind) => {
                lemma_fits_inner(doc, i + 1, outer, inner, budget - blank(kind), stretch);
            },
            Op::Offset(_) => {
                lemma_fits_inner(doc, i + 1, outer, inner, budget, stretch);
            },
        }
    }
}

/// Flat boxes. A box is laid out flat exactly when its content, measured
/// from where the box opens, fits in what is left of the line.
pub proof fn lemma_flat_iff_fits(doc: Seq<Op>, w: nat, a: int)
    requires
        0 <= a < doc.len(),
        doc[a] is BeginBox,
    ensures
        laid_flat(doc, w, a) <==> box_fits(doc, w, a),
{
    let s = state_at(doc, w, a);
    lemma_state_sound(doc, w, a);
    if s.region is Some {
        let r = s.region->0;
        lemma_fits_inner(doc, a + 1, r.depth + 1, 0, w - s.col, r.stretch);
    }
}

/// The state stands as many boxes above a broken box as the stream has
/// opened since, with the frames up to the box untouched below it.
spec fn above_broken(base: Seq<Frame>, s: State, d: int) -> bool {
    &&& s.stack.len() >= base.len()
    &&& s.stack.subrange(0, base.len() as int) == base
    &&& s.stack.len() + (match s.region {
        None => 0int,
        Some(r) => r.depth + (if r.stretch {
            0int
        } else {
            1int
        }),
    }) == base.len() + d
}

/// The state stands as many boxes above a flat box as the stream has opened
/// since, in the region that the box stands in.
spec fn above_flat(stack: Seq<Frame>, r0: Region, s: State, d: int) -> bool {
    s.stack == stack && s.region == Some(Region { depth: (r0.depth + d) as nat, stretch: r0.stretch })
}

proof fn lemma_step_above_broken(doc: Seq<Op>, w: nat, j: int, base: Seq<Frame>, s: State, d: int)
    requires
        0 <= j < doc.len(),
        base.len() > 0,
        above_broken(base, s, d),
        d >= 0,
        d + nesting_step(doc[j]) >= 0,
    ensures
        above_broken(base, step(doc, w, j, s), d + nesting_step(doc[j])),
{
    let n = step(doc, w, j, s);
    match doc[j] {
        Op::BeginBox(mode, delta) => {
            assert(n.stack.subrange(0, base.len() as int) =~= s.stack.subrange(0, base.len() as int));
        },
        Op::EndBox => {
            assert(n.stack.subrange(0, base.len() as int) =~= s.stack.subrange(0, base.len() as int));
        },
        _ => {},
    }
}

proof fn lemma_step_above_flat(doc: Seq<Op>, w: nat, j: int, stack: Seq<Frame>, r0: Region, s: State, d: int)
    requires
        0 <= j < doc.len(),
        above_flat(stack, r0, s, d),
        r0.stretch ==> r0.depth >= 1,
        d >= 0,
        d + nesting_step(doc[j]) >= 0,
    ensures
        above_flat(stack, r0, step(doc, w, j, s), d + nesting_step(doc[j])),
{
}

/// The number of boxes open at `j` that were opened behind `a`.
spec fn opened_since(doc: Seq<Op>, a: int, j: int) -> int {
    open_boxes(doc.subrange(a + 1, j))
}

proof fn lemma_opened_step(doc: Seq<Op>, a: int, j: int)
    requires
        0 <= a < j < doc.len(),
    ensures
        opened_since(doc, a, j + 1) == opened_since(doc, a, j) + nesting_step(doc[j]),
        well_nested(doc.subrange(a + 1, j + 1)) ==> well_nested(doc.subrange(a + 1, j)) && opened_since(
            doc,
            a,
            j + 1,
        ) >= 0,
{
    assert(doc.subrange(a + 1, j + 1).drop_last() =~= doc.subrange(a + 1, j));
}

proof fn lemma_opened_nonnegative(doc: Seq<Op>, a: int, j: int)
    requires
        0 <= a < j <= doc.len(),
        well_nested(doc.subrange(a + 1, j)),
    ensures
        opened_since(doc, a, j) >= 0,
{
}

proof fn lemma_walk_broken(doc: Seq<Op>, w: nat, a: int, j: int)
    requires
        0 <= a < j <= doc.len(),
        doc[a] is BeginBox,
        !laid_flat(doc, w, a),
        well_nested(doc.subrange(a + 1, j)),
    ensures
        above_broken(state_at(doc, w, a + 1).stack, state_at(doc, w, j), opened_since(doc, a, j)),
        state_at(doc, w, a + 1).stack.len() > 0,
        state_at(doc, w, a + 1).stack.last().mode == doc[a]->BeginBox_0,
    decreases j - a,
{
    let s0 = state_at(doc, w, a + 1);
    assert(s0 == step(doc, w, a, state_at(doc, w, a)));
    let base = s0.stack;
    if j == a + 1 {
        assert(doc.subrange(a + 1, j) =~= Seq::<Op>::empty());
        assert(base.subrange(0, base.len() as int) =~= base);
    } else {
        lemma_opened_step(doc, a, j - 1);
        lemma_walk_broken(doc, w, a, j - 1);
        lemma_opened_nonnegative(doc, a, j - 1);
        assert(state_at(doc, w, j) == step(doc, w, j - 1, state_at(doc, w, j - 1)));
        lemma_step_above_broken(doc, w, j - 1, base, state_at(doc, w, j - 1), opened_since(doc, a, j - 1));
    }
}

/// The region that a box laid out flat stands in, once it is open.
spec fn flat_region(doc: Seq<Op>, w: nat, a: int) -> Region {
    match state_at(doc, w, a).region {
        Some(r) => Region { depth: r.depth + 1, stretch: r.stretch },
        None => Region { depth: 0, stretch: false },
    }
}

proof fn lemma_walk_flat(doc: Seq<Op>, w: nat, a: int, j: int)
    requires
        0 <= a < j <= doc.len(),
        doc[a] is BeginBox,
        laid_flat(doc, w, a),
        well_nested(doc.subrange(a + 1, j)),
    ensures
        above_flat(
            state_at(doc, w, a).stack,
            flat_region(doc, w, a),
            state_at(doc, w, j),
            opened_since(doc, a, j),
        ),
    decreases j - a,
{
    let s0 = state_at(doc, w, a + 1);
    assert(s0 == step(doc, w, a, state_at(doc, w, a)));
    if j == a + 1 {
        assert(doc.subrange(a + 1, j) =~= Seq::<Op>::empty());
    } else {
        lemma_opened_step(doc, a, j - 1);
        lemma_walk_flat(doc, w, a, j - 1);
        lemma_opened_nonnegative(doc, a, j - 1);
        assert(state_at(doc, w, j) == step(doc, w, j - 1, state_at(doc, w, j - 1)));
        lemma_step_above_flat(
            doc,
            w,
            j - 1,
            state_at(doc, w, a).stack,
            flat_region(doc, w, a),
            state_at(doc, w, j - 1),
            opened_since(doc, a, j - 1),
        );
    }
}

/// Breaks in boxes. A break that stands directly in a box becomes a newline
/// under these conditions and no others. A hard break always does, and one
/// that never breaks never does. Any other break stays where its box is laid
/// out flat. Where the box is broken, a break in a consistent box becomes a
/// newline; a break in an inconsistent box becomes one exactly when the text
/// up to the next break of the box does not fit behind it.
pub proof fn lemma_break_in_box(doc: Seq<Op>, w: nat, a: int, i: int, kind: BreakKind)
    requires
        directly_in(doc, a, i),
        i < doc.len(),
        doc[i] == Op::Break(kind) || doc[i] == Op::CommaBreak(kind),
    ensures
        breaks(doc, w, i, state_at(doc, w, i), kind) <==> kind == BreakKind::Hard || (kind
            != BreakKind::Never && !laid_flat(doc, w, a) && (doc[a]->BeginBox_0 == BoxMode::Consistent
            || !stretch_fits(doc, w, i, kind))),
{
    let s = state_at(doc, w, i);
    if laid_flat(doc, w, a) {
        lemma_walk_flat(doc, w, a, i);
        lemma_state_sound(doc, w, a);
    } else {
        lemma_walk_broken(doc, w, a, i);
        let base = state_at(doc, w, a + 1).stack;
        assert(s.stack =~= s.stack.subrange(0, base.len() as int));
    }
}


/// The width of an instruction in a layout without newlines.
pub open spec fn flat_width_of(op: Op) -> nat {
    match op {
        Op::Text(t) => t.len(),
        Op::Break(kind) => blank(kind),
        Op::CommaBreak(kind) => blank(kind),
        _ => 0,
    }
}

/// The width of the instructions from `from` up to `to`, laid out without a
/// newline.
pub open spec fn flat_width(doc: Seq<Op>, from: int, to: int) -> nat
    decreases to - from,
{
    if to <= from {
        0
    } else {
        flat_width(doc, from, to - 1) + flat_width_of(doc[to - 1])
    }
}

/// The instruction is a break.
pub open spec fn is_break(op: Op) -> bool {
    op is Break || op is CommaBreak
}

/// The instruction is a hard break.
pub open spec fn is_hard(op: Op) -> bool {
    op == Op::Break(BreakKind::Hard) || op == Op::CommaBreak(BreakKind::Hard)
}

/// No hard break stands from `from` up to `to`.
pub open spec fn no_hard_break(doc: Seq<Op>, from: int, to: int) -> bool {
    forall|k: int| from <= k < to ==> !is_hard(#[trigger] doc[k])
}

/// What is measured from `i` on ends at `j`: every box opened between the
/// two is closed again, and at `j` the stream ends, or the enclosing box
/// closes, or, for a stretch, a break of the enclosing box stands, the first
/// one since `i`.
pub open spec fn measured_to(doc: Seq<Op>, i: int, j: int, stretch: bool) -> bool {
    &&& 0 <= i <= j <= doc.len()
    &&& balanced(doc.subrange(i, j))
    &&& j == doc.len() || doc[j] is EndBox || (stretch && is_break(doc[j]))
    &&& stretch ==> forall|k: int|
        i <= k < j && is_break(#[trigger] doc[k]) ==> open_boxes(doc.subrange(i, k)) > 0
}

proof fn lemma_fits_walk(doc: Seq<Op>, i: int, j: int, k: int, budget: int, stretch: bool)
    requires
        measured_to(doc, i, j, stretch),
        i <= k <= j,
        budget >= 0,
    ensures
        open_boxes(doc.subrange(i, k)) >= 0,
        fits(doc, i, 0, budget, stretch) <==> no_hard_break(doc, i, k) && flat_width(doc, i, k) <= budget
            && fits(
            doc,
            k,
            open_boxes(doc.subrange(i, k)) as nat,
            budget - flat_width(doc, i, k),
            stretch,
        ),
    decreases k - i,
{
    lemma_well_nested_prefix(doc.subrange(i, j), k - i);
    assert(doc.subrange(i, j).take(k - i) =~= doc.subrange(i, k));
    if k == i {
        assert(doc.subrange(i, k) =~= Seq::<Op>::empty());
    } else {
        lemma_fits_walk(doc, i, j, k - 1, budget, stretch);
        assert(doc.subrange(i, k).drop_last() =~= doc.subrange(i, k - 1));
        assert(doc.subrange(i, k).last() == doc[k - 1]);
        assert(no_hard_break(doc, i, k) <==> no_hard_break(doc, i, k - 1) && !is_hard(doc[k - 1])) by {
            if no_hard_break(doc, i, k - 1) && !is_hard(doc[k - 1]) {
                assert forall|m: int| i <= m < k implies !is_hard(#[trigger] doc[m]) by {
                    if m < k - 1 {
                        assert(!is_hard(doc[m]));
                    }
                }
            }
            if no_hard_break(doc, i, k) {
                assert(!is_hard(doc[k - 1]));
                assert forall|m: int| i <= m < k - 1 implies !is_hard(#[trigger] doc[m]) by {
                    assert(!is_hard(doc[m]));
                }
            }
        }
        if stretch && is_break(doc[k - 1]) {
            assert(open_boxes(doc.subrange(i, k - 1)) > 0);
        }
    }
}

/// What fitting means. Measured content fits in a budget exactly when it
/// holds no hard break and its width, laid out without a newline, is within
/// the budget: for a box its content up to the `EndBox` that closes it, for
/// a stretch the text up to the next break of the same box.
pub proof fn lemma_fits_is_flat_width(doc: Seq<Op>, i: int, j: int, budget: int, stretch: bool)
    requires
        measured_to(doc, i, j, stretch),
        budget >= 0,
    ensures
        fits(doc, i, 0, budget, stretch) <==> no_hard_break(doc, i, j) && flat_width(doc, i, j) <= budget,
{
    lemma_fits_walk(doc, i, j, j, budget, stretch);
}


/// What an instruction writes in a layout without newlines.
pub open spec fn flat_text_of(op: Op) -> Seq<char> {
    match op {
        Op::Text(t) => t,
        Op::Break(kind) => spaces(blank(kind)),
        Op::CommaBreak(kind) => spaces(blank(kind)),
        _ => seq![],
    }
}

/// What the instructions from `from` up to `to` write in a layout without
/// newlines: their texts, with a space for every break that is one.
pub open spec fn flat_text(doc: Seq<Op>, from: int, to: int) -> Seq<char>
    decreases to - from,
{
    if to <= from {
        seq![]
    } else {
        flat_text(doc, from, to - 1) + flat_text_of(doc[to - 1])
    }
}

/// The text written so far, with the spaces owed to its last line.
pub open spec fn shown(s: State) -> Seq<char> {
    s.out + spaces(s.pending)
}

/// A flat box, in the text. What stands in a box laid out flat is written
/// on the line as it comes, with no newline added and no comma of a break:
/// up to any place in the box, the text has grown by the texts of the
/// instructions and a space for every break that is one.
pub proof fn lemma_flat_box_text(doc: Seq<Op>, w: nat, a: int, j: int)
    requires
        0 <= a < j <= doc.len(),
        doc[a] is BeginBox,
        laid_flat(doc, w, a),
        well_nested(doc.subrange(a + 1, j)),
    ensures
        shown(state_at(doc, w, j)) == shown(state_at(doc, w, a)) + flat_text(doc, a + 1, j),
    decreases j - a,
{
    let s0 = state_at(doc, w, a);
    if j == a + 1 {
        assert(state_at(doc, w, a + 1) == step(doc, w, a, s0));
        assert(shown(s0) + flat_text(doc, a + 1, j) =~= shown(s0));
    } else {
        let i = j - 1;
        lemma_opened_step(doc, a, i);
        lemma_opened_nonnegative(doc, a, i);
        lemma_flat_box_text(doc, w, a, i);
        lemma_walk_flat(doc, w, a, i);
        lemma_state_sound(doc, w, i);
        lemma_state_sound(doc, w, a);
        let s = state_at(doc, w, i);
        let n = state_at(doc, w, j);
        assert(n == step(doc, w, i, s));
        let grown = shown(s0) + flat_text(doc, a + 1, i);
        match doc[i] {
            Op::Text(t) => {
                assert(shown(n) =~= shown(s) + t);
                assert(grown + t =~= shown(s0) + (flat_text(doc, a + 1, i) + t));
            },
            Op::Break(kind) => {
                assert(shown(n) =~= shown(s) + spaces(blank(kind)));
                assert(grown + spaces(blank(kind)) =~= shown(s0) + (flat_text(doc, a + 1, i) + spaces(
                    blank(kind),
                )));
            },
            Op::CommaBreak(kind) => {
                assert(shown(n) =~= shown(s) + spaces(blank(kind)));
                assert(grown + spaces(blank(kind)) =~= shown(s0) + (flat_text(doc, a + 1, i) + spaces(
                    blank(kind),
                )));
            },
            _ => {
                assert(shown(n) =~= shown(s));
                assert(flat_text(doc, a + 1, j) =~= flat_text(doc, a + 1, i));
            },
        }
    }
}


/// What a stream writes in a layout without newlines.
pub open spec fn flat_of(stream: Seq<Op>) -> Seq<char> {
    flat_text(stream, 0, stream.len() as int)
}

/// Streams that agree on a run write the same there.
pub proof fn lemma_flat_text_same(d: Seq<Op>, e: Seq<Op>, from: int, shift: int, to: int)
    requires
        0 <= from <= to <= d.len(),
        0 <= from + shift,
        to + shift <= e.len(),
        forall|k: int| from <= k < to ==> d[k] == e[k + shift],
    ensures
        flat_text(d, from, to) == flat_text(e, from + shift, to + shift),
    decreases to - from,
{
    if to > from {
        lemma_flat_text_same(d, e, from, shift, to - 1);
    }
}

/// One more instruction writes its own text behind the rest.
pub proof fn lemma_flat_of_push(l: Seq<Op>, op: Op)
    ensures
        flat_of(l.push(op)) == flat_of(l) + flat_text_of(op),
{
    lemma_flat_text_same(l, l.push(op), 0, 0, l.len() as int);
}

/// One stream behind another writes its text behind the other's.
pub proof fn lemma_flat_of_concat(a: Seq<Op>, b: Seq<Op>)
    ensures
        flat_of(a + b) == flat_of(a) + flat_of(b),
    decreases b.len(),
{
    if b.len() == 0 {
        assert(a + b =~= a);
        assert(flat_of(a) + flat_of(b) =~= flat_of(a));
    } else {
        lemma_flat_of_concat(a, b.drop_last());
        assert(a + b =~= (a + b.drop_last()).push(b.last()));
        assert(b =~= b.drop_last().push(b.last()));
        lemma_flat_of_push(a + b.drop_last(), b.last());
        lemma_flat_of_push(b.drop_last(), b.last());
        assert(flat_of(a) + flat_of(b.drop_last()) + flat_text_of(b.last()) =~= flat_of(a) + (flat_of(
            b.drop_last(),
        ) + flat_text_of(b.last())));
    }
}

/// A stream that stands in another writes there what it writes alone.
pub proof fn lemma_flat_text_of_part(doc: Seq<Op>, at: int, part: Seq<Op>)
    requires
        0 <= at,
        at + part.len() <= doc.len(),
        doc.subrange(at, at + part.len()) == part,
    ensures
        flat_text(doc, at, at + part.len()) == flat_of(part),
{
    assert forall|k: int| 0 <= k < part.len() implies part[k] == doc[k + at] by {
        assert(doc.subrange(at, at + part.len())[k] == doc[at + k]);
    }
    lemma_flat_text_same(part, doc, 0, at, part.len() as int);
}


/// Inside a box laid out flat the engine stays in a fitting region.
pub proof fn lemma_walk_flat_region(doc: Seq<Op>, w: nat, a: int, j: int)
    requires
        0 <= a < j <= doc.len(),
        doc[a] is BeginBox,
        laid_flat(doc, w, a),
        well_nested(doc.subrange(a + 1, j)),
    ensures
        state_at(doc, w, j).region is Some,
{
    lemma_walk_flat(doc, w, a, j);
}


/// The width of a run without newlines is the length of what it writes
/// there.
pub proof fn lemma_flat_width_is_length(doc: Seq<Op>, from: int, to: int)
    requires
        0 <= from <= to <= doc.len(),
    ensures
        flat_width(doc, from, to) == flat_text(doc, from, to).len(),
    decreases to - from,
{
    if to > from {
        lemma_flat_width_is_length(doc, from, to - 1);
    }
}

} // verus!
