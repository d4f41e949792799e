//! The printer: a stream of layout instructions under construction.

use vstd::prelude::*;
use crate::doc::{
    end, hardbreak, lemma_open_boxes_push, lemma_ops_push, offset, open_boxes, ops, text, well_nested,
    BoxMode, BreakKind, Instr, Op,
};
use crate::layout::{layout, long_lines_are_loose, render};

verus! {

/// The indentation that a body adds to what encloses it.
pub const INDENT: isize = 4;

/// Collects the instructions that describe the layout of a tree.
pub struct Printer {
    doc: Vec<Instr>,
}

impl View for Printer {
    type V = Seq<Op>;

    closed spec fn view(&self) -> Seq<Op> {
        ops(self.doc@)
    }
}

/// The instructions that end an element of a list laid out in a consistent
/// box: after the last element a break that brings a comma only where it
/// breaks, after any other a comma and a space.
pub open spec fn trailing_comma_doc(is_last: bool) -> Seq<Op> {
    if is_last {
        seq![Op::CommaBreak(BreakKind::Zero)]
    } else {
        seq![Op::Text(","@), Op::Break(BreakKind::Space)]
    }
}

/// As `trailing_comma_doc`, for a list that keeps a space before what follows
/// it on the line.
pub open spec fn trailing_comma_or_space_doc(is_last: bool) -> Seq<Op> {
    if is_last {
        seq![Op::CommaBreak(BreakKind::Space)]
    } else {
        seq![Op::Text(","@), Op::Break(BreakKind::Space)]
    }
}

/// What follows the brace that opens a body. An empty body closes at once;
/// any other starts on a new line, one level in, and closes on a line of its
/// own, back at the level of the declaration.
#[verifier::opaque]
pub open spec fn body_doc(inner: Seq<Op>) -> Seq<Op> {
    (if inner.len() == 0 {
        seq![]
    } else {
        seq![hardbreak()] + inner + seq![offset(-INDENT as int)]
    }) + seq![end(), text("}"@)]
}

impl Printer {
    /// No prefix of the stream closes a box that it has not opened.
    pub open spec fn wf(&self) -> bool {
        well_nested(self@) && open_boxes(self@) >= 0
    }

    /// The number of boxes that the stream leaves open.
    pub open spec fn open(&self) -> int {
        open_boxes(self@)
    }

    /// A printer that has collected nothing.
    pub fn new() -> (p: Printer)
        ensures
            p@ == Seq::<Op>::empty(),
            p.wf(),
            p.open() == 0,
    {
        let p = Printer { doc: Vec::new() };
        assert(p@ =~= Seq::<Op>::empty());
        p
    }

    fn push(&mut self, instr: Instr)
        ensures
            final(self)@ == old(self)@.push(instr@),
            final(self).open() == old(self).open() + crate::doc::nesting_step(instr@),
            old(self).wf() && final(self).open() >= 0 ==> final(self).wf(),
    {
        proof {
            lemma_ops_push(self.doc@, instr);
            lemma_open_boxes_push(self@, instr@);
        }
        self.doc.push(instr);
    }

    /// Appends literal text.
    pub fn word(&mut self, s: &str)
        ensures
            final(self)@ == old(self)@.push(Op::Text(s@)),
            final(self).open() == old(self).open(),
            old(self).wf() ==> final(self).wf(),
    {
        self.push(Instr::Text(String::from_str(s)));
    }

    /// Appends an identifier.
    pub fn ident(&mut self, s: &String)
        ensures
            final(self)@ == old(self)@.push(Op::Text(s@)),
            final(self).open() == old(self).open(),
            old(self).wf() ==> final(self).wf(),
    {
        self.push(Instr::Text(s.clone()));
    }

    /// Opens a consistent box.
    pub fn cbox(&mut self, indent: isize)
        ensures
            final(self)@ == old(self)@.push(Op::BeginBox(BoxMode::Consistent, indent as int)),
            final(self).open() == old(self).open() + 1,
            old(self).wf() ==> final(self).wf(),
    {
        self.push(Instr::BeginBox(BoxMode::Consistent, indent));
    }

    /// Opens an inconsistent box.
    pub fn ibox(&mut self, indent: isize)
        ensures
            final(self)@ == old(self)@.push(Op::BeginBox(BoxMode::Inconsistent, indent as int)),
            final(self).open() == old(self).open() + 1,
            old(self).wf() ==> final(self).wf(),
    {
        self.push(Instr::BeginBox(BoxMode::Inconsistent, indent));
    }

    /// Closes the box opened last. To close a box where none is open is an
    /// error of the caller.
    pub fn end(&mut self)
        requires
            old(self).open() > 0,
        ensures
            final(self)@ == old(self)@.push(Op::EndBox),
            final(self).open() == old(self).open() - 1,
            old(self).wf() ==> final(self).wf(),
    {
        self.push(Instr::EndBox);
    }

    fn scan_break(&mut self, kind: BreakKind)
        ensures
            final(self)@ == old(self)@.push(Op::Break(kind)),
            final(self).open() == old(self).open(),
            old(self).wf() ==> final(self).wf(),
    {
        self.push(Instr::Break(kind));
    }

    /// A break that is a space while it is not broken.
    pub fn space(&mut self)
        ensures
            final(self)@ == old(self)@.push(Op::Break(BreakKind::Space)),
            final(self).open() == old(self).open(),
            old(self).wf() ==> final(self).wf(),
    {
        self.scan_break(BreakKind::Space);
    }

    /// A break that is nothing while it is not broken.
    pub fn zerobreak(&mut self)
        ensures
            final(self)@ == old(self)@.push(Op::Break(BreakKind::Zero)),
            final(self).open() == old(self).open(),
            old(self).wf() ==> final(self).wf(),
    {
        self.scan_break(BreakKind::Zero);
    }

    /// A newline.
    pub fn hardbreak(&mut self)
        ensures
            final(self)@ == old(self)@.push(Op::Break(BreakKind::Hard)),
            final(self).open() == old(self).open(),
            old(self).wf() ==> final(self).wf(),
    {
        self.scan_break(BreakKind::Hard);
    }

    /// A place where the measuring of what stands before ends, and the line
    /// does not.
    pub fn neverbreak(&mut self)
        ensures
            final(self)@ == old(self)@.push(Op::Break(BreakKind::Never)),
            final(self).open() == old(self).open(),
            old(self).wf() ==> final(self).wf(),
    {
        self.scan_break(BreakKind::Never);
    }

    /// A space that is no break.
    pub fn nbsp(&mut self)
        ensures
            final(self)@ == old(self)@.push(Op::Text(" "@)),
            final(self).open() == old(self).open(),
            old(self).wf() ==> final(self).wf(),
    {
        self.word(" ");
    }

    /// Shifts the indentation of the line that the break just appended starts.
    pub fn offset(&mut self, delta: isize)
        ensures
            final(self)@ == old(self)@.push(Op::Offset(delta as int)),
            final(self).open() == old(self).open(),
            old(self).wf() ==> final(self).wf(),
    {
        self.push(Instr::Offset(delta));
    }

    /// Ends an element of a list laid out in a consistent box.
    pub fn trailing_comma(&mut self, is_last: bool)
        ensures
            final(self)@ == old(self)@ + trailing_comma_doc(is_last),
            final(self).open() == old(self).open(),
            old(self).wf() ==> final(self).wf(),
    {
        if is_last {
            self.push(Instr::CommaBreak(BreakKind::Zero));
            assert(self@ =~= old(self)@ + trailing_comma_doc(is_last));
        } else {
            self.word(",");
            self.space();
            assert(self@ =~= old(self)@ + trailing_comma_doc(is_last));
        }
    }

    /// Ends an element of a list that keeps a space before what follows it.
    pub fn trailing_comma_or_space(&mut self, is_last: bool)
        ensures
            final(self)@ == old(self)@ + trailing_comma_or_space_doc(is_last),
            final(self).open() == old(self).open(),
            old(self).wf() ==> final(self).wf(),
    {
        if is_last {
            self.push(Instr::CommaBreak(BreakKind::Space));
            assert(self@ =~= old(self)@ + trailing_comma_or_space_doc(is_last));
        } else {
            self.word(",");
            self.space();
            assert(self@ =~= old(self)@ + trailing_comma_or_space_doc(is_last));
        }
    }

    /// Starts the content of a body, behind its opening brace: starts a new
    /// line, and says where the content begins.
    pub(crate) fn body_begin(&mut self) -> (mark: usize)
        requires
            old(self).wf(),
        ensures
            final(self)@ == old(self)@.push(hardbreak()),
            mark == final(self)@.len(),
            final(self).open() == old(self).open(),
            final(self).wf(),
    {
        self.hardbreak();
        self.doc.len()
    }

    /// Closes a body whose content began at `mark`: takes the new line back
    /// where nothing followed it.
    pub(crate) fn body_end(&mut self, mark: usize, Ghost(head): Ghost<Seq<Op>>, Ghost(inner): Ghost<Seq<Op>>)
        requires
            old(self).wf(),
            old(self).open() > 0,
            old(self)@ == head.push(hardbreak()) + inner,
            mark == head.len() + 1,
        ensures
            final(self)@ == head + body_doc(inner),
            final(self).open() == old(self).open() - 1,
            final(self).wf(),
    {
        reveal(body_doc);
        if self.doc.len() == mark {
            assert(inner.len() == 0);
            proof {
                assert(self@ =~= head.push(hardbreak()));
                assert(ops(self.doc@.drop_last()) =~= self@.drop_last());
                assert(self@.drop_last() =~= head);
            }
            self.doc.pop();
            assert(self@ =~= head);
            self.end();
            self.word("}");
            assert(self@ =~= head + body_doc(inner));
        } else {
            self.offset(-INDENT);
            self.end();
            self.word("}");
            assert(self@ =~= head + body_doc(inner));
        }
    }

    /// The instructions collected so far.
    pub fn instructions(&self) -> (doc: &Vec<Instr>)
        ensures
            ops(doc@) == self@,
    {
        &self.doc
    }

    /// Lays out what was collected under the maximum width `max_width`. A
    /// line of the text that is longer than the width holds something
    /// written outside the fitting regions that passes the width. A stream
    /// that leaves a box open is an error of the caller.
    pub fn eof(self, max_width: u32) -> (text: String)
        requires
            self.wf(),
            self.open() == 0,
        ensures
            text@ == layout(self@, max_width as nat),
            long_lines_are_loose(self@, max_width as nat, text@),
    {
        match render(&self.doc, max_width) {
            Ok(text) => text,
            Err(_) => String::new(),
        }
    }
}

} // verus!
