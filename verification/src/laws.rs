//! What holds of the rules for every tree: laws that relate the streams of
//! declarations to one another and to the layout engine.

use vstd::prelude::*;
use crate::doc::{cbox, end, hardbreak, ibox, offset, text, zerobreak, BoxMode, BreakKind, Op};
use crate::item::{
    elides_type, ends_in_group, foreign_item_ok, impl_item_ok, is_typed_reference, matches_written,
    named_fields_doc,
    receiver_doc, representable, short_receiver_doc, trait_item_ok, use_group_doc, use_items_doc,
    use_tree_doc, variants_doc,
};
use crate::boxes::{
    flat_of, flat_text, flat_text_of, is_hard, laid_flat, lemma_break_in_box, lemma_fits_is_flat_width,
    lemma_flat_box_text, lemma_flat_iff_fits, lemma_flat_width_is_length,
    lemma_flat_of_concat,
    lemma_flat_text_of_part, lemma_walk_flat_region, shown,
};
use crate::doc::{
    balanced, lemma_balanced_concat, lemma_nesting_concat, lemma_open_boxes_push, lemma_plain_balanced,
    open_boxes, well_nested,
};
use crate::layout::{
    breaks, direct, layout, lemma_state_sound, mode_here, shift, spaces, start, state_at, step,
};
use crate::parts::{field_doc, outer_attrs_doc, type_doc, variant_doc};
use crate::printer::{trailing_comma_doc, INDENT};
use crate::tree::{
    FieldView, ForeignItemView, ImplItemView, ItemView, ReceiverView, TraitItemView, TypeView,
    UseTreeView, VariantView,
};

verus! {

/// The type that a receiver in short form stands for: `Self`, or a reference
/// to it.
pub open spec fn short_form_type(by_reference: bool, mutable: bool) -> TypeView {
    if by_reference {
        TypeView::Reference {
            lifetime: None,
            mutable,
            elem: Box::new(TypeView::Path { qself: false, path: "Self"@ }),
        }
    } else {
        TypeView::Path { qself: false, path: "Self"@ }
    }
}

/// A type without the lifetime of its outermost reference.
pub open spec fn without_lifetime(t: TypeView) -> TypeView {
    match t {
        TypeView::Reference { lifetime, mutable, elem } => TypeView::Reference {
            lifetime: None,
            mutable,
            elem,
        },
        _ => t,
    }
}

/// Receiver elision. A receiver is written without its type exactly when its
/// declared type, its lifetime set aside, is the very type that a short form
/// stands for: the short form that it is written in, or, for a receiver
/// written as plain `self`, a reference to `Self`. Then the stream holds the
/// short form and no type; in every other case it holds the form as written,
/// a colon, and the declared type.
pub proof fn lemma_receiver_elision(r: ReceiverView)
    ensures
        matches_written(r) <==> without_lifetime(r.ty) == short_form_type(
            r.reference is Some,
            r.mutability,
        ),
        is_typed_reference(r) <==> r.reference is None && !r.mutability && exists|mutable: bool|
            without_lifetime(r.ty) == short_form_type(true, mutable),
        matches_written(r) ==> receiver_doc(r) == outer_attrs_doc(r.attrs) + short_receiver_doc(
            r.reference,
            r.mutability,
        ),
        !matches_written(r) && is_typed_reference(r) ==> receiver_doc(r) == outer_attrs_doc(r.attrs)
            + short_receiver_doc(Some(r.ty->lifetime), r.ty->mutable),
        !elides_type(r) ==> receiver_doc(r) == outer_attrs_doc(r.attrs) + (short_receiver_doc(
            r.reference,
            r.mutability,
        ) + seq![text(": "@)] + type_doc(r.ty)),
{
    reveal(receiver_doc);
    if is_typed_reference(r) {
        assert(without_lifetime(r.ty) == short_form_type(true, r.ty->mutable));
    }
}

/// Import-group collapse. A group of one child is written as the child
/// alone, on its own and behind a path; an empty group is written as a pair
/// of braces, which no width takes away.
pub proof fn lemma_import_group_collapse(ident: Seq<char>, child: UseTreeView, w: nat)
    ensures
        use_tree_doc(UseTreeView::Group(seq![child])) == use_tree_doc(child),
        use_tree_doc(UseTreeView::Path(ident, Box::new(UseTreeView::Group(seq![child]))))
            == use_tree_doc(UseTreeView::Path(ident, Box::new(child))),
        use_tree_doc(UseTreeView::Group(seq![])) == seq![text("{}"@)],
        layout(use_tree_doc(UseTreeView::Group(seq![])), w) == "{}"@,
{
    reveal_with_fuel(use_tree_doc, 3);
    let items = seq![child];
    assert(use_group_doc(items) == use_tree_doc(items[0]));
    assert(use_tree_doc(UseTreeView::Group(items)) == use_tree_doc(child));
    let none = Seq::<UseTreeView>::empty();
    assert(seq![] =~= none);
    assert(use_group_doc(none) == seq![text("{}"@)]);
    assert(use_tree_doc(UseTreeView::Group(none)) == seq![text("{}"@)]);
    let empty = seq![text("{}"@)];
    assert(state_at(empty, w, 0) == start());
    assert(state_at(empty, w, 1) == step(empty, w, 0, state_at(empty, w, 0)));
    assert(state_at(empty, w, 1).out =~= "{}"@);
}

/// The place in the stream of a list where the element at `k` begins, given
/// the streams of the first `k` elements.
pub open spec fn follows(whole: Seq<Op>, before: Seq<Op>, part: Seq<Op>) -> bool {
    before.len() + part.len() <= whole.len() && whole.subrange(
        before.len() as int,
        (before.len() + part.len()) as int,
    ) == part
}

/// Trailing commas of fields. In a list of named fields every field, the
/// last one too, is followed by a comma and a new line.
pub proof fn lemma_fields_end_in_commas(fields: Seq<FieldView>, n: nat, k: int)
    requires
        0 <= k < n <= fields.len(),
    ensures
        follows(
            named_fields_doc(fields, n),
            named_fields_doc(fields, k as nat),
            field_doc(fields[k]) + seq![text(","@), hardbreak()],
        ),
    decreases n,
{
    let whole = named_fields_doc(fields, n);
    let rest = named_fields_doc(fields, (n - 1) as nat);
    let last = field_doc(fields[n - 1]) + seq![text(","@), hardbreak()];
    assert(whole =~= rest + last);
    if k == n - 1 {
        assert(whole.subrange(rest.len() as int, (rest.len() + last.len()) as int) =~= last);
    } else {
        lemma_fields_end_in_commas(fields, (n - 1) as nat, k);
        let before = named_fields_doc(fields, k as nat);
        let part = field_doc(fields[k]) + seq![text(","@), hardbreak()];
        assert(whole.subrange(before.len() as int, (before.len() + part.len()) as int) =~= rest.subrange(
            before.len() as int,
            (before.len() + part.len()) as int,
        ));
    }
}

/// Trailing commas of variants. In the body of an enum every variant, the
/// last one too, is followed by a comma and a new line.
pub proof fn lemma_variants_end_in_commas(variants: Seq<VariantView>, n: nat, k: int)
    requires
        0 <= k < n <= variants.len(),
    ensures
        follows(
            variants_doc(variants, n),
            variants_doc(variants, k as nat),
            variant_doc(variants[k]) + seq![text(","@), hardbreak()],
        ),
    decreases n,
{
    let whole = variants_doc(variants, n);
    let rest = variants_doc(variants, (n - 1) as nat);
    let last = variant_doc(variants[n - 1]) + seq![text(","@), hardbreak()];
    assert(whole =~= rest + last);
    if k == n - 1 {
        assert(whole.subrange(rest.len() as int, (rest.len() + last.len()) as int) =~= last);
    } else {
        lemma_variants_end_in_commas(variants, (n - 1) as nat, k);
        let before = variants_doc(variants, k as nat);
        let part = variant_doc(variants[k]) + seq![text(","@), hardbreak()];
        assert(whole.subrange(before.len() as int, (before.len() + part.len()) as int) =~= rest.subrange(
            before.len() as int,
            (before.len() + part.len()) as int,
        ));
    }
}

/// Trailing commas of an import group. In a group of two children or more,
/// every child but the last is followed by a comma; behind the last child
/// the inner box closes and a break follows that brings a comma with it
/// where it becomes a newline, and nothing where it does not. The break and
/// the one behind the opening brace are the only ones that stand directly in
/// the box of the group.
pub proof fn lemma_import_group_commas(items: Seq<UseTreeView>, k: int)
    requires
        items.len() >= 2,
        0 <= k < items.len(),
    ensures
        use_group_doc(items) == seq![cbox(INDENT as int), text("{"@), zerobreak(), ibox(0)]
            + use_items_doc(items, items.len()) + seq![end(), Op::CommaBreak(BreakKind::Zero)] + seq![
            offset(-INDENT as int),
            text("}"@),
            end(),
        ],
        k + 1 < items.len() ==> follows(
            use_items_doc(items, items.len()),
            use_items_doc(items, k as nat),
            use_tree_doc(items[k]) + seq![text(","@)],
        ),
        follows(
            use_items_doc(items, items.len()),
            use_items_doc(items, (items.len() - 1) as nat),
            use_tree_doc(items[items.len() - 1]),
        ),
{
    assert(seq![end()] + trailing_comma_doc(true) =~= seq![end(), Op::CommaBreak(BreakKind::Zero)]);
    lemma_use_items_prefix(items, items.len(), items.len() - 1);
    if k + 1 < items.len() {
        lemma_use_items_prefix(items, items.len(), k);
    }
}

proof fn lemma_use_items_prefix(items: Seq<UseTreeView>, n: nat, k: int)
    requires
        0 <= k < n <= items.len(),
    ensures
        follows(
            use_items_doc(items, n),
            use_items_doc(items, k as nat),
            use_tree_doc(items[k]) + (if k + 1 < items.len() {
                seq![text(","@)]
            } else {
                seq![]
            }),
        ),
    decreases n,
{
    let whole = use_items_doc(items, n);
    let rest = use_items_doc(items, (n - 1) as nat);
    let before = use_items_doc(items, k as nat);
    let part = use_tree_doc(items[k]) + (if k + 1 < items.len() {
        seq![text(","@)]
    } else {
        seq![]
    });
    if k == n - 1 {
        assert(whole.subrange(before.len() as int, (before.len() + part.len()) as int) =~= part);
    } else {
        lemma_use_items_prefix(items, (n - 1) as nat, k);
        assert(whole.subrange(before.len() as int, (before.len() + part.len()) as int) =~= rest.subrange(
            before.len() as int,
            (before.len() + part.len()) as int,
        ));
    }
}

/// The comma of a break. A break that brings a comma writes the comma and a
/// newline where it breaks, and writes nothing where it does not. Directly in
/// a broken consistent box it breaks, as every break there does but one that
/// never breaks; inside a box laid out flat it does not, unless it is a hard
/// break.
pub proof fn lemma_comma_break(doc: Seq<Op>, w: nat, i: int, kind: BreakKind)
    requires
        0 <= i < doc.len(),
        doc[i] == Op::CommaBreak(kind),
    ensures
        ({
            let s = state_at(doc, w, i);
            let after = state_at(doc, w, i + 1);
            &&& breaks(doc, w, i, s, kind) ==> after.out == (s.out + spaces(s.pending)).push(',').push('\n')
            &&& !breaks(doc, w, i, s, kind) ==> after.out == s.out
            &&& direct(s) && mode_here(s) == BoxMode::Consistent && kind != BreakKind::Never ==> breaks(
                doc,
                w,
                i,
                s,
                kind,
            )
            &&& !direct(s) && kind != BreakKind::Hard ==> !breaks(doc, w, i, s, kind)
        }),
{
    let s = state_at(doc, w, i);
    assert(state_at(doc, w, i + 1) == step(doc, w, i, s));
    assert(s.out + spaces(s.pending) + seq![','] =~= (s.out + spaces(s.pending)).push(','));
}

/// A comma before a new line. Where a comma stands before a hard break, the
/// text holds the comma and ends the line behind it.
pub proof fn lemma_comma_ends_line(doc: Seq<Op>, w: nat, i: int)
    requires
        0 <= i,
        i + 1 < doc.len(),
        doc[i] == text(","@),
        doc[i + 1] == hardbreak(),
    ensures
        state_at(doc, w, i + 2).out == (state_at(doc, w, i).out + spaces(
            state_at(doc, w, i).pending,
        )).push(',').push('\n'),
{
    let s = state_at(doc, w, i);
    reveal_strlit(",");
    assert(","@ =~= seq![',']);
    assert(state_at(doc, w, i + 1) == step(doc, w, i, s));
    assert(state_at(doc, w, i + 2) == step(doc, w, i + 1, state_at(doc, w, i + 1)));
    assert(s.out + spaces(s.pending) + ","@ =~= (s.out + spaces(s.pending)).push(','));
}

/// The stream of a use tree is balanced.
pub proof fn lemma_use_tree_balanced(t: UseTreeView)
    ensures
        balanced(use_tree_doc(t)),
    decreases t, 0nat,
{
    match t {
        UseTreeView::Path(ident, tree) => {
            lemma_use_tree_balanced(*tree);
            let head = seq![text(ident), text("::"@)];
            lemma_plain_balanced(head);
            lemma_balanced_concat(head, use_tree_doc(*tree));
            assert(use_tree_doc(t) == head + use_tree_doc(*tree));
        },
        UseTreeView::Group(items) => {
            assert(use_tree_doc(t) == use_group_doc(items));
            if items.len() == 0 {
                assert(use_group_doc(items) == seq![text("{}"@)]);
                lemma_plain_balanced(seq![text("{}"@)]);
            } else if items.len() == 1 {
                lemma_use_tree_balanced(items[0]);
                assert(use_group_doc(items) == use_tree_doc(items[0]));
            } else {
                lemma_use_group_balanced(items);
            }
        },
        _ => {
            lemma_plain_balanced(use_tree_doc(t));
        },
    }
}

/// What stands in the box of a group of two children or more, up to the
/// break behind its last child.
pub open spec fn group_inside_doc(items: Seq<UseTreeView>) -> Seq<Op> {
    seq![text("{"@), zerobreak(), ibox(0)] + use_items_doc(items, items.len()) + seq![end()]
}

proof fn lemma_use_items_balanced(items: Seq<UseTreeView>, n: nat)
    requires
        n <= items.len(),
    ensures
        balanced(use_items_doc(items, n)),
    decreases items, n,
{
    if n > 0 {
        lemma_use_items_balanced(items, (n - 1) as nat);
        lemma_use_tree_balanced(items[n - 1]);
        let sep = crate::item::use_separator_doc(items[n - 1], n == items.len());
        lemma_plain_balanced(sep);
        lemma_balanced_concat(use_items_doc(items, (n - 1) as nat), use_tree_doc(items[n - 1]));
        lemma_balanced_concat(use_items_doc(items, (n - 1) as nat) + use_tree_doc(items[n - 1]), sep);
    }
}

proof fn lemma_use_group_inside(items: Seq<UseTreeView>)
    ensures
        balanced(group_inside_doc(items)),
    decreases items, items.len() + 1,
{
    lemma_use_items_balanced(items, items.len());
    let plain = seq![text("{"@), zerobreak()];
    let body = use_items_doc(items, items.len());
    lemma_plain_balanced(plain);
    lemma_open_boxes_push(plain, ibox(0));
    lemma_nesting_concat(plain.push(ibox(0)), body);
    lemma_open_boxes_push(plain.push(ibox(0)) + body, end());
    assert(group_inside_doc(items) =~= (plain.push(ibox(0)) + body).push(end()));
}

proof fn lemma_use_group_balanced(items: Seq<UseTreeView>)
    requires
        items.len() >= 2,
    ensures
        balanced(use_group_doc(items)),
    decreases items, items.len() + 2,
{
    lemma_use_group_inside(items);
    let inside = group_inside_doc(items);
    let none = Seq::<Op>::empty();
    let head = none.push(cbox(INDENT as int));
    let plain = seq![Op::CommaBreak(BreakKind::Zero), offset(-INDENT as int), text("}"@)];
    lemma_open_boxes_push(none, cbox(INDENT as int));
    lemma_nesting_concat(head, inside);
    lemma_plain_balanced(plain);
    lemma_nesting_concat(head + inside, plain);
    lemma_open_boxes_push(head + inside + plain, end());
    assert(use_group_doc(items) =~= (head + inside + plain).push(end()));
}

/// The trailing comma of an import group. In a group of two children or
/// more, wherever it stands in a stream, the break behind the opening brace
/// and the break behind the last child become newlines together, exactly
/// when the group is not laid out flat: a group on one line has no comma
/// behind its last child, and a group on several lines has one.
pub proof fn lemma_import_group_breaks_together(doc: Seq<Op>, w: nat, at: int, items: Seq<UseTreeView>)
    requires
        items.len() >= 2,
        0 <= at,
        at + use_group_doc(items).len() <= doc.len(),
        doc.subrange(at, at + use_group_doc(items).len()) == use_group_doc(items),
    ensures
        ({
            let first = at + 2;
            let last = at + 1 + group_inside_doc(items).len();
            &&& doc[at] == cbox(INDENT as int)
            &&& doc[first] == zerobreak()
            &&& doc[last] == Op::CommaBreak(BreakKind::Zero)
            &&& breaks(doc, w, first, state_at(doc, w, first), BreakKind::Zero) <==> !laid_flat(doc, w, at)
            &&& breaks(doc, w, last, state_at(doc, w, last), BreakKind::Zero) <==> !laid_flat(doc, w, at)
        }),
{
    let g = use_group_doc(items);
    let inside = group_inside_doc(items);
    let head = seq![cbox(INDENT as int)];
    let tail = seq![Op::CommaBreak(BreakKind::Zero), offset(-INDENT as int), text("}"@), end()];
    assert(g =~= head + inside + tail);
    let first = at + 2;
    let last = at + 1 + inside.len();
    assert forall|k: int| 0 <= k < g.len() implies doc[at + k] == g[k] by {
        assert(doc.subrange(at, at + g.len())[k] == doc[at + k]);
    }
    assert(g[0] == cbox(INDENT as int));
    assert(g[2] == zerobreak());
    assert(g[1 + inside.len() as int] == Op::CommaBreak(BreakKind::Zero));
    assert(doc.subrange(at + 1, first) =~= seq![text("{"@)]) by {
        assert(g[1] == text("{"@));
    }
    reveal_with_fuel(open_boxes, 2);
    reveal_with_fuel(well_nested, 2);
    assert(balanced(seq![text("{"@)]));
    lemma_break_in_box(doc, w, at, first, BreakKind::Zero);
    lemma_use_group_inside(items);
    assert(doc.subrange(at + 1, last) =~= inside) by {
        assert forall|k: int| 0 <= k < inside.len() implies doc[at + 1 + k] == inside[k] by {
            assert(g[1 + k] == inside[k]);
        }
    }
    lemma_break_in_box(doc, w, at, last, BreakKind::Zero);
}

/// What the text shows of an element that a comma and a hard break follow:
/// the stream of the element stands in the stream right before the comma,
/// the comma is written behind what the element left on its line, and the
/// line ends behind the comma.
pub open spec fn ends_its_line(doc: Seq<Op>, w: nat, element: Seq<Op>, comma: int) -> bool {
    &&& element.len() <= comma
    &&& comma + 2 <= doc.len()
    &&& doc.subrange(comma - element.len(), comma) == element
    &&& doc[comma] == text(","@)
    &&& doc[comma + 1] == hardbreak()
    &&& state_at(doc, w, comma + 2).out == (state_at(doc, w, comma).out + spaces(
        state_at(doc, w, comma).pending,
    )).push(',').push('\n')
}

proof fn lemma_element_ends_its_line(
    doc: Seq<Op>,
    w: nat,
    at: int,
    list: Seq<Op>,
    before: Seq<Op>,
    element: Seq<Op>,
)
    requires
        0 <= at,
        at + list.len() <= doc.len(),
        doc.subrange(at, at + list.len()) == list,
        follows(list, before, element + seq![text(","@), hardbreak()]),
    ensures
        ends_its_line(doc, w, element, at + before.len() + element.len()),
{
    let part = element + seq![text(","@), hardbreak()];
    let from = before.len() as int;
    let comma = at + from + element.len();
    assert forall|j: int| 0 <= j < part.len() implies doc[at + from + j] == part[j] by {
        assert(list.subrange(from, from + part.len())[j] == list[from + j]);
        assert(doc.subrange(at, at + list.len())[from + j] == doc[at + from + j]);
    }
    assert(part[element.len() as int] == text(","@));
    assert(part[element.len() as int + 1] == hardbreak());
    assert(doc.subrange(comma - element.len(), comma) =~= element) by {
        assert forall|j: int| 0 <= j < element.len() implies doc[at + from + j] == element[j] by {
            assert(part[j] == element[j]);
        }
    }
    lemma_comma_ends_line(doc, w, comma);
}

/// Trailing commas of fields, in the text. Wherever a list of named fields
/// stands in a stream, and whatever the width, every field of it, the last
/// one too, has its comma written behind it and ends its line there; and
/// every field but the first starts the line behind the comma of the field
/// before it.
pub proof fn lemma_fields_end_their_lines(doc: Seq<Op>, w: nat, at: int, fields: Seq<FieldView>, k: int)
    requires
        0 <= at,
        at + named_fields_doc(fields, fields.len()).len() <= doc.len(),
        doc.subrange(at, at + named_fields_doc(fields, fields.len()).len()) == named_fields_doc(
            fields,
            fields.len(),
        ),
        0 <= k < fields.len(),
    ensures
        ends_its_line(
            doc,
            w,
            field_doc(fields[k]),
            at + named_fields_doc(fields, k as nat).len() + field_doc(fields[k]).len(),
        ),
        k >= 1 ==> doc[at + named_fields_doc(fields, k as nat).len() - 1] == hardbreak(),
{
    let list = named_fields_doc(fields, fields.len());
    lemma_fields_end_in_commas(fields, fields.len(), k);
    lemma_element_ends_its_line(doc, w, at, list, named_fields_doc(fields, k as nat), field_doc(fields[k]));
    if k >= 1 {
        lemma_fields_end_in_commas(fields, fields.len(), k - 1);
        lemma_element_ends_its_line(
            doc,
            w,
            at,
            list,
            named_fields_doc(fields, (k - 1) as nat),
            field_doc(fields[k - 1]),
        );
        assert(named_fields_doc(fields, k as nat) =~= named_fields_doc(fields, (k - 1) as nat) + field_doc(
            fields[k - 1],
        ) + seq![text(","@), hardbreak()]);
    }
}

/// Trailing commas of variants, in the text. Wherever the variants of an
/// enum stand in a stream, and whatever the width, every variant, the last
/// one too, has its comma written behind it and ends its line there; and
/// every variant but the first starts the line behind the comma of the
/// variant before it.
pub proof fn lemma_variants_end_their_lines(
    doc: Seq<Op>,
    w: nat,
    at: int,
    variants: Seq<VariantView>,
    k: int,
)
    requires
        0 <= at,
        at + variants_doc(variants, variants.len()).len() <= doc.len(),
        doc.subrange(at, at + variants_doc(variants, variants.len()).len()) == variants_doc(
            variants,
            variants.len(),
        ),
        0 <= k < variants.len(),
    ensures
        ends_its_line(
            doc,
            w,
            variant_doc(variants[k]),
            at + variants_doc(variants, k as nat).len() + variant_doc(variants[k]).len(),
        ),
        k >= 1 ==> doc[at + variants_doc(variants, k as nat).len() - 1] == hardbreak(),
{
    let list = variants_doc(variants, variants.len());
    lemma_variants_end_in_commas(variants, variants.len(), k);
    lemma_element_ends_its_line(doc, w, at, list, variants_doc(variants, k as nat), variant_doc(variants[k]));
    if k >= 1 {
        lemma_variants_end_in_commas(variants, variants.len(), k - 1);
        lemma_element_ends_its_line(
            doc,
            w,
            at,
            list,
            variants_doc(variants, (k - 1) as nat),
            variant_doc(variants[k - 1]),
        );
        assert(variants_doc(variants, k as nat) =~= variants_doc(variants, (k - 1) as nat) + variant_doc(
            variants[k - 1],
        ) + seq![text(","@), hardbreak()]);
    }
}

/// The closing brace of an import group, in the text. In a group of two
/// children or more, wherever it stands in a stream: where the group is not
/// laid out flat, a comma and a newline are written behind the last child,
/// and the closing brace is the first thing on the next line, one level of
/// indentation back from the children; where the group is laid out flat,
/// the closing brace follows the last child on its line, with no comma and
/// no newline between.
pub proof fn lemma_import_group_closes(doc: Seq<Op>, w: nat, at: int, items: Seq<UseTreeView>)
    requires
        items.len() >= 2,
        0 <= at,
        at + use_group_doc(items).len() <= doc.len(),
        doc.subrange(at, at + use_group_doc(items).len()) == use_group_doc(items),
    ensures
        ({
            let last = at + 1 + group_inside_doc(items).len();
            let s = state_at(doc, w, last);
            let closed = state_at(doc, w, last + 3).out;
            &&& !laid_flat(doc, w, at) ==> closed == (s.out + spaces(s.pending)).push(',').push('\n')
                + spaces(shift(s.indent, -INDENT as int)) + "}"@
            &&& laid_flat(doc, w, at) ==> closed == s.out + spaces(s.pending) + "}"@
        }),
{
    lemma_import_group_breaks_together(doc, w, at, items);
    let g = use_group_doc(items);
    let inside = group_inside_doc(items);
    let head = seq![cbox(INDENT as int)];
    let tail = seq![Op::CommaBreak(BreakKind::Zero), offset(-INDENT as int), text("}"@), end()];
    assert(g =~= head + inside + tail);
    let last = at + 1 + inside.len();
    assert forall|k: int| 0 <= k < g.len() implies doc[at + k] == g[k] by {
        assert(doc.subrange(at, at + g.len())[k] == doc[at + k]);
    }
    assert(doc[last + 1] == offset(-INDENT as int)) by {
        assert(g[2 + inside.len() as int] == offset(-INDENT as int));
    }
    assert(doc[last + 2] == text("}"@)) by {
        assert(g[3 + inside.len() as int] == text("}"@));
    }
    let s = state_at(doc, w, last);
    let s1 = state_at(doc, w, last + 1);
    let s2 = state_at(doc, w, last + 2);
    let s3 = state_at(doc, w, last + 3);
    lemma_state_sound(doc, w, last);
    assert(s1 == step(doc, w, last, s));
    assert(s2 == step(doc, w, last + 1, s1));
    assert(s3 == step(doc, w, last + 2, s2));
    if !laid_flat(doc, w, at) {
        assert(s.out + spaces(s.pending) + seq![','] =~= (s.out + spaces(s.pending)).push(','));
    } else {
        assert(s2.pending == s.pending);
    }
}

/// What separates a child of a group from the next one on one line: a comma
/// and a space; behind a child that ends in a group of its own the comma
/// alone, for the line ends there; nothing behind the last child.
pub open spec fn use_separator_text(t: UseTreeView, is_last: bool) -> Seq<char> {
    if is_last {
        seq![]
    } else if ends_in_group(t) {
        ","@
    } else {
        ","@ + spaces(1)
    }
}

/// A use tree as it is written on one line.
pub open spec fn use_tree_text(t: UseTreeView) -> Seq<char>
    decreases t, 0nat,
{
    match t {
        UseTreeView::Path(ident, tree) => ident + "::"@ + use_tree_text(*tree),
        UseTreeView::Name(ident) => ident,
        UseTreeView::Rename(ident, rename) => ident + " as "@ + rename,
        UseTreeView::Glob => "*"@,
        UseTreeView::Group(items) => use_group_text(items),
    }
}

/// The first `n` children of a group as they are written on one line.
pub open spec fn use_items_text(items: Seq<UseTreeView>, n: nat) -> Seq<char>
    decreases items, n,
{
    if n == 0 || n > items.len() {
        seq![]
    } else {
        use_items_text(items, (n - 1) as nat) + use_tree_text(items[n - 1]) + use_separator_text(
            items[n - 1],
            n == items.len(),
        )
    }
}

/// A group as it is written on one line: a pair of braces where it is empty,
/// its child alone where it has one, else its children between braces, with
/// nothing between the brace and the child next to it and no comma behind
/// the last child.
pub open spec fn use_group_text(items: Seq<UseTreeView>) -> Seq<char>
    decreases items, items.len() + 1,
{
    if items.len() == 0 {
        "{}"@
    } else if items.len() == 1 {
        use_tree_text(items[0])
    } else {
        "{"@ + use_items_text(items, items.len()) + "}"@
    }
}

proof fn lemma_flat_of_seq(l: Seq<Op>)
    ensures
        l.len() == 0 ==> flat_of(l) == Seq::<char>::empty(),
        l.len() == 1 ==> flat_of(l) == flat_text_of(l[0]),
        l.len() == 2 ==> flat_of(l) == flat_text_of(l[0]) + flat_text_of(l[1]),
        l.len() == 3 ==> flat_of(l) == flat_text_of(l[0]) + flat_text_of(l[1]) + flat_text_of(l[2]),
        l.len() == 4 ==> flat_of(l) == flat_text_of(l[0]) + flat_text_of(l[1]) + flat_text_of(l[2])
            + flat_text_of(l[3]),
{
    reveal_with_fuel(flat_text, 5);
    if l.len() == 1 {
        assert(flat_of(l) =~= flat_text_of(l[0]));
    }
    if l.len() == 2 {
        assert(flat_of(l) =~= flat_text_of(l[0]) + flat_text_of(l[1]));
    }
    if l.len() == 3 {
        assert(flat_of(l) =~= flat_text_of(l[0]) + flat_text_of(l[1]) + flat_text_of(l[2]));
    }
    if l.len() == 4 {
        assert(flat_of(l) =~= flat_text_of(l[0]) + flat_text_of(l[1]) + flat_text_of(l[2]) + flat_text_of(
            l[3],
        ));
    }
}

/// On one line the stream of a use tree writes the tree as it is written on
/// one line.
pub proof fn lemma_use_tree_flat(t: UseTreeView)
    ensures
        flat_of(use_tree_doc(t)) == use_tree_text(t),
    decreases t, 0nat,
{
    match t {
        UseTreeView::Path(ident, tree) => {
            lemma_use_tree_flat(*tree);
            let head = seq![text(ident), text("::"@)];
            lemma_flat_of_seq(head);
            lemma_flat_of_concat(head, use_tree_doc(*tree));
            assert(use_tree_doc(t) == head + use_tree_doc(*tree));
        },
        UseTreeView::Name(ident) => {
            lemma_flat_of_seq(use_tree_doc(t));
        },
        UseTreeView::Rename(ident, rename) => {
            lemma_flat_of_seq(use_tree_doc(t));
        },
        UseTreeView::Glob => {
            lemma_flat_of_seq(use_tree_doc(t));
        },
        UseTreeView::Group(items) => {
            assert(use_tree_doc(t) == use_group_doc(items));
            lemma_use_group_flat(items);
        },
    }
}

proof fn lemma_use_items_flat(items: Seq<UseTreeView>, n: nat)
    requires
        n <= items.len(),
    ensures
        flat_of(use_items_doc(items, n)) == use_items_text(items, n),
    decreases items, n,
{
    if n == 0 {
        lemma_flat_of_seq(use_items_doc(items, n));
    } else {
        lemma_use_items_flat(items, (n - 1) as nat);
        lemma_use_tree_flat(items[n - 1]);
        let sep = crate::item::use_separator_doc(items[n - 1], n == items.len());
        lemma_flat_of_seq(sep);
        assert(flat_of(sep) =~= use_separator_text(items[n - 1], n == items.len())) by {
            assert(spaces(0) =~= Seq::<char>::empty());
            assert(","@ + Seq::<char>::empty() =~= ","@);
        }
        let before = use_items_doc(items, (n - 1) as nat);
        lemma_flat_of_concat(before, use_tree_doc(items[n - 1]));
        lemma_flat_of_concat(before + use_tree_doc(items[n - 1]), sep);
    }
}

/// What stands in the box of a group, with the break and the brace that
/// close it.
spec fn group_body_doc(items: Seq<UseTreeView>) -> Seq<Op> {
    group_inside_doc(items) + seq![Op::CommaBreak(BreakKind::Zero), offset(-INDENT as int), text("}"@)]
}

proof fn lemma_group_body_flat(items: Seq<UseTreeView>)
    ensures
        flat_of(group_body_doc(items)) == "{"@ + use_items_text(items, items.len()) + "}"@,
        balanced(group_body_doc(items)),
    decreases items, items.len() + 1,
{
    lemma_use_items_flat(items, items.len());
    lemma_use_group_inside(items);
    let open = seq![text("{"@), zerobreak(), ibox(0)];
    let body = use_items_doc(items, items.len());
    let close = seq![end()];
    let tail = seq![Op::CommaBreak(BreakKind::Zero), offset(-INDENT as int), text("}"@)];
    lemma_flat_of_seq(open);
    lemma_flat_of_seq(close);
    lemma_flat_of_seq(tail);
    lemma_flat_of_concat(open, body);
    lemma_flat_of_concat(open + body, close);
    lemma_flat_of_concat(open + body + close, tail);
    lemma_plain_balanced(tail);
    lemma_balanced_concat(group_inside_doc(items), tail);
    assert(spaces(0) =~= Seq::<char>::empty());
    assert(flat_of(open) =~= "{"@);
    assert(flat_of(close) =~= Seq::<char>::empty());
    assert(flat_of(tail) =~= "}"@);
    assert(flat_of(group_body_doc(items)) =~= "{"@ + use_items_text(items, items.len()) + "}"@);
}

proof fn lemma_use_group_flat(items: Seq<UseTreeView>)
    ensures
        flat_of(use_group_doc(items)) == use_group_text(items),
    decreases items, items.len() + 2,
{
    if items.len() == 0 {
        lemma_flat_of_seq(use_group_doc(items));
    } else if items.len() == 1 {
        lemma_use_tree_flat(items[0]);
    } else {
        lemma_group_body_flat(items);
        let head = seq![cbox(INDENT as int)];
        let close = seq![end()];
        lemma_flat_of_seq(head);
        lemma_flat_of_seq(close);
        lemma_flat_of_concat(head, group_body_doc(items));
        lemma_flat_of_concat(head + group_body_doc(items), close);
        assert(use_group_doc(items) =~= head + group_body_doc(items) + close);
        assert(flat_of(use_group_doc(items)) =~= use_group_text(items));
    }
}

/// An import group on one line, in the text. In a group of two children or
/// more that is laid out flat, wherever it stands in a stream, the text
/// grows by the group as it is written on one line: the opening brace, the
/// children with a comma and a space between them, and the closing brace,
/// with no comma behind the last child.
pub proof fn lemma_import_group_flat_text(doc: Seq<Op>, w: nat, at: int, items: Seq<UseTreeView>)
    requires
        items.len() >= 2,
        0 <= at,
        at + use_group_doc(items).len() <= doc.len(),
        doc.subrange(at, at + use_group_doc(items).len()) == use_group_doc(items),
        laid_flat(doc, w, at),
    ensures
        shown(state_at(doc, w, at + use_group_doc(items).len())) == shown(state_at(doc, w, at))
            + use_group_text(items),
{
    let g = use_group_doc(items);
    let body = group_body_doc(items);
    let head = seq![cbox(INDENT as int)];
    let close = seq![end()];
    assert(g =~= head + body + close);
    lemma_group_body_flat(items);
    let j = at + 1 + body.len();
    assert forall|k: int| 0 <= k < g.len() implies doc[at + k] == g[k] by {
        assert(doc.subrange(at, at + g.len())[k] == doc[at + k]);
    }
    assert(doc[at] == g[0]);
    assert(doc.subrange(at + 1, j) =~= body) by {
        assert forall|k: int| 0 <= k < body.len() implies doc[at + 1 + k] == body[k] by {
            assert(g[1 + k] == body[k]);
        }
    }
    lemma_flat_box_text(doc, w, at, j);
    lemma_flat_text_of_part(doc, at + 1, body);
    assert(doc[j] == end()) by {
        assert(g[1 + body.len() as int] == end());
    }
    lemma_walk_flat_region(doc, w, at, j);
    assert(state_at(doc, w, j + 1) == step(doc, w, j, state_at(doc, w, j)));
}

proof fn lemma_use_items_separator(items: Seq<UseTreeView>, n: nat, k: int)
    requires
        0 <= k < n <= items.len(),
    ensures
        follows(
            use_items_doc(items, n),
            use_items_doc(items, k as nat),
            use_tree_doc(items[k]) + crate::item::use_separator_doc(items[k], k + 1 == items.len()),
        ),
    decreases n,
{
    let whole = use_items_doc(items, n);
    let rest = use_items_doc(items, (n - 1) as nat);
    let before = use_items_doc(items, k as nat);
    let part = use_tree_doc(items[k]) + crate::item::use_separator_doc(items[k], k + 1 == items.len());
    if k == n - 1 {
        assert(whole =~= before + part);
        assert(whole.subrange(before.len() as int, (before.len() + part.len()) as int) =~= part);
    } else {
        lemma_use_items_separator(items, (n - 1) as nat, k);
        assert(whole.subrange(before.len() as int, (before.len() + part.len()) as int) =~= rest.subrange(
            before.len() as int,
            (before.len() + part.len()) as int,
        ));
    }
}

/// A nested group forces the lines. A group in which a child that is not the
/// last ends in a group of its own is never laid out flat, wherever it
/// stands in a stream and however wide the line is: a newline follows its
/// opening brace, and a comma and a newline follow its last child.
pub proof fn lemma_nested_group_breaks(doc: Seq<Op>, w: nat, at: int, items: Seq<UseTreeView>, k: int)
    requires
        0 <= at,
        at + use_group_doc(items).len() <= doc.len(),
        doc.subrange(at, at + use_group_doc(items).len()) == use_group_doc(items),
        0 <= k,
        k + 1 < items.len(),
        ends_in_group(items[k]),
    ensures
        !laid_flat(doc, w, at),
        breaks(doc, w, at + 2, state_at(doc, w, at + 2), BreakKind::Zero),
        breaks(
            doc,
            w,
            at + 1 + group_inside_doc(items).len(),
            state_at(doc, w, at + 1 + group_inside_doc(items).len()),
            BreakKind::Zero,
        ),
{
    let g = use_group_doc(items);
    let body = group_body_doc(items);
    let list = use_items_doc(items, items.len());
    let head = seq![cbox(INDENT as int)];
    let open = seq![text("{"@), zerobreak(), ibox(0)];
    let tail = seq![end(), Op::CommaBreak(BreakKind::Zero), offset(-INDENT as int), text("}"@), end()];
    assert(g =~= head + open + list + tail);
    lemma_group_body_flat(items);
    let close = at + 1 + body.len();
    assert forall|j: int| 0 <= j < g.len() implies doc[at + j] == g[j] by {
        assert(doc.subrange(at, at + g.len())[j] == doc[at + j]);
    }
    assert(doc.subrange(at + 1, close) =~= body) by {
        assert forall|j: int| 0 <= j < body.len() implies doc[at + 1 + j] == body[j] by {
            assert(g[1 + j] == body[j]);
        }
    }
    assert(doc[close] == end()) by {
        assert(g[1 + body.len() as int] == end());
    }
    assert(doc[at] == g[0]);
    lemma_use_items_separator(items, items.len(), k);
    let before = use_items_doc(items, k as nat);
    let part = use_tree_doc(items[k]) + crate::item::use_separator_doc(items[k], false);
    let hard = at + 4 + before.len() + use_tree_doc(items[k]).len() + 1;
    assert(doc[hard] == hardbreak()) by {
        let j = use_tree_doc(items[k]).len() as int + 1;
        assert(part[j] == hardbreak());
        assert(list.subrange(before.len() as int, (before.len() + part.len()) as int)[j] == list[
            before.len() + j
        ]);
        assert(g[4 + before.len() + j] == list[before.len() + j]);
    }
    lemma_state_sound(doc, w, at);
    lemma_flat_iff_fits(doc, w, at);
    let s = state_at(doc, w, at);
    if s.col <= w {
        lemma_fits_is_flat_width(doc, at + 1, close, w - s.col, false);
        assert(is_hard(doc[hard]));
    }
    lemma_import_group_breaks_together(doc, w, at, items);
}

/// No hard break stands in the stream.
pub open spec fn no_hard_in(l: Seq<Op>) -> bool {
    forall|k: int| 0 <= k < l.len() ==> !is_hard(#[trigger] l[k])
}

proof fn lemma_no_hard_concat(a: Seq<Op>, b: Seq<Op>)
    requires
        no_hard_in(a),
        no_hard_in(b),
    ensures
        no_hard_in(a + b),
{
    assert forall|k: int| 0 <= k < (a + b).len() implies !is_hard(#[trigger] (a + b)[k]) by {
        if k < a.len() {
            assert(!is_hard(a[k]));
        } else {
            assert(!is_hard(b[k - a.len()]));
        }
    }
}

/// No child of the group ends in a group of its own: each is a name, a
/// renaming or `*`, behind path segments or without.
pub open spec fn children_are_plain(items: Seq<UseTreeView>) -> bool {
    forall|k: int| 0 <= k < items.len() ==> !ends_in_group(#[trigger] items[k])
}

proof fn lemma_plain_tree_no_hard(t: UseTreeView)
    requires
        !ends_in_group(t),
    ensures
        no_hard_in(use_tree_doc(t)),
    decreases t,
{
    match t {
        UseTreeView::Path(ident, tree) => {
            lemma_plain_tree_no_hard(*tree);
            let head = seq![text(ident), text("::"@)];
            assert(no_hard_in(head));
            lemma_no_hard_concat(head, use_tree_doc(*tree));
            assert(use_tree_doc(t) == head + use_tree_doc(*tree));
        },
        _ => {},
    }
}

proof fn lemma_plain_items_no_hard(items: Seq<UseTreeView>, n: nat)
    requires
        n <= items.len(),
        children_are_plain(items),
    ensures
        no_hard_in(use_items_doc(items, n)),
    decreases n,
{
    if n > 0 {
        lemma_plain_items_no_hard(items, (n - 1) as nat);
        assert(!ends_in_group(items[n - 1]));
        lemma_plain_tree_no_hard(items[n - 1]);
        let sep = crate::item::use_separator_doc(items[n - 1], n == items.len());
        assert(no_hard_in(sep));
        lemma_no_hard_concat(use_items_doc(items, (n - 1) as nat), use_tree_doc(items[n - 1]));
        lemma_no_hard_concat(use_items_doc(items, (n - 1) as nat) + use_tree_doc(items[n - 1]), sep);
    }
}

/// An import group of plain children that fits, in the text. A group of two
/// children or more, none of which ends in a group of its own, is laid out
/// flat wherever the group as it is written on one line fits in what is left
/// of the line; the text then grows by exactly that: the opening brace, the
/// children with a comma and a space between them, and the closing brace.
pub proof fn lemma_import_group_on_one_line(doc: Seq<Op>, w: nat, at: int, items: Seq<UseTreeView>)
    requires
        items.len() >= 2,
        children_are_plain(items),
        0 <= at,
        at + use_group_doc(items).len() <= doc.len(),
        doc.subrange(at, at + use_group_doc(items).len()) == use_group_doc(items),
        state_at(doc, w, at).col + use_group_text(items).len() <= w,
    ensures
        laid_flat(doc, w, at),
        shown(state_at(doc, w, at + use_group_doc(items).len())) == shown(state_at(doc, w, at))
            + use_group_text(items),
{
    let g = use_group_doc(items);
    let body = group_body_doc(items);
    let head = seq![cbox(INDENT as int)];
    let close_seq = seq![end()];
    assert(g =~= head + body + close_seq);
    lemma_group_body_flat(items);
    let close = at + 1 + body.len();
    assert forall|j: int| 0 <= j < g.len() implies doc[at + j] == g[j] by {
        assert(doc.subrange(at, at + g.len())[j] == doc[at + j]);
    }
    assert(doc.subrange(at + 1, close) =~= body) by {
        assert forall|j: int| 0 <= j < body.len() implies doc[at + 1 + j] == body[j] by {
            assert(g[1 + j] == body[j]);
        }
    }
    assert(doc[close] == end()) by {
        assert(g[1 + body.len() as int] == end());
    }
    assert(doc[at] == g[0]);
    lemma_plain_items_no_hard(items, items.len());
    let open = seq![text("{"@), zerobreak(), ibox(0)];
    let tail = seq![end(), Op::CommaBreak(BreakKind::Zero), offset(-INDENT as int), text("}"@)];
    assert(no_hard_in(open));
    assert(no_hard_in(tail));
    lemma_no_hard_concat(open, use_items_doc(items, items.len()));
    lemma_no_hard_concat(open + use_items_doc(items, items.len()), tail);
    assert(body =~= open + use_items_doc(items, items.len()) + tail);
    assert forall|j: int| at + 1 <= j < close implies !is_hard(#[trigger] doc[j]) by {
        assert(!is_hard(body[j - at - 1]));
    }
    lemma_flat_text_of_part(doc, at + 1, body);
    lemma_flat_width_is_length(doc, at + 1, close);
    let s = state_at(doc, w, at);
    lemma_fits_is_flat_width(doc, at + 1, close, w - s.col, false);
    lemma_import_group_flat_text(doc, w, at, items);
}

/// Text in a fitting region. Whatever is written inside a box laid out flat,
/// or behind a break left unbroken up to the next break of its box, ends
/// within the width.
pub proof fn lemma_region_within_width(doc: Seq<Op>, w: nat, i: int)
    requires
        0 <= i < doc.len(),
        state_at(doc, w, i).region is Some,
        doc[i] is Text,
    ensures
        state_at(doc, w, i + 1).col <= w,
{
    lemma_state_sound(doc, w, i);
    assert(state_at(doc, w, i + 1) == step(doc, w, i, state_at(doc, w, i)));
}

/// Unknown nodes. A node of a kind unknown to the tree has no rendering,
/// wherever it stands.
pub proof fn lemma_unknown_is_unrepresentable()
    ensures
        !representable(ItemView::Unknown),
        !foreign_item_ok(ForeignItemView::Unknown),
        !trait_item_ok(TraitItemView::Unknown),
        !impl_item_ok(ImplItemView::Unknown),
{
}

} // verus!
