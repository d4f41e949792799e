//! The emission rules for declarations: what stream of layout instructions
//! each kind of declaration, and each kind of member, is written as.

use vstd::prelude::*;
use crate::doc::{cbox, end, hardbreak, ibox, neverbreak, offset, space, text, zerobreak, Op};
use crate::error::Error;
use crate::fallback::{
    foreign_span_doc, foreign_span_ok, foreign_span_printable, item_span_doc, item_span_ok,
    item_span_printable,
};
use crate::layout::{layout, long_lines_are_loose};
use crate::parts::{
    abi_doc, field_doc, fields_unnamed_doc, generics_doc, inner_attrs_doc, mac_doc, mac_semi_doc,
    outer_attrs_doc, pat_type_doc, reference_doc, return_type_doc, type_doc, variant_doc,
    visibility_doc, where_for_body_doc, where_oneline_doc, where_oneline_semi_doc, where_semi_doc,
};
use crate::token::{span_text, span_tokens, text_is, tokens_of, tokens_text, TokenView};
use proc_macro2::TokenStream;
use crate::printer::{body_doc, trailing_comma_doc, Printer, INDENT};
use crate::tree::{
    impl_items_view, items_view, lemma_impl_items_view, lemma_items_view, lemma_stmts_view,
    lemma_trait_items_view, lemma_views_at, stmts_view, text_option, trait_items_view, view_option,
    views,
    Attribute, AttributeView, Field, FieldView, Fields, FieldsView, FnArg, FnArgView, ForeignItem,
    ForeignItemFn, ForeignItemFnView, ForeignItemStatic, ForeignItemStaticView, ForeignItemType,
    ForeignItemTypeView, ForeignItemView, Generics, GenericsView, ImplItem, ImplItemConst,
    ImplItemConstView, ImplItemFn, ImplItemFnView, ImplItemType, ImplItemTypeView, ImplItemView,
    ImplTrait, ImplTraitView, Item, ItemConst, ItemConstView, ItemEnum, ItemEnumView,
    ItemExternCrate, ItemExternCrateView, ItemFn, ItemFnView, ItemForeignMod, ItemForeignModView,
    ItemImpl, ItemImplView, ItemMacro, ItemMacroView, ItemMod, ItemModView, ItemStatic,
    ItemStaticView, ItemStruct, ItemStructView, ItemTrait, ItemTraitAlias, ItemTraitAliasView,
    ItemTraitView, ItemType, ItemTypeView, ItemUnion, ItemUnionView, ItemUse, ItemUseView, ItemView,
    MemberMacro, MemberMacroView, Receiver, ReceiverView, Signature, SignatureView, Stmt, StmtView,
    TraitItem, TraitItemConst, TraitItemConstView, TraitItemFn, TraitItemFnView, TraitItemType,
    TraitItemTypeView, TraitItemView, Type, TypeView, UseTree, UseTreeView, Variadic, VariadicView,
    Variant, VariantView, Visibility, VisibilityView,
};

verus! {

/// A keyword that is written where its flag is set.
#[verifier::opaque]
pub open spec fn flag_doc(flag: bool, word: Seq<char>) -> Seq<Op> {
    if flag {
        seq![text(word)]
    } else {
        seq![]
    }
}

/// How most declarations begin: the outer attributes, a consistent box, the
/// visibility.
#[verifier::opaque]
pub open spec fn head_doc(attrs: Seq<AttributeView>, indent: int, vis: VisibilityView) -> Seq<Op> {
    outer_attrs_doc(attrs) + seq![cbox(indent)] + visibility_doc(vis)
}

/// The type is `Self`, the enclosing type under its own name.
pub open spec fn is_self_type(t: TypeView) -> bool {
    t matches TypeView::Path { qself, path } && !qself && path == "Self"@
}

/// The type is a reference to `Self`, mutable or not as asked.
pub open spec fn is_reference_to_self(t: TypeView, mutable: bool) -> bool {
    t matches TypeView::Reference { mutable: m, elem, .. } && m == mutable && is_self_type(*elem)
}

/// The declared type of the receiver is the one that its written form stands
/// for: `&Self` or `&mut Self` behind `&self` or `&mut self`, `Self` behind
/// `self`.
pub open spec fn matches_written(r: ReceiverView) -> bool {
    if r.reference is Some {
        is_reference_to_self(r.ty, r.mutability)
    } else {
        is_self_type(r.ty)
    }
}

/// The receiver is written as plain `self` and declared as a reference to
/// `Self`: the form `self: &Self`, which `&self` stands for.
pub open spec fn is_typed_reference(r: ReceiverView) -> bool {
    r.reference is None && !r.mutability && r.ty is Reference && is_self_type(*r.ty->elem)
}

/// Whether the receiver is written without its type.
pub open spec fn elides_type(r: ReceiverView) -> bool {
    matches_written(r) || is_typed_reference(r)
}

/// The short form of a receiver: `self`, behind `&`, a lifetime and `mut`
/// where they apply.
pub open spec fn short_receiver_doc(reference: Option<Option<Seq<char>>>, mutability: bool) -> Seq<Op> {
    (match reference {
        Some(lifetime) => seq![text("&"@)] + reference_doc(lifetime, mutability),
        None => flag_doc(mutability, "mut "@),
    }) + seq![text("self"@)]
}

/// A receiver whose declared type is the one its short form stands for is
/// written in the short form; any other keeps its type behind a colon.
#[verifier::opaque]
pub open spec fn receiver_doc(r: ReceiverView) -> Seq<Op> {
    outer_attrs_doc(r.attrs) + (if matches_written(r) {
        short_receiver_doc(r.reference, r.mutability)
    } else if is_typed_reference(r) {
        short_receiver_doc(Some(r.ty->lifetime), r.ty->mutable)
    } else {
        short_receiver_doc(r.reference, r.mutability) + seq![text(": "@)] + type_doc(r.ty)
    })
}

/// A parameter: a receiver or a pattern with its type.
pub open spec fn fn_arg_doc(a: FnArgView) -> Seq<Op> {
    match a {
        FnArgView::Receiver(r) => receiver_doc(r),
        FnArgView::Typed(p) => pat_type_doc(p),
    }
}

/// A variadic: its attributes, its pattern with a colon where it has one, and
/// `...`.
#[verifier::opaque]
pub open spec fn variadic_doc(v: VariadicView) -> Seq<Op> {
    outer_attrs_doc(v.attrs) + (match v.pat {
        Some(pat) => seq![text(pat), text(": "@)],
        None => seq![],
    }) + seq![text("..."@)]
}

/// What stands before `fn`.
#[verifier::opaque]
pub open spec fn qualifiers_doc(s: SignatureView) -> Seq<Op> {
    flag_doc(s.constness, "const "@) + flag_doc(s.asyncness, "async "@) + flag_doc(
        s.unsafety,
        "unsafe "@,
    ) + (match s.abi {
        Some(abi) => abi_doc(abi),
        None => seq![],
    })
}

/// The first `n` parameters, each ended as an element of its list; the last
/// one is the last element only where no variadic follows it.
pub open spec fn inputs_doc(inputs: Seq<FnArgView>, n: nat, variadic: bool) -> Seq<Op>
    decreases n,
{
    if n == 0 || n > inputs.len() {
        seq![]
    } else {
        inputs_doc(inputs, (n - 1) as nat, variadic) + fn_arg_doc(inputs[n - 1]) + trailing_comma_doc(
            n == inputs.len() && !variadic,
        )
    }
}

/// The parameters between their parentheses: a consistent box, one parameter
/// to a line once they do not fit on one.
#[verifier::opaque]
pub open spec fn parameters_doc(s: SignatureView) -> Seq<Op> {
    seq![text("("@), neverbreak(), cbox(0), zerobreak()] + inputs_doc(
        s.inputs,
        s.inputs.len(),
        s.variadic is Some,
    ) + (match s.variadic {
        Some(v) => variadic_doc(v) + seq![zerobreak()],
        None => seq![],
    }) + seq![offset(-INDENT as int), end(), text(")"@)]
}

/// A signature: what stands before `fn`, the name with its generic parameters,
/// the parameters, and the return type in a box of its own.
#[verifier::opaque]
pub open spec fn signature_doc(s: SignatureView) -> Seq<Op> {
    qualifiers_doc(s) + seq![text("fn "@), text(s.ident)] + generics_doc(s.generics) + parameters_doc(s)
        + seq![cbox(-INDENT as int)] + return_type_doc(s.output) + seq![end()]
}

/// Whether a use tree, followed through its path segments, ends in a group.
pub open spec fn ends_in_group(t: UseTreeView) -> bool
    decreases t,
{
    match t {
        UseTreeView::Path(_, tree) => ends_in_group(*tree),
        UseTreeView::Group(_) => true,
        _ => false,
    }
}

/// A use tree: path segments joined by `::`, a name, a renaming, `*`, or a
/// group.
pub open spec fn use_tree_doc(t: UseTreeView) -> Seq<Op>
    decreases t, 0nat,
{
    match t {
        UseTreeView::Path(ident, tree) => seq![text(ident), text("::"@)] + use_tree_doc(*tree),
        UseTreeView::Name(ident) => seq![text(ident)],
        UseTreeView::Rename(ident, rename) => seq![text(ident), text(" as "@), text(rename)],
        UseTreeView::Glob => seq![text("*"@)],
        UseTreeView::Group(items) => use_group_doc(items),
    }
}

/// What separates a child of a group from the next one: a comma and a new
/// line behind a child that ends in a group of its own, a comma and a space
/// that may break behind any other. Nothing stands behind the last child.
pub open spec fn use_separator_doc(t: UseTreeView, is_last: bool) -> Seq<Op> {
    if is_last {
        seq![]
    } else if ends_in_group(t) {
        seq![text(","@), hardbreak()]
    } else {
        seq![text(","@), space()]
    }
}

/// The first `n` children of a group.
pub open spec fn use_items_doc(items: Seq<UseTreeView>, n: nat) -> Seq<Op>
    decreases items, n,
{
    if n == 0 || n > items.len() {
        seq![]
    } else {
        use_items_doc(items, (n - 1) as nat) + use_tree_doc(items[n - 1]) + use_separator_doc(
            items[n - 1],
            n == items.len(),
        )
    }
}

/// A group of use trees. An empty group is a pair of braces; a group of one
/// child is that child, without braces; a larger group fills its lines
/// between braces, with a comma behind the last child where the group
/// breaks.
pub open spec fn use_group_doc(items: Seq<UseTreeView>) -> Seq<Op>
    decreases items, items.len() + 1,
{
    if items.len() == 0 {
        seq![text("{}"@)]
    } else if items.len() == 1 {
        use_tree_doc(items[0])
    } else {
        seq![cbox(INDENT as int), text("{"@), zerobreak(), ibox(0)] + use_items_doc(items, items.len())
            + seq![end()] + trailing_comma_doc(true) + seq![offset(-INDENT as int), text("}"@), end()]
    }
}

/// Tells whether a type is `Self`.
pub fn type_is_self(t: &Type) -> (r: bool)
    ensures
        r == is_self_type(t@),
{
    match t {
        Type::Path { qself, path } => !*qself && text_is(path, "Self"),
        _ => false,
    }
}

/// Tells whether a receiver is written without its type: the test that
/// decides between the short form and the annotated one.
pub fn receiver_elides_type(r: &Receiver) -> (elides: bool)
    ensures
        elides == elides_type(r@),
{
    let written: bool = match &r.reference {
        Some(_) => match &r.ty {
            Type::Reference { lifetime, mutable, elem } => *mutable == r.mutability && type_is_self(elem),
            _ => false,
        },
        None => type_is_self(&r.ty),
    };
    let typed: bool = r.reference.is_none() && !r.mutability && match &r.ty {
        Type::Reference { lifetime, mutable, elem } => type_is_self(elem),
        _ => false,
    };
    written || typed
}

impl Printer {
    /// Writes a keyword where its flag is set.
    pub(crate) fn word_if(&mut self, flag: bool, word: &str)
        requires
            old(self).wf(),
        ensures
            final(self)@ == old(self)@ + flag_doc(flag, word@),
            final(self).open() == old(self).open(),
            final(self).wf(),
    {
        reveal(flag_doc);
        if flag {
            self.word(word);
        }
        assert(self@ =~= old(self)@ + flag_doc(flag, word@));
    }

    /// Writes how a declaration begins.
    pub(crate) fn head(&mut self, attrs: &Vec<Attribute>, indent: isize, vis: &Visibility)
        requires
            old(self).wf(),
        ensures
            final(self)@ == old(self)@ + head_doc(views(attrs@), indent as int, vis@),
            final(self).open() == old(self).open() + 1,
            final(self).wf(),
    {
        reveal(head_doc);
        self.outer_attrs(attrs);
        self.cbox(indent);
        self.visibility(vis);
        assert(self@ =~= old(self)@ + head_doc(views(attrs@), indent as int, vis@));
    }

    fn short_receiver(&mut self, reference: &Option<Option<String>>, mutability: bool)
        requires
            old(self).wf(),
        ensures
            final(self)@ == old(self)@ + short_receiver_doc(
                match *reference {
                    Some(lifetime) => Some(crate::tree::text_option(lifetime)),
                    None => None,
                },
                mutability,
            ),
            final(self).open() == old(self).open(),
            final(self).wf(),
    {
        reveal(flag_doc);
        match reference {
            Some(lifetime) => {
                self.word("&");
                match lifetime {
                    Some(l) => {
                        self.ident(l);
                        self.nbsp();
                    },
                    None => {},
                }
                self.word_if(mutability, "mut ");
                assert(self@ =~= old(self)@ + (seq![text("&"@)] + reference_doc(
                    crate::tree::text_option(*lifetime),
                    mutability,
                )));
            },
            None => {
                self.word_if(mutability, "mut ");
            },
        }
        self.word("self");
        assert(self@ =~= old(self)@ + short_receiver_doc(
            match *reference {
                Some(lifetime) => Some(crate::tree::text_option(lifetime)),
                None => None,
            },
            mutability,
        ));
    }

    /// Writes a receiver, in short form where its declared type allows it.
    pub fn receiver(&mut self, receiver: &Receiver)
        requires
            old(self).wf(),
        ensures
            final(self)@ == old(self)@ + receiver_doc(receiver@),
            final(self).open() == old(self).open(),
            final(self).wf(),
    {
        reveal(receiver_doc);
        self.outer_attrs(&receiver.attrs);
        let ghost before = self@;
        let ghost r = receiver@;
        if !receiver_elides_type(receiver) {
            self.short_receiver(&receiver.reference, receiver.mutability);
            self.word(": ");
            self.ty(&receiver.ty);
            assert(self@ =~= before + (short_receiver_doc(r.reference, r.mutability) + seq![text(": "@)]
                + type_doc(r.ty)));
        } else {
            let written: bool = match &receiver.reference {
                Some(_) => true,
                None => type_is_self(&receiver.ty),
            };
            if written {
                self.short_receiver(&receiver.reference, receiver.mutability);
            } else {
                match &receiver.ty {
                    Type::Reference { lifetime, mutable, elem } => {
                        let by_reference: Option<Option<String>> = Some(lifetime.clone());
                        self.short_receiver(&by_reference, *mutable);
                    },
                    _ => {},
                }
            }
        }
        assert(self@ =~= old(self)@ + receiver_doc(r));
    }

    /// Writes a parameter.
    pub fn fn_arg(&mut self, fn_arg: &FnArg)
        requires
            old(self).wf(),
        ensures
            final(self)@ == old(self)@ + fn_arg_doc(fn_arg@),
            final(self).open() == old(self).open(),
            final(self).wf(),
    {
        match fn_arg {
            FnArg::Receiver(receiver) => self.receiver(receiver),
            FnArg::Typed(pat_type) => self.pat_type(pat_type),
        }
    }

    /// Writes a variadic.
    pub fn variadic(&mut self, variadic: &Variadic)
        requires
            old(self).wf(),
        ensures
            final(self)@ == old(self)@ + variadic_doc(variadic@),
            final(self).open() == old(self).open(),
            final(self).wf(),
    {
        reveal(variadic_doc);
        self.outer_attrs(&variadic.attrs);
        match &variadic.pat {
            Some(pat) => {
                self.ident(pat);
                self.word(": ");
            },
            None => {},
        }
        self.word("...");
        assert(self@ =~= old(self)@ + variadic_doc(variadic@));
    }

    fn qualifiers(&mut self, signature: &Signature)
        requires
            old(self).wf(),
        ensures
            final(self)@ == old(self)@ + qualifiers_doc(signature@),
            final(self).open() == old(self).open(),
            final(self).wf(),
    {
        reveal(qualifiers_doc);
        self.word_if(signature.constness, "const ");
        self.word_if(signature.asyncness, "async ");
        self.word_if(signature.unsafety, "unsafe ");
        match &signature.abi {
            Some(abi) => {
                self.abi(abi);
            },
            None => {},
        }
        assert(self@ =~= old(self)@ + qualifiers_doc(signature@));
    }

    fn parameters(&mut self, signature: &Signature)
        requires
            old(self).wf(),
        ensures
            final(self)@ == old(self)@ + parameters_doc(signature@),
            final(self).open() == old(self).open(),
            final(self).wf(),
    {
        reveal(parameters_doc);
        let ghost v = views(signature.inputs@);
        let has_variadic: bool = signature.variadic.is_some();
        self.word("(");
        self.neverbreak();
        self.cbox(0);
        self.zerobreak();
        let ghost head = self@;
        let mut i: usize = 0;
        assert(self@ =~= head + inputs_doc(v, 0, has_variadic));
        while i < signature.inputs.len()
            invariant
                i <= signature.inputs.len(),
                v == views(signature.inputs@),
                self@ == head + inputs_doc(v, i as nat, has_variadic),
                self.open() == old(self).open() + 1,
                self.wf(),
            decreases signature.inputs.len() - i,
        {
            self.fn_arg(&signature.inputs[i]);
            self.trailing_comma(i + 1 == signature.inputs.len() && !has_variadic);
            assert(self@ =~= head + inputs_doc(v, (i + 1) as nat, has_variadic));
            i = i + 1;
        }
        let ghost mid = self@;
        match &signature.variadic {
            Some(variadic) => {
                self.variadic(variadic);
                self.zerobreak();
            },
            None => {},
        }
        assert(self@ =~= mid + (match signature@.variadic {
            Some(v) => variadic_doc(v) + seq![zerobreak()],
            None => seq![],
        }));
        self.offset(-INDENT);
        self.end();
        self.word(")");
        assert(self@ =~= old(self)@ + parameters_doc(signature@));
    }

    /// Writes a signature.
    pub fn signature(&mut self, signature: &Signature)
        requires
            old(self).wf(),
        ensures
            final(self)@ == old(self)@ + signature_doc(signature@),
            final(self).open() == old(self).open(),
            final(self).wf(),
    {
        reveal(signature_doc);
        self.qualifiers(signature);
        self.word("fn ");
        self.ident(&signature.ident);
        self.generics(&signature.generics);
        self.parameters(signature);
        self.cbox(-INDENT);
        self.return_type(&signature.output);
        self.end();
        assert(self@ =~= old(self)@ + signature_doc(signature@));
    }

    /// Writes a use tree.
    pub fn use_tree(&mut self, use_tree: &UseTree)
        requires
            old(self).wf(),
        ensures
            final(self)@ == old(self)@ + use_tree_doc(use_tree@),
            final(self).open() == old(self).open(),
            final(self).wf(),
        decreases use_tree, 0nat,
    {
        match use_tree {
            UseTree::Path(ident, tree) => self.use_path(ident, tree),
            UseTree::Name(ident) => self.use_name(ident),
            UseTree::Rename(ident, rename) => self.use_rename(ident, rename),
            UseTree::Glob => self.use_glob(),
            UseTree::Group(items) => self.use_group(items),
        }
    }

    fn use_path(&mut self, ident: &String, tree: &UseTree)
        requires
            old(self).wf(),
        ensures
            final(self)@ == old(self)@ + seq![text(ident@), text("::"@)] + use_tree_doc(tree@),
            final(self).open() == old(self).open(),
            final(self).wf(),
        decreases tree, 1nat,
    {
        self.ident(ident);
        self.word("::");
        assert(self@ =~= old(self)@ + seq![text(ident@), text("::"@)]);
        self.use_tree(tree);
    }

    fn use_name(&mut self, ident: &String)
        requires
            old(self).wf(),
        ensures
            final(self)@ == old(self)@ + seq![text(ident@)],
            final(self).open() == old(self).open(),
            final(self).wf(),
    {
        self.ident(ident);
        assert(self@ =~= old(self)@ + seq![text(ident@)]);
    }

    fn use_rename(&mut self, ident: &String, rename: &String)
        requires
            old(self).wf(),
        ensures
            final(self)@ == old(self)@ + seq![text(ident@), text(" as "@), text(rename@)],
            final(self).open() == old(self).open(),
            final(self).wf(),
    {
        self.ident(ident);
        self.word(" as ");
        self.ident(rename);
        assert(self@ =~= old(self)@ + seq![text(ident@), text(" as "@), text(rename@)]);
    }

    fn use_glob(&mut self)
        requires
            old(self).wf(),
        ensures
            final(self)@ == old(self)@ + seq![text("*"@)],
            final(self).open() == old(self).open(),
            final(self).wf(),
    {
        self.word("*");
        assert(self@ =~= old(self)@ + seq![text("*"@)]);
    }

    fn use_group(&mut self, items: &Vec<UseTree>)
        requires
            old(self).wf(),
        ensures
            final(self)@ == old(self)@ + use_group_doc(crate::tree::use_trees_view(*items)),
            final(self).open() == old(self).open(),
            final(self).wf(),
        decreases items, 0nat,
    {
        let ghost v = crate::tree::use_trees_view(*items);
        if items.len() == 0 {
            self.word("{}");
            assert(self@ =~= old(self)@ + use_group_doc(v));
        } else if items.len() == 1 {
            self.use_tree(&items[0]);
        } else {
            self.cbox(INDENT);
            self.word("{");
            self.zerobreak();
            self.ibox(0);
            let ghost head = self@;
            let mut i: usize = 0;
            assert(self@ =~= head + use_items_doc(v, 0));
            while i < items.len()
                invariant
                    i <= items.len(),
                    v == crate::tree::use_trees_view(*items),
                    self@ == head + use_items_doc(v, i as nat),
                    self.open() == old(self).open() + 2,
                    self.wf(),
                decreases items.len() - i,
            {
                let ghost before = self@;
                self.use_tree(&items[i]);
                if i + 1 < items.len() {
                    self.word(",");
                    if use_ends_in_group(&items[i]) {
                        self.hardbreak();
                    } else {
                        self.space();
                    }
                }
                assert(self@ =~= before + use_tree_doc(v[i as int]) + use_separator_doc(
                    v[i as int],
                    i + 1 == items.len(),
                ));
                assert(self@ =~= head + use_items_doc(v, (i + 1) as nat));
                i = i + 1;
            }
            self.end();
            self.trailing_comma(true);
            self.offset(-INDENT);
            self.word("}");
            self.end();
            assert(self@ =~= old(self)@ + use_group_doc(v));
        }
    }
}

/// Follows a use tree through its path segments, and tells whether it ends
/// in a group.
pub fn use_ends_in_group(use_tree: &UseTree) -> (r: bool)
    ensures
        r == ends_in_group(use_tree@),
    decreases use_tree,
{
    match use_tree {
        UseTree::Path(_, tree) => use_ends_in_group(tree),
        UseTree::Group(_) => true,
        _ => false,
    }
}


/// A value behind ` = `, where nothing before it bears on whether the value
/// fits, and the semicolon that ends the declaration.
#[verifier::opaque]
pub open spec fn assigned_doc(expr: Seq<char>) -> Seq<Op> {
    seq![text(" = "@), neverbreak(), text(expr), text(";"@)]
}

/// A keyword, the name it introduces, and the generic parameters of the name.
#[verifier::opaque]
pub open spec fn named_doc(keyword: Seq<char>, ident: Seq<char>, g: GenericsView) -> Seq<Op> {
    seq![text(keyword), text(ident)] + generics_doc(g)
}

/// A type behind `: `.
#[verifier::opaque]
pub open spec fn typed_doc(t: TypeView) -> Seq<Op> {
    seq![text(": "@)] + type_doc(t)
}

/// A constant, in one box: its name, type and value on the line.
pub open spec fn item_const_doc(c: ItemConstView) -> Seq<Op> {
    head_doc(c.attrs, 0, c.vis) + named_doc("const "@, c.ident, c.generics) + typed_doc(
        c.ty,
    ) + assigned_doc(c.expr) + seq![end(), hardbreak()]
}

/// The first `n` variants, one to a line, each with a comma behind it.
pub open spec fn variants_doc(variants: Seq<VariantView>, n: nat) -> Seq<Op>
    decreases n,
{
    if n == 0 || n > variants.len() {
        seq![]
    } else {
        variants_doc(variants, (n - 1) as nat) + variant_doc(variants[n - 1]) + seq![
            text(","@),
            hardbreak(),
        ]
    }
}

/// An enum: its name, its `where` clause on lines of its own, and its variants
/// as a body, one to a line.
pub open spec fn item_enum_doc(e: ItemEnumView) -> Seq<Op> {
    head_doc(e.attrs, INDENT as int, e.vis) + named_doc("enum "@, e.ident, e.generics)
        + where_for_body_doc(e.generics) + seq![text("{"@)] + body_doc(
        variants_doc(e.variants, e.variants.len()),
    ) + seq![hardbreak()]
}

/// A new name behind ` as `.
#[verifier::opaque]
pub open spec fn rename_doc(rename: Option<Seq<char>>) -> Seq<Op> {
    match rename {
        Some(name) => seq![text(" as "@), text(name)],
        None => seq![],
    }
}

/// An `extern crate` declaration, on one line.
pub open spec fn item_extern_crate_doc(e: ItemExternCrateView) -> Seq<Op> {
    outer_attrs_doc(e.attrs) + visibility_doc(e.vis) + seq![
        text("extern crate "@),
        text(e.ident),
    ] + rename_doc(e.rename) + seq![text(";"@), hardbreak()]
}

/// A macro invocation in the place of a declaration.
pub open spec fn item_macro_doc(m: ItemMacroView) -> Seq<Op> {
    outer_attrs_doc(m.attrs) + mac_doc(m.mac, m.ident) + mac_semi_doc(
        m.mac.delimiter,
    ) + seq![hardbreak()]
}

/// `static`, `mut` where it applies, and the name.
#[verifier::opaque]
pub open spec fn static_name_doc(mutability: bool, ident: Seq<char>) -> Seq<Op> {
    seq![text("static "@)] + flag_doc(mutability, "mut "@) + seq![text(ident)]
}

/// A static, in one box: its name, type and value on the line.
pub open spec fn item_static_doc(s: ItemStaticView) -> Seq<Op> {
    head_doc(s.attrs, 0, s.vis) + static_name_doc(s.mutability, s.ident) + typed_doc(s.ty)
        + assigned_doc(s.expr) + seq![end(), hardbreak()]
}

/// The first `n` named fields, one to a line, each with a comma behind it.
pub open spec fn named_fields_doc(fields: Seq<FieldView>, n: nat) -> Seq<Op>
    decreases n,
{
    if n == 0 || n > fields.len() {
        seq![]
    } else {
        named_fields_doc(fields, (n - 1) as nat) + field_doc(fields[n - 1]) + seq![
            text(","@),
            hardbreak(),
        ]
    }
}

/// The fields of a struct behind its name: named ones as a body between
/// braces, one field to a line; positional ones between parentheses on the
/// line; none at all as the bare semicolon. The `where` clause stands before
/// the brace, or before the semicolon.
#[verifier::opaque]
pub open spec fn struct_fields_doc(fields: FieldsView, g: GenericsView) -> Seq<Op> {
    match fields {
        FieldsView::Named(named) => where_for_body_doc(g) + seq![text("{"@)] + body_doc(
            named_fields_doc(named, named.len()),
        ),
        FieldsView::Unnamed(unnamed) => fields_unnamed_doc(unnamed) + where_semi_doc(g) + seq![end()],
        FieldsView::Unit => where_semi_doc(g) + seq![end()],
    }
}

/// A struct: its name and its fields.
pub open spec fn item_struct_doc(s: ItemStructView) -> Seq<Op> {
    head_doc(s.attrs, INDENT as int, s.vis) + named_doc("struct "@, s.ident, s.generics)
        + struct_fields_doc(s.fields, s.generics) + seq![hardbreak()]
}

/// The first `n` bounds of a list joined by `+`; `first` stands before the
/// first of them, `rest` before each of the others.
pub open spec fn bounds_doc(bounds: Seq<Seq<char>>, n: nat, first: Seq<Op>, rest: Seq<Op>) -> Seq<Op>
    decreases n,
{
    if n == 0 || n > bounds.len() {
        seq![]
    } else {
        bounds_doc(bounds, (n - 1) as nat, first, rest) + (if n == 1 {
            first
        } else {
            rest
        }) + seq![text(bounds[n - 1])]
    }
}

/// What stands before the first bound of a list: a colon where the list
/// follows a name, nothing where it follows `=`.
pub open spec fn bound_first_doc(colon: bool) -> Seq<Op> {
    if colon {
        seq![text(": "@)]
    } else {
        seq![]
    }
}

/// What stands before each further bound: a `+` with a break before it where
/// the list may run over the line, a `+` between spaces where it may not.
pub open spec fn bound_rest_doc(breakable: bool) -> Seq<Op> {
    if breakable {
        seq![space(), text("+ "@)]
    } else {
        seq![text(" + "@)]
    }
}

/// A list of bounds.
#[verifier::opaque]
pub open spec fn bound_list_doc(bounds: Seq<Seq<char>>, colon: bool, breakable: bool) -> Seq<Op> {
    bounds_doc(bounds, bounds.len(), bound_first_doc(colon), bound_rest_doc(breakable))
}

/// A trait alias: its bounds behind `=`, its `where` clause before the
/// semicolon.
pub open spec fn item_trait_alias_doc(t: ItemTraitAliasView) -> Seq<Op> {
    head_doc(t.attrs, INDENT as int, t.vis) + named_doc("trait "@, t.ident, t.generics) + seq![
        text(" = "@),
        neverbreak(),
    ] + bound_list_doc(t.bounds, false, true) + where_semi_doc(t.generics) + seq![
        end(),
        hardbreak(),
    ]
}

/// The type that an alias stands for, in a box that takes back the
/// indentation of the declaration.
#[verifier::opaque]
pub open spec fn aliased_doc(t: TypeView) -> Seq<Op> {
    seq![neverbreak(), ibox(-INDENT as int)] + type_doc(t) + seq![end()]
}

/// A type alias: its `where` clause on the line before `=`, the type behind it.
pub open spec fn item_type_doc(t: ItemTypeView) -> Seq<Op> {
    head_doc(t.attrs, INDENT as int, t.vis) + named_doc("type "@, t.ident, t.generics)
        + where_oneline_doc(t.generics) + seq![text("= "@)] + aliased_doc(t.ty) + seq![
        text(";"@),
        end(),
        hardbreak(),
    ]
}

/// A union: its name, its `where` clause on lines of its own, and its fields as
/// a body, one to a line.
pub open spec fn item_union_doc(u: ItemUnionView) -> Seq<Op> {
    head_doc(u.attrs, INDENT as int, u.vis) + named_doc("union "@, u.ident, u.generics)
        + where_for_body_doc(u.generics) + seq![text("{"@)] + body_doc(
        named_fields_doc(u.fields, u.fields.len()),
    ) + seq![hardbreak()]
}

/// A `use` declaration.
pub open spec fn item_use_doc(u: ItemUseView) -> Seq<Op> {
    outer_attrs_doc(u.attrs) + visibility_doc(u.vis) + seq![text("use "@)] + flag_doc(
        u.leading_colon,
        "::"@,
    ) + use_tree_doc(u.tree) + seq![text(";"@), hardbreak()]
}

impl Printer {
    /// Writes a value behind ` = `, and the semicolon.
    pub(crate) fn assigned(&mut self, expr: &String)
        requires
            old(self).wf(),
        ensures
            final(self)@ == old(self)@ + assigned_doc(expr@),
            final(self).open() == old(self).open(),
            final(self).wf(),
    {
        reveal(assigned_doc);
        self.word(" = ");
        self.neverbreak();
        self.ident(expr);
        self.word(";");
        assert(self@ =~= old(self)@ + assigned_doc(expr@));
    }

    fn named(&mut self, keyword: &str, ident: &String, generics: &Generics)
        requires
            old(self).wf(),
        ensures
            final(self)@ == old(self)@ + named_doc(keyword@, ident@, generics@),
            final(self).open() == old(self).open(),
            final(self).wf(),
    {
        reveal(named_doc);
        self.word(keyword);
        self.ident(ident);
        self.generics(generics);
        assert(self@ =~= old(self)@ + named_doc(keyword@, ident@, generics@));
    }

    fn typed(&mut self, ty: &Type)
        requires
            old(self).wf(),
        ensures
            final(self)@ == old(self)@ + typed_doc(ty@),
            final(self).open() == old(self).open(),
            final(self).wf(),
    {
        reveal(typed_doc);
        self.word(": ");
        self.ty(ty);
        assert(self@ =~= old(self)@ + typed_doc(ty@));
    }

    /// Writes a constant.
    pub fn item_const(&mut self, item: &ItemConst)
        requires
            old(self).wf(),
        ensures
            final(self)@ == old(self)@ + item_const_doc(item@),
            final(self).open() == old(self).open(),
            final(self).wf(),
    {
        self.head(&item.attrs, 0, &item.vis);
        self.named("const ", &item.ident, &item.generics);
        self.typed(&item.ty);
        self.assigned(&item.expr);
        self.end();
        self.hardbreak();
        assert(self@ =~= old(self)@ + item_const_doc(item@));
    }

    fn variants(&mut self, variants: &Vec<Variant>)
        requires
            old(self).wf(),
        ensures
            final(self)@ == old(self)@ + variants_doc(views(variants@), variants@.len()),
            final(self).open() == old(self).open(),
            final(self).wf(),
    {
        let mut i: usize = 0;
        assert(self@ =~= old(self)@ + variants_doc(views(variants@), 0));
        proof {
            lemma_views_at(variants@);
        }
        while i < variants.len()
            invariant
                i <= variants.len(),
                self@ == old(self)@ + variants_doc(views(variants@), i as nat),
                self.open() == old(self).open(),
                self.wf(),
            decreases variants.len() - i,
        {
            proof {
                lemma_views_at(variants@);
                assert(views(variants@)[i as int] == variants@[i as int]@);
            }
            self.variant(&variants[i]);
            self.word(",");
            self.hardbreak();
            assert(self@ =~= old(self)@ + variants_doc(views(variants@), (i + 1) as nat));
            i = i + 1;
        }
    }

    /// Writes an enum.
    pub fn item_enum(&mut self, item: &ItemEnum)
        requires
            old(self).wf(),
        ensures
            final(self)@ == old(self)@ + item_enum_doc(item@),
            final(self).open() == old(self).open(),
            final(self).wf(),
    {
        self.head(&item.attrs, INDENT, &item.vis);
        self.named("enum ", &item.ident, &item.generics);
        self.where_clause_for_body(&item.generics);
        self.word("{");
        let ghost head = self@;
        let mark = self.body_begin();
        let ghost inner = variants_doc(views(item.variants@), item.variants@.len());
        self.variants(&item.variants);
        self.body_end(mark, Ghost(head), Ghost(inner));
        self.hardbreak();
        assert(self@ =~= old(self)@ + item_enum_doc(item@));
    }

    /// Writes an `extern crate` declaration.
    pub fn item_extern_crate(&mut self, item: &ItemExternCrate)
        requires
            old(self).wf(),
        ensures
            final(self)@ == old(self)@ + item_extern_crate_doc(item@),
            final(self).open() == old(self).open(),
            final(self).wf(),
    {
        self.outer_attrs(&item.attrs);
        self.visibility(&item.vis);
        self.word("extern crate ");
        self.ident(&item.ident);
        let ghost before = self@;
        match &item.rename {
            Some(rename) => {
                self.word(" as ");
                self.ident(rename);
            },
            None => {},
        }
        assert(self@ =~= before + rename_doc(text_option(item.rename))) by {
            reveal(rename_doc);
        }
        self.word(";");
        self.hardbreak();
        assert(self@ =~= old(self)@ + item_extern_crate_doc(item@));
    }

    /// Writes a macro invocation in the place of a declaration.
    pub fn item_macro(&mut self, item: &ItemMacro)
        requires
            old(self).wf(),
        ensures
            final(self)@ == old(self)@ + item_macro_doc(item@),
            final(self).open() == old(self).open(),
            final(self).wf(),
    {
        self.outer_attrs(&item.attrs);
        self.mac(&item.mac, item.ident.as_ref());
        self.mac_semi_if_needed(&item.mac.delimiter);
        self.hardbreak();
        assert(self@ =~= old(self)@ + item_macro_doc(item@));
    }

    /// Writes `static`, `mut` where it applies, and the name.
    pub(crate) fn static_name(&mut self, mutability: bool, ident: &String)
        requires
            old(self).wf(),
        ensures
            final(self)@ == old(self)@ + static_name_doc(mutability, ident@),
            final(self).open() == old(self).open(),
            final(self).wf(),
    {
        reveal(static_name_doc);
        self.word("static ");
        self.word_if(mutability, "mut ");
        self.ident(ident);
        assert(self@ =~= old(self)@ + static_name_doc(mutability, ident@));
    }

    /// Writes a static.
    pub fn item_static(&mut self, item: &ItemStatic)
        requires
            old(self).wf(),
        ensures
            final(self)@ == old(self)@ + item_static_doc(item@),
            final(self).open() == old(self).open(),
            final(self).wf(),
    {
        self.head(&item.attrs, 0, &item.vis);
        self.static_name(item.mutability, &item.ident);
        self.typed(&item.ty);
        self.assigned(&item.expr);
        self.end();
        self.hardbreak();
        assert(self@ =~= old(self)@ + item_static_doc(item@));
    }

    fn named_fields(&mut self, fields: &Vec<Field>)
        requires
            old(self).wf(),
        ensures
            final(self)@ == old(self)@ + named_fields_doc(views(fields@), fields@.len()),
            final(self).open() == old(self).open(),
            final(self).wf(),
    {
        let mut i: usize = 0;
        assert(self@ =~= old(self)@ + named_fields_doc(views(fields@), 0));
        proof {
            lemma_views_at(fields@);
        }
        while i < fields.len()
            invariant
                i <= fields.len(),
                self@ == old(self)@ + named_fields_doc(views(fields@), i as nat),
                self.open() == old(self).open(),
                self.wf(),
            decreases fields.len() - i,
        {
            proof {
                lemma_views_at(fields@);
                assert(views(fields@)[i as int] == fields@[i as int]@);
            }
            self.field(&fields[i]);
            self.word(",");
            self.hardbreak();
            assert(self@ =~= old(self)@ + named_fields_doc(views(fields@), (i + 1) as nat));
            i = i + 1;
        }
    }

    fn struct_fields(&mut self, fields: &Fields, generics: &Generics)
        requires
            old(self).wf(),
            old(self).open() > 0,
        ensures
            final(self)@ == old(self)@ + struct_fields_doc(fields@, generics@),
            final(self).open() == old(self).open() - 1,
            final(self).wf(),
    {
        reveal(struct_fields_doc);
        match fields {
            Fields::Named(named) => {
                self.where_clause_for_body(generics);
                self.word("{");
                let ghost head = self@;
                let mark = self.body_begin();
                let ghost inner = named_fields_doc(views(named@), named@.len());
                self.named_fields(named);
                self.body_end(mark, Ghost(head), Ghost(inner));
            },
            Fields::Unnamed(unnamed) => {
                self.fields_unnamed(unnamed);
                self.where_clause_semi(generics);
                self.end();
            },
            Fields::Unit => {
                self.where_clause_semi(generics);
                self.end();
            },
        }
        assert(self@ =~= old(self)@ + struct_fields_doc(fields@, generics@));
    }

    /// Writes a struct.
    pub fn item_struct(&mut self, item: &ItemStruct)
        requires
            old(self).wf(),
        ensures
            final(self)@ == old(self)@ + item_struct_doc(item@),
            final(self).open() == old(self).open(),
            final(self).wf(),
    {
        self.head(&item.attrs, INDENT, &item.vis);
        self.named("struct ", &item.ident, &item.generics);
        self.struct_fields(&item.fields, &item.generics);
        self.hardbreak();
        assert(self@ =~= old(self)@ + item_struct_doc(item@));
    }

    fn bound_list(&mut self, bounds: &Vec<String>, colon: bool, breakable: bool)
        requires
            old(self).wf(),
        ensures
            final(self)@ == old(self)@ + bound_list_doc(views(bounds@), colon, breakable),
            final(self).open() == old(self).open(),
            final(self).wf(),
    {
        reveal(bound_list_doc);
        let ghost v = views(bounds@);
        let ghost first = bound_first_doc(colon);
        let ghost rest = bound_rest_doc(breakable);
        let mut i: usize = 0;
        assert(self@ =~= old(self)@ + bounds_doc(v, 0, first, rest));
        while i < bounds.len()
            invariant
                i <= bounds.len(),
                v == views(bounds@),
                first == bound_first_doc(colon),
                rest == bound_rest_doc(breakable),
                self@ == old(self)@ + bounds_doc(v, i as nat, first, rest),
                self.open() == old(self).open(),
                self.wf(),
            decreases bounds.len() - i,
        {
            let ghost before = self@;
            if i == 0 {
                if colon {
                    self.word(": ");
                }
                assert(self@ =~= before + first);
            } else {
                if breakable {
                    self.space();
                    self.word("+ ");
                } else {
                    self.word(" + ");
                }
                assert(self@ =~= before + rest);
            }
            self.ident(&bounds[i]);
            assert(self@ =~= old(self)@ + bounds_doc(v, (i + 1) as nat, first, rest));
            i = i + 1;
        }
    }

    /// Writes a trait alias.
    pub fn item_trait_alias(&mut self, item: &ItemTraitAlias)
        requires
            old(self).wf(),
        ensures
            final(self)@ == old(self)@ + item_trait_alias_doc(item@),
            final(self).open() == old(self).open(),
            final(self).wf(),
    {
        self.head(&item.attrs, INDENT, &item.vis);
        self.named("trait ", &item.ident, &item.generics);
        self.word(" = ");
        self.neverbreak();
        self.bound_list(&item.bounds, false, true);
        self.where_clause_semi(&item.generics);
        self.end();
        self.hardbreak();
        assert(self@ =~= old(self)@ + item_trait_alias_doc(item@));
    }

    fn aliased(&mut self, ty: &Type)
        requires
            old(self).wf(),
        ensures
            final(self)@ == old(self)@ + aliased_doc(ty@),
            final(self).open() == old(self).open(),
            final(self).wf(),
    {
        reveal(aliased_doc);
        self.neverbreak();
        self.ibox(-INDENT);
        self.ty(ty);
        self.end();
        assert(self@ =~= old(self)@ + aliased_doc(ty@));
    }

    /// Writes a type alias.
    pub fn item_type(&mut self, item: &ItemType)
        requires
            old(self).wf(),
        ensures
            final(self)@ == old(self)@ + item_type_doc(item@),
            final(self).open() == old(self).open(),
            final(self).wf(),
    {
        self.head(&item.attrs, INDENT, &item.vis);
        self.named("type ", &item.ident, &item.generics);
        self.where_clause_oneline(&item.generics);
        self.word("= ");
        self.aliased(&item.ty);
        self.word(";");
        self.end();
        self.hardbreak();
        assert(self@ =~= old(self)@ + item_type_doc(item@));
    }

    /// Writes a union.
    pub fn item_union(&mut self, item: &ItemUnion)
        requires
            old(self).wf(),
        ensures
            final(self)@ == old(self)@ + item_union_doc(item@),
            final(self).open() == old(self).open(),
            final(self).wf(),
    {
        self.head(&item.attrs, INDENT, &item.vis);
        self.named("union ", &item.ident, &item.generics);
        self.where_clause_for_body(&item.generics);
        self.word("{");
        let ghost head = self@;
        let mark = self.body_begin();
        let ghost inner = named_fields_doc(views(item.fields@), item.fields@.len());
        self.named_fields(&item.fields);
        self.body_end(mark, Ghost(head), Ghost(inner));
        self.hardbreak();
        assert(self@ =~= old(self)@ + item_union_doc(item@));
    }

    /// Writes a `use` declaration.
    pub fn item_use(&mut self, item: &ItemUse)
        requires
            old(self).wf(),
        ensures
            final(self)@ == old(self)@ + item_use_doc(item@),
            final(self).open() == old(self).open(),
            final(self).wf(),
    {
        self.outer_attrs(&item.attrs);
        self.visibility(&item.vis);
        self.word("use ");
        self.word_if(item.leading_colon, "::");
        self.use_tree(&item.tree);
        self.word(";");
        self.hardbreak();
        assert(self@ =~= old(self)@ + item_use_doc(item@));
    }
}


// Members and the declarations that hold them. A body may hold declarations
// again, so the rules from here on are defined together.

/// A foreign function: its signature, and a semicolon in the place of a body.
pub open spec fn foreign_item_fn_doc(f: ForeignItemFnView) -> Seq<Op> {
    head_doc(f.attrs, INDENT as int, f.vis) + signature_doc(f.sig) + where_semi_doc(
        f.sig.generics,
    ) + seq![end(), hardbreak()]
}

/// A foreign static: its name and type, and a semicolon.
pub open spec fn foreign_item_static_doc(f: ForeignItemStaticView) -> Seq<Op> {
    head_doc(f.attrs, 0, f.vis) + static_name_doc(f.mutability, f.ident) + typed_doc(f.ty)
        + seq![text(";"@), end(), hardbreak()]
}

/// A foreign type: its name, and a semicolon.
pub open spec fn foreign_item_type_doc(f: ForeignItemTypeView) -> Seq<Op> {
    head_doc(f.attrs, 0, f.vis) + named_doc("type "@, f.ident, f.generics) + seq![
        text(";"@),
        end(),
        hardbreak(),
    ]
}

/// A macro invocation in the place of a member.
pub open spec fn member_macro_doc(m: MemberMacroView) -> Seq<Op> {
    outer_attrs_doc(m.attrs) + mac_doc(m.mac, None) + mac_semi_doc(m.mac.delimiter) + seq![
        hardbreak(),
    ]
}

/// Whether a declaration inside an `extern` block has a rendering.
pub open spec fn foreign_item_ok(f: ForeignItemView) -> bool {
    match f {
        ForeignItemView::Verbatim(ts) => foreign_span_ok(ts),
        ForeignItemView::Unknown => false,
        _ => true,
    }
}

/// The stream that a declaration inside an `extern` block is written as.
pub open spec fn foreign_item_doc(f: ForeignItemView) -> Seq<Op> {
    match f {
        ForeignItemView::Fn(f) => foreign_item_fn_doc(f),
        ForeignItemView::Static(f) => foreign_item_static_doc(f),
        ForeignItemView::Type(f) => foreign_item_type_doc(f),
        ForeignItemView::Macro(m) => member_macro_doc(m),
        ForeignItemView::Verbatim(ts) => foreign_span_doc(ts),
        ForeignItemView::Unknown => seq![],
    }
}

/// Every declaration of the block has a rendering.
pub open spec fn foreign_items_ok(items: Seq<ForeignItemView>) -> bool {
    forall|i: int| 0 <= i < items.len() ==> foreign_item_ok(#[trigger] items[i])
}

/// The first `n` declarations of an `extern` block.
pub open spec fn foreign_items_doc(items: Seq<ForeignItemView>, n: nat) -> Seq<Op>
    decreases n,
{
    if n == 0 || n > items.len() {
        seq![]
    } else {
        foreign_items_doc(items, (n - 1) as nat) + foreign_item_doc(items[n - 1])
    }
}

/// An `extern` block: its members as a body.
pub open spec fn item_foreign_mod_doc(m: ItemForeignModView) -> Seq<Op> {
    outer_attrs_doc(m.attrs) + seq![cbox(INDENT as int)] + flag_doc(m.unsafety, "unsafe "@)
        + abi_doc(m.abi) + seq![text("{"@)] + body_doc(
        inner_attrs_doc(m.attrs) + foreign_items_doc(m.items, m.items.len()),
    ) + seq![hardbreak()]
}

/// A default value behind ` = `.
#[verifier::opaque]
pub open spec fn default_value_doc(value: Option<Seq<char>>) -> Seq<Op> {
    match value {
        Some(expr) => seq![text(" = "@), neverbreak(), text(expr)],
        None => seq![],
    }
}

/// A default type behind ` = `.
#[verifier::opaque]
pub open spec fn default_type_doc(ty: Option<TypeView>) -> Seq<Op> {
    match ty {
        Some(t) => seq![text(" = "@), neverbreak()] + type_doc(t),
        None => seq![],
    }
}

/// A constant of a trait.
pub open spec fn trait_item_const_doc(c: TraitItemConstView) -> Seq<Op> {
    outer_attrs_doc(c.attrs) + seq![cbox(0)] + named_doc("const "@, c.ident, c.generics)
        + typed_doc(c.ty) + default_value_doc(c.default) + seq![
        text(";"@),
        end(),
        hardbreak(),
    ]
}

/// An associated type of a trait: its bounds, its default, and its `where`
/// clause on the line.
pub open spec fn trait_item_type_doc(t: TraitItemTypeView) -> Seq<Op> {
    outer_attrs_doc(t.attrs) + seq![cbox(INDENT as int)] + named_doc(
        "type "@,
        t.ident,
        t.generics,
    ) + bound_list_doc(t.bounds, true, true) + default_type_doc(t.default)
        + where_oneline_semi_doc(t.generics) + seq![end(), hardbreak()]
}

/// A constant of an implementation.
pub open spec fn impl_item_const_doc(c: ImplItemConstView) -> Seq<Op> {
    head_doc(c.attrs, 0, c.vis) + flag_doc(c.defaultness, "default "@) + named_doc(
        "const "@,
        c.ident,
        c.generics,
    ) + typed_doc(c.ty) + assigned_doc(c.expr) + seq![end(), hardbreak()]
}

/// An associated type of an implementation: the type behind `=`, the `where`
/// clause behind the type.
pub open spec fn impl_item_type_doc(t: ImplItemTypeView) -> Seq<Op> {
    head_doc(t.attrs, INDENT as int, t.vis) + flag_doc(t.defaultness, "default "@) + named_doc(
        "type "@,
        t.ident,
        t.generics,
    ) + seq![text(" = "@)] + aliased_doc(t.ty) + where_oneline_semi_doc(t.generics) + seq![
        end(),
        hardbreak(),
    ]
}

/// The text of the span is a semicolon and nothing else.
pub open spec fn is_semicolon(toks: Seq<TokenView>) -> bool {
    tokens_text(toks, false) == seq![';']
}

/// The body of a method stands for a bare semicolon: it holds one statement,
/// a declaration kept as tokens, and the tokens are a semicolon.
pub open spec fn is_stub(block: Seq<StmtView>) -> bool {
    block.len() == 1 && block[0] is Item && *block[0]->Item_0 is Verbatim && is_semicolon(
        block[0]->Item_0->Verbatim_0,
    )
}

/// Whether a declaration has a rendering: it is of a known kind, a token span
/// in it has one of the shapes known for its place, and what its body holds
/// has a rendering too.
pub open spec fn representable(item: ItemView) -> bool
    decreases item, 0nat,
{
    match item {
        ItemView::Fn(f) => stmts_ok(f.block),
        ItemView::ForeignMod(m) => foreign_items_ok(m.items),
        ItemView::Impl(i) => impl_items_ok(i.items),
        ItemView::Mod(m) => match m.content {
            Some(items) => items_ok(items),
            None => true,
        },
        ItemView::Trait(t) => trait_items_ok(t.items),
        ItemView::Verbatim(ts) => item_span_ok(ts),
        ItemView::Unknown => false,
        _ => true,
    }
}

/// Every declaration of the list has a rendering.
pub open spec fn items_ok(items: Seq<ItemView>) -> bool
    decreases items, 1nat,
{
    forall|i: int| 0 <= i < items.len() ==> representable(#[trigger] items[i])
}

/// Whether a statement has a rendering.
pub open spec fn stmt_ok(s: StmtView) -> bool
    decreases s, 0nat,
{
    match s {
        StmtView::Item(item) => representable(*item),
        StmtView::Other(_) => true,
    }
}

/// Every statement of the body has a rendering.
pub open spec fn stmts_ok(stmts: Seq<StmtView>) -> bool
    decreases stmts, 1nat,
{
    forall|i: int| 0 <= i < stmts.len() ==> stmt_ok(#[trigger] stmts[i])
}

/// Whether a member of a trait has a rendering. A token span in its place has
/// one only where it is empty.
pub open spec fn trait_item_ok(t: TraitItemView) -> bool
    decreases t, 0nat,
{
    match t {
        TraitItemView::Fn(f) => match f.default {
            Some(block) => stmts_ok(block),
            None => true,
        },
        TraitItemView::Verbatim(ts) => ts.len() == 0,
        TraitItemView::Unknown => false,
        _ => true,
    }
}

/// Every member of the trait has a rendering.
pub open spec fn trait_items_ok(items: Seq<TraitItemView>) -> bool
    decreases items, 1nat,
{
    forall|i: int| 0 <= i < items.len() ==> trait_item_ok(#[trigger] items[i])
}

/// Whether a member of an implementation has a rendering. A token span in its
/// place has one only where it is empty.
pub open spec fn impl_item_ok(i: ImplItemView) -> bool
    decreases i, 0nat,
{
    match i {
        ImplItemView::Fn(f) => is_stub(f.block) || stmts_ok(f.block),
        ImplItemView::Verbatim(ts) => ts.len() == 0,
        ImplItemView::Unknown => false,
        _ => true,
    }
}

/// Every member of the implementation has a rendering.
pub open spec fn impl_items_ok(items: Seq<ImplItemView>) -> bool
    decreases items, 1nat,
{
    forall|i: int| 0 <= i < items.len() ==> impl_item_ok(#[trigger] items[i])
}

/// The stream that a declaration is written as.
pub open spec fn item_doc(item: ItemView) -> Seq<Op>
    decreases item, 0nat,
{
    match item {
        ItemView::Const(c) => item_const_doc(c),
        ItemView::Enum(e) => item_enum_doc(e),
        ItemView::ExternCrate(e) => item_extern_crate_doc(e),
        ItemView::Fn(f) => item_fn_doc(f),
        ItemView::ForeignMod(m) => item_foreign_mod_doc(m),
        ItemView::Impl(i) => item_impl_doc(i),
        ItemView::Macro(m) => item_macro_doc(m),
        ItemView::Mod(m) => item_mod_doc(m),
        ItemView::Static(s) => item_static_doc(s),
        ItemView::Struct(s) => item_struct_doc(s),
        ItemView::Trait(t) => item_trait_doc(t),
        ItemView::TraitAlias(t) => item_trait_alias_doc(t),
        ItemView::Type(t) => item_type_doc(t),
        ItemView::Union(u) => item_union_doc(u),
        ItemView::Use(u) => item_use_doc(u),
        ItemView::Verbatim(ts) => item_span_doc(ts),
        ItemView::Unknown => seq![],
    }
}

/// The first `n` declarations of a list, one after the other.
pub open spec fn items_doc(items: Seq<ItemView>, n: nat) -> Seq<Op>
    decreases items, n,
{
    if n == 0 || n > items.len() {
        seq![]
    } else {
        items_doc(items, (n - 1) as nat) + item_doc(items[n - 1])
    }
}

/// A statement: a declaration by its own rule, anything else as written, on
/// a line of its own.
pub open spec fn stmt_doc(s: StmtView) -> Seq<Op>
    decreases s, 0nat,
{
    match s {
        StmtView::Item(item) => item_doc(*item),
        StmtView::Other(t) => seq![text(t), hardbreak()],
    }
}

/// The first `n` statements of a body.
pub open spec fn stmts_doc(stmts: Seq<StmtView>, n: nat) -> Seq<Op>
    decreases stmts, n,
{
    if n == 0 || n > stmts.len() {
        seq![]
    } else {
        stmts_doc(stmts, (n - 1) as nat) + stmt_doc(stmts[n - 1])
    }
}

/// What stands inside the braces of a function body: the inner attributes,
/// then the statements.
pub open spec fn block_doc(attrs: Seq<AttributeView>, stmts: Seq<StmtView>) -> Seq<Op>
    decreases stmts, stmts.len() + 1,
{
    inner_attrs_doc(attrs) + stmts_doc(stmts, stmts.len())
}

/// A function: its signature, its `where` clause on lines of its own, and its
/// body.
pub open spec fn item_fn_doc(f: ItemFnView) -> Seq<Op>
    decreases f, 0nat,
{
    head_doc(f.attrs, INDENT as int, f.vis) + signature_doc(f.sig) + where_for_body_doc(
        f.sig.generics,
    ) + seq![text("{"@)] + body_doc(block_doc(f.attrs, f.block)) + seq![hardbreak()]
}

/// `mod`, behind `unsafe` where it applies, and the name.
#[verifier::opaque]
pub open spec fn mod_name_doc(unsafety: bool, ident: Seq<char>) -> Seq<Op> {
    flag_doc(unsafety, "unsafe "@) + seq![text("mod "@), text(ident)]
}

/// A module: with its content as a body, or with a semicolon in its place.
pub open spec fn item_mod_doc(m: ItemModView) -> Seq<Op>
    decreases m, 0nat,
{
    head_doc(m.attrs, INDENT as int, m.vis) + mod_name_doc(m.unsafety, m.ident) + (match m.content {
        Some(items) => seq![text(" {"@)] + body_doc(
            inner_attrs_doc(m.attrs) + items_doc(items, items.len()),
        ),
        None => seq![text(";"@), end()],
    }) + seq![hardbreak()]
}

/// The trait that an implementation is for, and `for`.
#[verifier::opaque]
pub open spec fn impl_trait_doc(t: Option<ImplTraitView>) -> Seq<Op> {
    match t {
        Some(t) => flag_doc(t.negative, "!"@) + seq![text(t.path), space(), text("for "@)],
        None => seq![],
    }
}

/// `impl` with what stands before it and its generic parameters, in a box of
/// their own.
#[verifier::opaque]
pub open spec fn impl_keyword_doc(i: ItemImplView) -> Seq<Op> {
    seq![cbox(INDENT as int)] + flag_doc(i.defaultness, "default "@) + flag_doc(
        i.unsafety,
        "unsafe "@,
    ) + seq![text("impl"@)] + generics_doc(i.generics) + seq![end(), text(" "@)]
}

/// The header of an implementation, up to the type that it is for.
#[verifier::opaque]
pub open spec fn impl_header_doc(i: ItemImplView) -> Seq<Op> {
    seq![cbox(INDENT as int), ibox(-INDENT as int)] + impl_keyword_doc(i) + impl_trait_doc(i.trait_)
        + type_doc(i.self_ty) + seq![end()]
}

/// An implementation: its header, its `where` clause on lines of its own, and
/// its members as a body.
pub open spec fn item_impl_doc(i: ItemImplView) -> Seq<Op>
    decreases i, 0nat,
{
    outer_attrs_doc(i.attrs) + impl_header_doc(i) + where_for_body_doc(i.generics) + seq![
        text("{"@),
    ] + body_doc(inner_attrs_doc(i.attrs) + impl_items_doc(i.items, i.items.len()))
        + seq![hardbreak()]
}

/// The name of a trait with what stands before and behind it, up to its
/// supertraits.
#[verifier::opaque]
pub open spec fn trait_name_doc(t: ItemTraitView) -> Seq<Op> {
    flag_doc(t.unsafety, "unsafe "@) + flag_doc(t.auto_token, "auto "@) + named_doc(
        "trait "@,
        t.ident,
        t.generics,
    ) + bound_list_doc(t.supertraits, true, false)
}

/// A trait: its name and supertraits, its `where` clause on lines of its own,
/// and its members as a body.
pub open spec fn item_trait_doc(t: ItemTraitView) -> Seq<Op>
    decreases t, 0nat,
{
    head_doc(t.attrs, INDENT as int, t.vis) + trait_name_doc(t) + where_for_body_doc(
        t.generics,
    ) + seq![text("{"@)] + body_doc(
        inner_attrs_doc(t.attrs) + trait_items_doc(t.items, t.items.len()),
    ) + seq![hardbreak()]
}

/// A method of a trait: with a default implementation its body in full,
/// without one the bare semicolon.
pub open spec fn trait_item_fn_doc(f: TraitItemFnView) -> Seq<Op>
    decreases f, 0nat,
{
    outer_attrs_doc(f.attrs) + seq![cbox(INDENT as int)] + signature_doc(f.sig) + (match f.default {
        Some(block) => where_for_body_doc(f.sig.generics) + seq![text("{"@)] + body_doc(
            block_doc(f.attrs, block),
        ),
        None => where_semi_doc(f.sig.generics) + seq![end()],
    }) + seq![hardbreak()]
}

/// The stream that a member of a trait is written as.
pub open spec fn trait_item_doc(t: TraitItemView) -> Seq<Op>
    decreases t, 0nat,
{
    match t {
        TraitItemView::Const(c) => trait_item_const_doc(c),
        TraitItemView::Fn(f) => trait_item_fn_doc(f),
        TraitItemView::Type(t) => trait_item_type_doc(t),
        TraitItemView::Macro(m) => member_macro_doc(m),
        TraitItemView::Verbatim(_) => seq![hardbreak()],
        TraitItemView::Unknown => seq![],
    }
}

/// The first `n` members of a trait.
pub open spec fn trait_items_doc(items: Seq<TraitItemView>, n: nat) -> Seq<Op>
    decreases items, n,
{
    if n == 0 || n > items.len() {
        seq![]
    } else {
        trait_items_doc(items, (n - 1) as nat) + trait_item_doc(items[n - 1])
    }
}

/// A method of an implementation: its body in full, or the bare semicolon
/// where the body stands for one.
pub open spec fn impl_item_fn_doc(f: ImplItemFnView) -> Seq<Op>
    decreases f, 0nat,
{
    head_doc(f.attrs, INDENT as int, f.vis) + flag_doc(f.defaultness, "default "@)
        + signature_doc(f.sig) + (if is_stub(f.block) {
        where_semi_doc(f.sig.generics) + seq![end()]
    } else {
        where_for_body_doc(f.sig.generics) + seq![text("{"@)] + body_doc(
            block_doc(f.attrs, f.block),
        )
    }) + seq![hardbreak()]
}

/// The stream that a member of an implementation is written as.
pub open spec fn impl_item_doc(i: ImplItemView) -> Seq<Op>
    decreases i, 0nat,
{
    match i {
        ImplItemView::Const(c) => impl_item_const_doc(c),
        ImplItemView::Fn(f) => impl_item_fn_doc(f),
        ImplItemView::Type(t) => impl_item_type_doc(t),
        ImplItemView::Macro(m) => member_macro_doc(m),
        ImplItemView::Verbatim(_) => seq![hardbreak()],
        ImplItemView::Unknown => seq![],
    }
}

/// The first `n` members of an implementation.
pub open spec fn impl_items_doc(items: Seq<ImplItemView>, n: nat) -> Seq<Op>
    decreases items, n,
{
    if n == 0 || n > items.len() {
        seq![]
    } else {
        impl_items_doc(items, (n - 1) as nat) + impl_item_doc(items[n - 1])
    }
}

/// Tells whether a span is a semicolon and nothing else.
pub fn span_is_semicolon(ts: &TokenStream) -> (r: bool)
    ensures
        r == is_semicolon(tokens_of(*ts)),
{
    let text = span_text(ts, false);
    proof {
        reveal_strlit(";");
        assert(";"@ =~= seq![';']);
    }
    text_is(&text, ";")
}

/// Tells whether a span holds no token.
pub fn span_is_empty(ts: &TokenStream) -> (r: bool)
    ensures
        r == (tokens_of(*ts).len() == 0),
{
    let toks = span_tokens(ts);
    toks.len() == 0
}

/// Tells whether the body of a method stands for a bare semicolon.
pub fn block_is_stub(block: &Vec<Stmt>) -> (r: bool)
    ensures
        r == is_stub(stmts_view(*block)),
{
    if block.len() != 1 {
        return false;
    }
    match &block[0] {
        Stmt::Item(item) => match &**item {
            Item::Verbatim(ts) => span_is_semicolon(ts),
            _ => false,
        },
        Stmt::Other(_) => false,
    }
}

/// Tells whether a declaration inside an `extern` block has a rendering.
pub fn foreign_item_printable(item: &ForeignItem) -> (r: bool)
    ensures
        r == foreign_item_ok(item@),
{
    match item {
        ForeignItem::Verbatim(ts) => foreign_span_printable(ts),
        ForeignItem::Unknown => false,
        _ => true,
    }
}

fn foreign_items_printable(items: &Vec<ForeignItem>) -> (r: bool)
    ensures
        r == foreign_items_ok(views(items@)),
{
    let mut i: usize = 0;
    proof {
        lemma_views_at(items@);
    }
    while i < items.len()
        invariant
            i <= items.len(),
            forall|k: int| 0 <= k < i ==> foreign_item_ok(#[trigger] views(items@)[k]),
        decreases items.len() - i,
    {
        proof {
            lemma_views_at(items@);
            assert(views(items@)[i as int] == items@[i as int]@);
        }
        if !foreign_item_printable(&items[i]) {
            return false;
        }
        i = i + 1;
    }
    true
}

/// Tells whether a declaration has a rendering.
pub fn printable(item: &Item) -> (r: bool)
    ensures
        r == representable(item@),
    decreases item, 0nat,
{
    match item {
        Item::Fn(f) => stmts_printable(&f.block),
        Item::ForeignMod(m) => foreign_items_printable(&m.items),
        Item::Impl(i) => impl_items_printable(&i.items),
        Item::Mod(m) => match &m.content {
            Some(items) => items_printable(items),
            None => true,
        },
        Item::Trait(t) => trait_items_printable(&t.items),
        Item::Verbatim(ts) => item_span_printable(ts),
        Item::Unknown => false,
        _ => true,
    }
}

/// Tells whether every declaration of a list has a rendering.
pub fn items_printable(items: &Vec<Item>) -> (r: bool)
    ensures
        r == items_ok(items_view(*items)),
    decreases items, 1nat,
{
    let mut i: usize = 0;
    proof {
        lemma_items_view(*items);
    }
    while i < items.len()
        invariant
            i <= items.len(),
            forall|k: int| 0 <= k < i ==> representable(#[trigger] items_view(*items)[k]),
        decreases items.len() - i,
    {
        proof {
            lemma_items_view(*items);
            assert(items_view(*items)[i as int] == items@[i as int]@);
        }
        if !printable(&items[i]) {
            return false;
        }
        i = i + 1;
    }
    true
}

fn stmts_printable(stmts: &Vec<Stmt>) -> (r: bool)
    ensures
        r == stmts_ok(stmts_view(*stmts)),
    decreases stmts, 1nat,
{
    let mut i: usize = 0;
    proof {
        lemma_stmts_view(*stmts);
    }
    while i < stmts.len()
        invariant
            i <= stmts.len(),
            forall|k: int| 0 <= k < i ==> stmt_ok(#[trigger] stmts_view(*stmts)[k]),
        decreases stmts.len() - i,
    {
        proof {
            lemma_stmts_view(*stmts);
            assert(stmts_view(*stmts)[i as int] == stmts@[i as int]@);
        }
        let ok: bool = match &stmts[i] {
            Stmt::Item(item) => printable(item),
            Stmt::Other(_) => true,
        };
        if !ok {
            return false;
        }
        i = i + 1;
    }
    true
}

/// Tells whether a member of a trait has a rendering.
pub fn trait_item_printable(item: &TraitItem) -> (r: bool)
    ensures
        r == trait_item_ok(item@),
    decreases item, 0nat,
{
    match item {
        TraitItem::Fn(f) => match &f.default {
            Some(block) => stmts_printable(block),
            None => true,
        },
        TraitItem::Verbatim(ts) => span_is_empty(ts),
        TraitItem::Unknown => false,
        _ => true,
    }
}

/// Tells whether a member of an implementation has a rendering.
pub fn impl_item_printable(item: &ImplItem) -> (r: bool)
    ensures
        r == impl_item_ok(item@),
    decreases item, 0nat,
{
    match item {
        ImplItem::Fn(f) => block_is_stub(&f.block) || stmts_printable(&f.block),
        ImplItem::Verbatim(ts) => span_is_empty(ts),
        ImplItem::Unknown => false,
        _ => true,
    }
}

fn trait_items_printable(items: &Vec<TraitItem>) -> (r: bool)
    ensures
        r == trait_items_ok(trait_items_view(*items)),
    decreases items, 1nat,
{
    let mut i: usize = 0;
    proof {
        lemma_trait_items_view(*items);
    }
    while i < items.len()
        invariant
            i <= items.len(),
            forall|k: int| 0 <= k < i ==> trait_item_ok(#[trigger] trait_items_view(*items)[k]),
        decreases items.len() - i,
    {
        proof {
            lemma_trait_items_view(*items);
            assert(trait_items_view(*items)[i as int] == items@[i as int]@);
        }
        let ok: bool = trait_item_printable(&items[i]);
        if !ok {
            return false;
        }
        i = i + 1;
    }
    true
}

fn impl_items_printable(items: &Vec<ImplItem>) -> (r: bool)
    ensures
        r == impl_items_ok(impl_items_view(*items)),
    decreases items, 1nat,
{
    let mut i: usize = 0;
    proof {
        lemma_impl_items_view(*items);
    }
    while i < items.len()
        invariant
            i <= items.len(),
            forall|k: int| 0 <= k < i ==> impl_item_ok(#[trigger] impl_items_view(*items)[k]),
        decreases items.len() - i,
    {
        proof {
            lemma_impl_items_view(*items);
            assert(impl_items_view(*items)[i as int] == items@[i as int]@);
        }
        let ok: bool = impl_item_printable(&items[i]);
        if !ok {
            return false;
        }
        i = i + 1;
    }
    true
}

impl Printer {
    fn member_macro(&mut self, m: &MemberMacro)
        requires
            old(self).wf(),
        ensures
            final(self)@ == old(self)@ + member_macro_doc(m@),
            final(self).open() == old(self).open(),
            final(self).wf(),
    {
        self.outer_attrs(&m.attrs);
        self.mac(&m.mac, None);
        self.mac_semi_if_needed(&m.mac.delimiter);
        self.hardbreak();
        assert(self@ =~= old(self)@ + member_macro_doc(m@));
    }

    fn foreign_item_fn(&mut self, item: &ForeignItemFn)
        requires
            old(self).wf(),
        ensures
            final(self)@ == old(self)@ + foreign_item_fn_doc(item@),
            final(self).open() == old(self).open(),
            final(self).wf(),
    {
        self.head(&item.attrs, INDENT, &item.vis);
        self.signature(&item.sig);
        self.where_clause_semi(&item.sig.generics);
        self.end();
        self.hardbreak();
        assert(self@ =~= old(self)@ + foreign_item_fn_doc(item@));
    }

    fn foreign_item_static(&mut self, item: &ForeignItemStatic)
        requires
            old(self).wf(),
        ensures
            final(self)@ == old(self)@ + foreign_item_static_doc(item@),
            final(self).open() == old(self).open(),
            final(self).wf(),
    {
        self.head(&item.attrs, 0, &item.vis);
        self.static_name(item.mutability, &item.ident);
        self.typed(&item.ty);
        self.word(";");
        self.end();
        self.hardbreak();
        assert(self@ =~= old(self)@ + foreign_item_static_doc(item@));
    }

    fn foreign_item_type(&mut self, item: &ForeignItemType)
        requires
            old(self).wf(),
        ensures
            final(self)@ == old(self)@ + foreign_item_type_doc(item@),
            final(self).open() == old(self).open(),
            final(self).wf(),
    {
        self.head(&item.attrs, 0, &item.vis);
        self.named("type ", &item.ident, &item.generics);
        self.word(";");
        self.end();
        self.hardbreak();
        assert(self@ =~= old(self)@ + foreign_item_type_doc(item@));
    }

    fn foreign_item_verbatim(&mut self, tokens: &TokenStream)
        requires
            old(self).wf(),
            foreign_span_ok(tokens_of(*tokens)),
        ensures
            final(self)@ == old(self)@ + foreign_span_doc(tokens_of(*tokens)),
            final(self).open() == old(self).open(),
            final(self).wf(),
    {
        self.foreign_span(tokens);
    }

    fn emit_foreign_item(&mut self, item: &ForeignItem)
        requires
            old(self).wf(),
            foreign_item_ok(item@),
        ensures
            final(self)@ == old(self)@ + foreign_item_doc(item@),
            final(self).open() == old(self).open(),
            final(self).wf(),
    {
        match item {
            ForeignItem::Fn(item) => self.foreign_item_fn(item),
            ForeignItem::Static(item) => self.foreign_item_static(item),
            ForeignItem::Type(item) => self.foreign_item_type(item),
            ForeignItem::Macro(item) => self.member_macro(item),
            ForeignItem::Verbatim(item) => self.foreign_item_verbatim(item),
            ForeignItem::Unknown => {},
        }
    }

    fn foreign_items(&mut self, items: &Vec<ForeignItem>)
        requires
            old(self).wf(),
            foreign_items_ok(views(items@)),
        ensures
            final(self)@ == old(self)@ + foreign_items_doc(views(items@), items@.len()),
            final(self).open() == old(self).open(),
            final(self).wf(),
    {
        let mut i: usize = 0;
        assert(self@ =~= old(self)@ + foreign_items_doc(views(items@), 0));
        proof {
            lemma_views_at(items@);
        }
        while i < items.len()
            invariant
                i <= items.len(),
                foreign_items_ok(views(items@)),
                self@ == old(self)@ + foreign_items_doc(views(items@), i as nat),
                self.open() == old(self).open(),
                self.wf(),
            decreases items.len() - i,
        {
            proof {
                lemma_views_at(items@);
                assert(views(items@)[i as int] == items@[i as int]@);
            }
            self.emit_foreign_item(&items[i]);
            assert(self@ =~= old(self)@ + foreign_items_doc(views(items@), (i + 1) as nat));
            i = i + 1;
        }
    }

    fn item_foreign_mod(&mut self, item: &ItemForeignMod)
        requires
            old(self).wf(),
            foreign_items_ok(views(item.items@)),
        ensures
            final(self)@ == old(self)@ + item_foreign_mod_doc(item@),
            final(self).open() == old(self).open(),
            final(self).wf(),
    {
        self.outer_attrs(&item.attrs);
        self.cbox(INDENT);
        self.word_if(item.unsafety, "unsafe ");
        self.abi(&item.abi);
        self.word("{");
        let ghost head = self@;
        let mark = self.body_begin();
        let ghost inner = inner_attrs_doc(views(item.attrs@)) + foreign_items_doc(
            views(item.items@),
            item.items@.len(),
        );
        self.inner_attrs(&item.attrs);
        self.foreign_items(&item.items);
        assert(self@ =~= head.push(hardbreak()) + inner);
        self.body_end(mark, Ghost(head), Ghost(inner));
        self.hardbreak();
        assert(self@ =~= old(self)@ + item_foreign_mod_doc(item@));
    }

    fn trait_item_const(&mut self, item: &TraitItemConst)
        requires
            old(self).wf(),
        ensures
            final(self)@ == old(self)@ + trait_item_const_doc(item@),
            final(self).open() == old(self).open(),
            final(self).wf(),
    {
        self.outer_attrs(&item.attrs);
        self.cbox(0);
        self.named("const ", &item.ident, &item.generics);
        self.typed(&item.ty);
        let ghost before = self@;
        match &item.default {
            Some(default) => {
                self.word(" = ");
                self.neverbreak();
                self.ident(default);
            },
            None => {},
        }
        assert(self@ =~= before + default_value_doc(text_option(item.default))) by {
            reveal(default_value_doc);
        }
        self.word(";");
        self.end();
        self.hardbreak();
        assert(self@ =~= old(self)@ + trait_item_const_doc(item@));
    }

    fn trait_item_type(&mut self, item: &TraitItemType)
        requires
            old(self).wf(),
        ensures
            final(self)@ == old(self)@ + trait_item_type_doc(item@),
            final(self).open() == old(self).open(),
            final(self).wf(),
    {
        self.outer_attrs(&item.attrs);
        self.cbox(INDENT);
        self.named("type ", &item.ident, &item.generics);
        self.bound_list(&item.bounds, true, true);
        let ghost before = self@;
        match &item.default {
            Some(default) => {
                self.word(" = ");
                self.neverbreak();
                self.ty(default);
            },
            None => {},
        }
        assert(self@ =~= before + default_type_doc(view_option(item.default))) by {
            reveal(default_type_doc);
        }
        self.where_clause_oneline_semi(&item.generics);
        self.end();
        self.hardbreak();
        assert(self@ =~= old(self)@ + trait_item_type_doc(item@));
    }

    fn member_verbatim(&mut self, tokens: &TokenStream)
        requires
            old(self).wf(),
            tokens_of(*tokens).len() == 0,
        ensures
            final(self)@ == old(self)@ + seq![hardbreak()],
            final(self).open() == old(self).open(),
            final(self).wf(),
    {
        self.hardbreak();
        assert(self@ =~= old(self)@ + seq![hardbreak()]);
    }

    fn impl_item_const(&mut self, item: &ImplItemConst)
        requires
            old(self).wf(),
        ensures
            final(self)@ == old(self)@ + impl_item_const_doc(item@),
            final(self).open() == old(self).open(),
            final(self).wf(),
    {
        self.head(&item.attrs, 0, &item.vis);
        self.word_if(item.defaultness, "default ");
        self.named("const ", &item.ident, &item.generics);
        self.typed(&item.ty);
        self.assigned(&item.expr);
        self.end();
        self.hardbreak();
        assert(self@ =~= old(self)@ + impl_item_const_doc(item@));
    }

    fn impl_item_type(&mut self, item: &ImplItemType)
        requires
            old(self).wf(),
        ensures
            final(self)@ == old(self)@ + impl_item_type_doc(item@),
            final(self).open() == old(self).open(),
            final(self).wf(),
    {
        self.head(&item.attrs, INDENT, &item.vis);
        self.word_if(item.defaultness, "default ");
        self.named("type ", &item.ident, &item.generics);
        self.word(" = ");
        self.aliased(&item.ty);
        self.where_clause_oneline_semi(&item.generics);
        self.end();
        self.hardbreak();
        assert(self@ =~= old(self)@ + impl_item_type_doc(item@));
    }

    /// Writes a declaration that has a rendering.
    fn emit(&mut self, item: &Item)
        requires
            old(self).wf(),
            representable(item@),
        ensures
            final(self)@ == old(self)@ + item_doc(item@),
            final(self).open() == old(self).open(),
            final(self).wf(),
        decreases item, 0nat,
    {
        match item {
            Item::Const(item) => self.item_const(item),
            Item::Enum(item) => self.item_enum(item),
            Item::ExternCrate(item) => self.item_extern_crate(item),
            Item::Fn(item) => self.item_fn(item),
            Item::ForeignMod(item) => self.item_foreign_mod(item),
            Item::Impl(item) => self.item_impl(item),
            Item::Macro(item) => self.item_macro(item),
            Item::Mod(item) => self.item_mod(item),
            Item::Static(item) => self.item_static(item),
            Item::Struct(item) => self.item_struct(item),
            Item::Trait(item) => self.item_trait(item),
            Item::TraitAlias(item) => self.item_trait_alias(item),
            Item::Type(item) => self.item_type(item),
            Item::Union(item) => self.item_union(item),
            Item::Use(item) => self.item_use(item),
            Item::Verbatim(item) => self.item_verbatim(item),
            Item::Unknown => {},
        }
    }

    fn item_verbatim(&mut self, tokens: &TokenStream)
        requires
            old(self).wf(),
            item_span_ok(tokens_of(*tokens)),
        ensures
            final(self)@ == old(self)@ + item_span_doc(tokens_of(*tokens)),
            final(self).open() == old(self).open(),
            final(self).wf(),
    {
        self.item_span(tokens);
    }

    fn items(&mut self, items: &Vec<Item>)
        requires
            old(self).wf(),
            items_ok(items_view(*items)),
        ensures
            final(self)@ == old(self)@ + items_doc(items_view(*items), items.len() as nat),
            final(self).open() == old(self).open(),
            final(self).wf(),
        decreases items, 1nat,
    {
        let mut i: usize = 0;
        assert(self@ =~= old(self)@ + items_doc(items_view(*items), 0));
        proof {
            lemma_items_view(*items);
        }
        while i < items.len()
            invariant
                i <= items.len(),
                items_ok(items_view(*items)),
                self@ == old(self)@ + items_doc(items_view(*items), i as nat),
                self.open() == old(self).open(),
                self.wf(),
            decreases items.len() - i,
        {
            proof {
                lemma_items_view(*items);
                assert(items_view(*items)[i as int] == items@[i as int]@);
            }
            self.emit(&items[i]);
            assert(self@ =~= old(self)@ + items_doc(items_view(*items), (i + 1) as nat));
            i = i + 1;
        }
    }

    fn stmt(&mut self, stmt: &Stmt)
        requires
            old(self).wf(),
            stmt_ok(stmt@),
        ensures
            final(self)@ == old(self)@ + stmt_doc(stmt@),
            final(self).open() == old(self).open(),
            final(self).wf(),
        decreases stmt, 0nat,
    {
        match stmt {
            Stmt::Item(item) => {
                self.emit(item);
            },
            Stmt::Other(t) => {
                self.ident(t);
                self.hardbreak();
                assert(self@ =~= old(self)@ + stmt_doc(stmt@));
            },
        }
    }

    /// Writes a function body between its braces.
    fn block(&mut self, attrs: &Vec<Attribute>, stmts: &Vec<Stmt>)
        requires
            old(self).wf(),
            old(self).open() > 0,
            stmts_ok(stmts_view(*stmts)),
        ensures
            final(self)@ == old(self)@ + seq![text("{"@)] + body_doc(block_doc(views(attrs@), stmts_view(*stmts))),
            final(self).open() == old(self).open() - 1,
            final(self).wf(),
        decreases stmts, 1nat,
    {
        self.word("{");
        let ghost head = self@;
        let mark = self.body_begin();
        self.inner_attrs(attrs);
        let ghost start = self@;
        let mut i: usize = 0;
        assert(self@ =~= start + stmts_doc(stmts_view(*stmts), 0));
        proof {
            lemma_stmts_view(*stmts);
        }
        while i < stmts.len()
            invariant
                i <= stmts.len(),
                stmts_ok(stmts_view(*stmts)),
                self@ == start + stmts_doc(stmts_view(*stmts), i as nat),
                self.open() == old(self).open(),
                self.wf(),
            decreases stmts.len() - i,
        {
            proof {
                lemma_stmts_view(*stmts);
                assert(stmts_view(*stmts)[i as int] == stmts@[i as int]@);
            }
            self.stmt(&stmts[i]);
            assert(self@ =~= start + stmts_doc(stmts_view(*stmts), (i + 1) as nat));
            i = i + 1;
        }
        let ghost inner = block_doc(views(attrs@), stmts_view(*stmts));
        assert(self@ =~= head.push(hardbreak()) + inner);
        self.body_end(mark, Ghost(head), Ghost(inner));
        assert(head =~= old(self)@ + seq![text("{"@)]);
    }

    fn item_fn(&mut self, item: &ItemFn)
        requires
            old(self).wf(),
            stmts_ok(stmts_view(item.block)),
        ensures
            final(self)@ == old(self)@ + item_fn_doc(item@),
            final(self).open() == old(self).open(),
            final(self).wf(),
        decreases item, 0nat,
    {
        self.head(&item.attrs, INDENT, &item.vis);
        self.signature(&item.sig);
        self.where_clause_for_body(&item.sig.generics);
        self.block(&item.attrs, &item.block);
        self.hardbreak();
        assert(self@ =~= old(self)@ + item_fn_doc(item@));
    }

    fn item_mod(&mut self, item: &ItemMod)
        requires
            old(self).wf(),
            item.content matches Some(items) ==> items_ok(items_view(items)),
        ensures
            final(self)@ == old(self)@ + item_mod_doc(item@),
            final(self).open() == old(self).open(),
            final(self).wf(),
        decreases item, 0nat,
    {
        self.head(&item.attrs, INDENT, &item.vis);
        reveal(mod_name_doc);
        self.word_if(item.unsafety, "unsafe ");
        self.word("mod ");
        self.ident(&item.ident);
        let ghost named = self@;
        assert(named =~= old(self)@ + head_doc(views(item.attrs@), INDENT as int, item.vis@)
            + mod_name_doc(item.unsafety, item.ident@));
        match &item.content {
            Some(items) => {
                self.word(" {");
                let ghost head = self@;
                let mark = self.body_begin();
                let ghost inner = inner_attrs_doc(views(item.attrs@)) + items_doc(
                    items_view(*items),
                    items.len() as nat,
                );
                self.inner_attrs(&item.attrs);
                self.items(items);
                assert(self@ =~= head.push(hardbreak()) + inner);
                self.body_end(mark, Ghost(head), Ghost(inner));
                assert(self@ =~= named + (seq![text(" {"@)] + body_doc(inner)));
            },
            None => {
                self.word(";");
                self.end();
                assert(self@ =~= named + seq![text(";"@), end()]);
            },
        }
        self.hardbreak();
        assert(self@ =~= old(self)@ + item_mod_doc(item@));
    }

    fn impl_keyword(&mut self, item: &ItemImpl)
        requires
            old(self).wf(),
        ensures
            final(self)@ == old(self)@ + impl_keyword_doc(item@),
            final(self).open() == old(self).open(),
            final(self).wf(),
    {
        reveal(impl_keyword_doc);
        self.cbox(INDENT);
        self.word_if(item.defaultness, "default ");
        self.word_if(item.unsafety, "unsafe ");
        self.word("impl");
        self.generics(&item.generics);
        self.end();
        self.nbsp();
        assert(self@ =~= old(self)@ + impl_keyword_doc(item@));
    }

    fn impl_trait(&mut self, trait_: &Option<ImplTrait>)
        requires
            old(self).wf(),
        ensures
            final(self)@ == old(self)@ + impl_trait_doc(view_option(*trait_)),
            final(self).open() == old(self).open(),
            final(self).wf(),
    {
        reveal(impl_trait_doc);
        match trait_ {
            Some(t) => {
                self.word_if(t.negative, "!");
                self.ident(&t.path);
                self.space();
                self.word("for ");
            },
            None => {},
        }
        assert(self@ =~= old(self)@ + impl_trait_doc(view_option(*trait_)));
    }

    fn impl_header(&mut self, item: &ItemImpl)
        requires
            old(self).wf(),
        ensures
            final(self)@ == old(self)@ + impl_header_doc(item@),
            final(self).open() == old(self).open() + 1,
            final(self).wf(),
    {
        reveal(impl_header_doc);
        self.cbox(INDENT);
        self.ibox(-INDENT);
        self.impl_keyword(item);
        self.impl_trait(&item.trait_);
        self.ty(&item.self_ty);
        self.end();
        assert(self@ =~= old(self)@ + impl_header_doc(item@));
    }

    fn item_impl(&mut self, item: &ItemImpl)
        requires
            old(self).wf(),
            impl_items_ok(impl_items_view(item.items)),
        ensures
            final(self)@ == old(self)@ + item_impl_doc(item@),
            final(self).open() == old(self).open(),
            final(self).wf(),
        decreases item, 0nat,
    {
        self.outer_attrs(&item.attrs);
        self.impl_header(item);
        self.where_clause_for_body(&item.generics);
        self.word("{");
        let ghost head = self@;
        let mark = self.body_begin();
        let ghost inner = inner_attrs_doc(views(item.attrs@)) + impl_items_doc(
            impl_items_view(item.items),
            item.items.len() as nat,
        );
        self.inner_attrs(&item.attrs);
        self.impl_items(&item.items);
        assert(self@ =~= head.push(hardbreak()) + inner);
        self.body_end(mark, Ghost(head), Ghost(inner));
        self.hardbreak();
        assert(self@ =~= old(self)@ + item_impl_doc(item@));
    }

    fn trait_name(&mut self, item: &ItemTrait)
        requires
            old(self).wf(),
        ensures
            final(self)@ == old(self)@ + trait_name_doc(item@),
            final(self).open() == old(self).open(),
            final(self).wf(),
    {
        reveal(trait_name_doc);
        self.word_if(item.unsafety, "unsafe ");
        self.word_if(item.auto_token, "auto ");
        self.named("trait ", &item.ident, &item.generics);
        self.bound_list(&item.supertraits, true, false);
        assert(self@ =~= old(self)@ + trait_name_doc(item@));
    }

    fn item_trait(&mut self, item: &ItemTrait)
        requires
            old(self).wf(),
            trait_items_ok(trait_items_view(item.items)),
        ensures
            final(self)@ == old(self)@ + item_trait_doc(item@),
            final(self).open() == old(self).open(),
            final(self).wf(),
        decreases item, 0nat,
    {
        self.head(&item.attrs, INDENT, &item.vis);
        self.trait_name(item);
        self.where_clause_for_body(&item.generics);
        self.word("{");
        let ghost head = self@;
        let mark = self.body_begin();
        let ghost inner = inner_attrs_doc(views(item.attrs@)) + trait_items_doc(
            trait_items_view(item.items),
            item.items.len() as nat,
        );
        self.inner_attrs(&item.attrs);
        self.trait_items(&item.items);
        assert(self@ =~= head.push(hardbreak()) + inner);
        self.body_end(mark, Ghost(head), Ghost(inner));
        self.hardbreak();
        assert(self@ =~= old(self)@ + item_trait_doc(item@));
    }

    fn emit_trait_item(&mut self, item: &TraitItem)
        requires
            old(self).wf(),
            trait_item_ok(item@),
        ensures
            final(self)@ == old(self)@ + trait_item_doc(item@),
            final(self).open() == old(self).open(),
            final(self).wf(),
        decreases item, 0nat,
    {
        match item {
            TraitItem::Const(item) => self.trait_item_const(item),
            TraitItem::Fn(item) => self.trait_item_fn(item),
            TraitItem::Type(item) => self.trait_item_type(item),
            TraitItem::Macro(item) => self.member_macro(item),
            TraitItem::Verbatim(item) => self.member_verbatim(item),
            TraitItem::Unknown => {},
        }
    }

    fn trait_items(&mut self, items: &Vec<TraitItem>)
        requires
            old(self).wf(),
            trait_items_ok(trait_items_view(*items)),
        ensures
            final(self)@ == old(self)@ + trait_items_doc(trait_items_view(*items), items.len() as nat),
            final(self).open() == old(self).open(),
            final(self).wf(),
        decreases items, 1nat,
    {
        let mut i: usize = 0;
        assert(self@ =~= old(self)@ + trait_items_doc(trait_items_view(*items), 0));
        proof {
            lemma_trait_items_view(*items);
        }
        while i < items.len()
            invariant
                i <= items.len(),
                trait_items_ok(trait_items_view(*items)),
                self@ == old(self)@ + trait_items_doc(trait_items_view(*items), i as nat),
                self.open() == old(self).open(),
                self.wf(),
            decreases items.len() - i,
        {
            proof {
                lemma_trait_items_view(*items);
                assert(trait_items_view(*items)[i as int] == items@[i as int]@);
            }
            self.emit_trait_item(&items[i]);
            assert(self@ =~= old(self)@ + trait_items_doc(trait_items_view(*items), (i + 1) as nat));
            i = i + 1;
        }
    }

    fn trait_item_fn(&mut self, item: &TraitItemFn)
        requires
            old(self).wf(),
            item.default matches Some(block) ==> stmts_ok(stmts_view(block)),
        ensures
            final(self)@ == old(self)@ + trait_item_fn_doc(item@),
            final(self).open() == old(self).open(),
            final(self).wf(),
        decreases item, 0nat,
    {
        self.outer_attrs(&item.attrs);
        self.cbox(INDENT);
        self.signature(&item.sig);
        let ghost signed = self@;
        assert(signed =~= old(self)@ + outer_attrs_doc(views(item.attrs@)) + seq![cbox(INDENT as int)]
            + signature_doc(item.sig@));
        match &item.default {
            Some(block) => {
                self.where_clause_for_body(&item.sig.generics);
                self.block(&item.attrs, block);
                assert(self@ =~= signed + (where_for_body_doc(item.sig@.generics) + seq![text("{"@)]
                    + body_doc(block_doc(views(item.attrs@), stmts_view(*block)))));
            },
            None => {
                self.where_clause_semi(&item.sig.generics);
                self.end();
                assert(self@ =~= signed + (where_semi_doc(item.sig@.generics) + seq![end()]));
            },
        }
        self.hardbreak();
        assert(self@ =~= old(self)@ + trait_item_fn_doc(item@));
    }

    fn emit_impl_item(&mut self, item: &ImplItem)
        requires
            old(self).wf(),
            impl_item_ok(item@),
        ensures
            final(self)@ == old(self)@ + impl_item_doc(item@),
            final(self).open() == old(self).open(),
            final(self).wf(),
        decreases item, 0nat,
    {
        match item {
            ImplItem::Const(item) => self.impl_item_const(item),
            ImplItem::Fn(item) => self.impl_item_fn(item),
            ImplItem::Type(item) => self.impl_item_type(item),
            ImplItem::Macro(item) => self.member_macro(item),
            ImplItem::Verbatim(item) => self.member_verbatim(item),
            ImplItem::Unknown => {},
        }
    }

    fn impl_items(&mut self, items: &Vec<ImplItem>)
        requires
            old(self).wf(),
            impl_items_ok(impl_items_view(*items)),
        ensures
            final(self)@ == old(self)@ + impl_items_doc(impl_items_view(*items), items.len() as nat),
            final(self).open() == old(self).open(),
            final(self).wf(),
        decreases items, 1nat,
    {
        let mut i: usize = 0;
        assert(self@ =~= old(self)@ + impl_items_doc(impl_items_view(*items), 0));
        proof {
            lemma_impl_items_view(*items);
        }
        while i < items.len()
            invariant
                i <= items.len(),
                impl_items_ok(impl_items_view(*items)),
                self@ == old(self)@ + impl_items_doc(impl_items_view(*items), i as nat),
                self.open() == old(self).open(),
                self.wf(),
            decreases items.len() - i,
        {
            proof {
                lemma_impl_items_view(*items);
                assert(impl_items_view(*items)[i as int] == items@[i as int]@);
            }
            self.emit_impl_item(&items[i]);
            assert(self@ =~= old(self)@ + impl_items_doc(impl_items_view(*items), (i + 1) as nat));
            i = i + 1;
        }
    }

    fn impl_item_fn(&mut self, item: &ImplItemFn)
        requires
            old(self).wf(),
            is_stub(stmts_view(item.block)) || stmts_ok(stmts_view(item.block)),
        ensures
            final(self)@ == old(self)@ + impl_item_fn_doc(item@),
            final(self).open() == old(self).open(),
            final(self).wf(),
        decreases item, 0nat,
    {
        self.head(&item.attrs, INDENT, &item.vis);
        self.word_if(item.defaultness, "default ");
        self.signature(&item.sig);
        let ghost signed = self@;
        assert(signed =~= old(self)@ + head_doc(views(item.attrs@), INDENT as int, item.vis@)
            + flag_doc(item.defaultness, "default "@) + signature_doc(item.sig@));
        if block_is_stub(&item.block) {
            self.where_clause_semi(&item.sig.generics);
            self.end();
            assert(self@ =~= signed + (where_semi_doc(item.sig@.generics) + seq![end()]));
        } else {
            self.where_clause_for_body(&item.sig.generics);
            self.block(&item.attrs, &item.block);
            assert(self@ =~= signed + (where_for_body_doc(item.sig@.generics) + seq![text("{"@)]
                + body_doc(block_doc(views(item.attrs@), stmts_view(item.block)))));
        }
        self.hardbreak();
        assert(self@ =~= old(self)@ + impl_item_fn_doc(item@));
    }

    /// Writes a declaration inside an `extern` block.
    ///
    /// A declaration without a rendering is refused, and nothing is written.
    pub fn foreign_item(&mut self, item: &ForeignItem) -> (r: Result<(), Error>)
        requires
            old(self).wf(),
        ensures
            r is Ok <==> foreign_item_ok(item@),
            r is Ok ==> final(self)@ == old(self)@ + foreign_item_doc(item@),
            r matches Err(e) ==> e == Error::Unrepresentable && final(self)@ == old(self)@,
            final(self).open() == old(self).open(),
            final(self).wf(),
    {
        if !foreign_item_printable(item) {
            return Err(Error::Unrepresentable);
        }
        self.emit_foreign_item(item);
        Ok(())
    }

    /// Writes a member of a trait.
    ///
    /// A member without a rendering is refused, and nothing is written.
    pub fn trait_item(&mut self, item: &TraitItem) -> (r: Result<(), Error>)
        requires
            old(self).wf(),
        ensures
            r is Ok <==> trait_item_ok(item@),
            r is Ok ==> final(self)@ == old(self)@ + trait_item_doc(item@),
            r matches Err(e) ==> e == Error::Unrepresentable && final(self)@ == old(self)@,
            final(self).open() == old(self).open(),
            final(self).wf(),
    {
        if !trait_item_printable(item) {
            return Err(Error::Unrepresentable);
        }
        self.emit_trait_item(item);
        Ok(())
    }

    /// Writes a member of an implementation.
    ///
    /// A member without a rendering is refused, and nothing is written.
    pub fn impl_item(&mut self, item: &ImplItem) -> (r: Result<(), Error>)
        requires
            old(self).wf(),
        ensures
            r is Ok <==> impl_item_ok(item@),
            r is Ok ==> final(self)@ == old(self)@ + impl_item_doc(item@),
            r matches Err(e) ==> e == Error::Unrepresentable && final(self)@ == old(self)@,
            final(self).open() == old(self).open(),
            final(self).wf(),
    {
        if !impl_item_printable(item) {
            return Err(Error::Unrepresentable);
        }
        self.emit_impl_item(item);
        Ok(())
    }

    /// Writes a declaration.
    ///
    /// A declaration without a rendering is refused, and nothing is written.
    pub fn item(&mut self, item: &Item) -> (r: Result<(), Error>)
        requires
            old(self).wf(),
        ensures
            r is Ok <==> representable(item@),
            r is Ok ==> final(self)@ == old(self)@ + item_doc(item@),
            r matches Err(e) ==> e == Error::Unrepresentable && final(self)@ == old(self)@,
            final(self).open() == old(self).open(),
            final(self).wf(),
    {
        if !printable(item) {
            return Err(Error::Unrepresentable);
        }
        self.emit(item);
        Ok(())
    }
}

/// The width of a line where none is asked for.
pub const DEFAULT_WIDTH: u32 = 100;

/// Renders a sequence of declarations as text, under the maximum width
/// `max_width`.
///
/// Where one of the declarations has no rendering, there is no text at all.
/// Else the text is the layout of the streams of the declarations, one after
/// the other. A line of it that is longer than the width holds something
/// written outside the fitting regions that passes the width.
pub fn unparse(items: &Vec<Item>, max_width: u32) -> (r: Result<String, Error>)
    ensures
        r is Ok <==> items_ok(items_view(*items)),
        r matches Ok(text) ==> text@ == layout(
            items_doc(items_view(*items), items.len() as nat),
            max_width as nat,
        ) && long_lines_are_loose(
            items_doc(items_view(*items), items.len() as nat),
            max_width as nat,
            text@,
        ),
        r matches Err(e) ==> e == Error::Unrepresentable,
{
    if !items_printable(items) {
        return Err(Error::Unrepresentable);
    }
    let mut p = Printer::new();
    p.items(items);
    assert(p@ =~= items_doc(items_view(*items), items.len() as nat));
    Ok(p.eof(max_width))
}

} // verus!
