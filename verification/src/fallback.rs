//! The fallback for token spans: a declaration that the tree could only keep
//! as tokens is matched against the few shapes known for its place, and
//! rendered by the ordinary rules where one of them fits. A span that fits
//! none has no rendering; it is never written out as it stands.

use vstd::prelude::*;
use crate::doc::{cbox, end, hardbreak, ibox, offset, text, zerobreak, Op};
use crate::item::{
    assigned_doc, flag_doc, head_doc, item_type_doc, signature_doc, static_name_doc, use_ends_in_group,
    use_separator_doc, use_tree_doc,
};
use crate::parse::{parse_params, parse_signature, parse_where, params_at, params_end, signature_between, skip, where_at, word_at};
use crate::parts::{outer_attrs_doc, visibility_doc, where_semi_doc};
use crate::printer::{trailing_comma_doc, Printer, INDENT};
use crate::scan::{
    attrs_at, attrs_end, find, find_stop, parse_attrs, parse_type, parse_vis, prepend, type_between,
    vis_at, vis_end, Stop,
};
use crate::syntax::{is_expr, is_signature, is_type_alias, parses_as_expr, parses_as_signature, parses_as_type_alias};
use crate::token::{
    is_joint, is_name, is_punct, is_word, run_text, span_tokens, text_between, token_is_joint, token_is_punct,
    token_is_name, token_is_word, tokens_of, tokens_view, Bracket, Token, TokenView,
};
use proc_macro2::TokenStream;
use crate::tree::{
    use_trees_view, view_option, views, Attribute, AttributeView, Generics, GenericsView, ItemType,
    ItemTypeView, Signature, SignatureView, UseTree, UseTreeView, Visibility, VisibilityView,
};

verus! {

/// One of the trees of an import whose braces stand at the root.
#[derive(Debug)]
pub struct RootUseTree {
    pub leading_colon: bool,
    pub inner: UseTree,
}

/// The value of a tree of a root import.
pub struct RootUseTreeView {
    pub leading_colon: bool,
    pub inner: UseTreeView,
}

impl View for RootUseTree {
    type V = RootUseTreeView;

    open spec fn view(&self) -> RootUseTreeView {
        RootUseTreeView { leading_colon: self.leading_colon, inner: self.inner@ }
    }
}

/// The shapes that a span in the place of a declaration can have.
#[derive(Debug)]
pub enum ItemVerbatim {
    /// No token at all.
    Empty,
    /// A function signature without a body, ended by a semicolon.
    FnSignature { attrs: Vec<Attribute>, vis: Visibility, sig: Signature },
    /// A static without a declared type, with its initial value.
    StaticUntyped { attrs: Vec<Attribute>, vis: Visibility, mutability: bool, ident: String, expr: String },
    /// An import whose braces stand at the root.
    UseBrace { attrs: Vec<Attribute>, vis: Visibility, trees: Vec<RootUseTree> },
}

/// The value of a shape.
pub enum ItemShape {
    Empty,
    FnSignature { attrs: Seq<AttributeView>, vis: VisibilityView, sig: SignatureView },
    StaticUntyped {
        attrs: Seq<AttributeView>,
        vis: VisibilityView,
        mutability: bool,
        ident: Seq<char>,
        expr: Seq<char>,
    },
    UseBrace { attrs: Seq<AttributeView>, vis: VisibilityView, trees: Seq<RootUseTreeView> },
}

impl View for ItemVerbatim {
    type V = ItemShape;

    open spec fn view(&self) -> ItemShape {
        match *self {
            ItemVerbatim::Empty => ItemShape::Empty,
            ItemVerbatim::FnSignature { attrs, vis, sig } => ItemShape::FnSignature {
                attrs: views(attrs@),
                vis: vis@,
                sig: sig@,
            },
            ItemVerbatim::StaticUntyped { attrs, vis, mutability, ident, expr } => ItemShape::StaticUntyped {
                attrs: views(attrs@),
                vis: vis@,
                mutability,
                ident: ident@,
                expr: expr@,
            },
            ItemVerbatim::UseBrace { attrs, vis, trees } => ItemShape::UseBrace {
                attrs: views(attrs@),
                vis: vis@,
                trees: views(trees@),
            },
        }
    }
}

/// A path separator `::` stands at `a`.
pub open spec fn path_sep_at(t: Seq<TokenView>, a: int, b: int) -> bool {
    a + 1 < b && is_punct(t[a], ':') && is_joint(t[a]) && is_punct(t[a + 1], ':')
}

/// The token can stand for a segment of an import: an identifier that can
/// name something, or one of `self`, `super`, `crate` and `try`.
pub open spec fn names_import(tok: TokenView) -> bool {
    is_name(tok) || is_word(tok, "self"@) || is_word(tok, "super"@) || is_word(tok, "crate"@)
        || is_word(tok, "try"@)
}

/// The token can stand behind `as` in an import: an identifier that can name
/// something, or `_`.
pub open spec fn renames_import(tok: TokenView) -> bool {
    is_name(tok) || is_word(tok, "_"@)
}

/// The use tree that the run from `a` up to `b` holds, if it is one: `*`, a
/// group between braces, a name, a name with a new name behind `as`, or a
/// name with a tree behind `::`.
pub open spec fn use_tree_between(t: Seq<TokenView>, a: int, b: int) -> Option<UseTreeView>
    decreases t, b - a, 0nat,
{
    if a < 0 || a >= b || b > t.len() {
        None
    } else if b == a + 1 && is_punct(t[a], '*') {
        Some(UseTreeView::Glob)
    } else if b == a + 1 && t[a] is Group {
        if t[a]->Group_0 == Bracket::Brace {
            match use_trees_in(t[a]->Group_1) {
                Some(items) => Some(UseTreeView::Group(items)),
                None => None,
            }
        } else {
            None
        }
    } else if names_import(t[a]) {
        if b == a + 1 {
            Some(UseTreeView::Name(t[a]->Ident_0))
        } else if b == a + 3 && is_word(t[a + 1], "as"@) && renames_import(t[a + 2]) {
            Some(UseTreeView::Rename(t[a]->Ident_0, t[a + 2]->Ident_0))
        } else if b > a + 3 && path_sep_at(t, a + 1, b) {
            match use_tree_between(t, a + 3, b) {
                Some(tree) => Some(UseTreeView::Path(t[a]->Ident_0, Box::new(tree))),
                None => None,
            }
        } else {
            None
        }
    } else {
        None
    }
}

/// The use trees that a group holds.
pub open spec fn use_trees_in(g: Seq<TokenView>) -> Option<Seq<UseTreeView>>
    decreases g, g.len() + 1, 0nat,
{
    use_trees_between(g, 0, g.len() as int)
}

/// The use trees that the run from `from` up to `to` holds, cut at its
/// commas. A comma may end the run.
pub open spec fn use_trees_between(t: Seq<TokenView>, from: int, to: int) -> Option<Seq<UseTreeView>>
    decreases t, to - from, 1nat,
{
    if from >= to {
        Some(seq![])
    } else {
        let k = find(t, from, to, Stop::Comma);
        if k <= from || k > to {
            None
        } else {
            match use_tree_between(t, from, k) {
                None => None,
                Some(tree) => if k >= to {
                    Some(seq![tree])
                } else {
                    prepend(seq![tree], use_trees_between(t, k + 1, to))
                },
            }
        }
    }
}

fn import_name(tok: &Token) -> (r: bool)
    ensures
        r == names_import(tok@),
{
    token_is_name(tok) || token_is_word(tok, "self") || token_is_word(tok, "super") || token_is_word(
        tok,
        "crate",
    ) || token_is_word(tok, "try")
}

/// Reads the run from `a` up to `b` as a use tree.
pub fn parse_use_tree(toks: &Vec<Token>, a: usize, b: usize) -> (r: Option<UseTree>)
    requires
        a <= b <= toks.len(),
    ensures
        view_option(r) == use_tree_between(tokens_view(*toks), a as int, b as int),
    decreases toks, b - a, 0nat,
{
    if a >= b {
        return None;
    }
    if b - a == 1 && token_is_punct(&toks[a], '*') {
        return Some(UseTree::Glob);
    }
    match &toks[a] {
        Token::Group(bracket, g) => {
            if b - a != 1 {
                return None;
            }
            assert(use_trees_in(tokens_view(*g)) == use_trees_between(
                tokens_view(*g),
                0,
                g.len() as int,
            ));
            match bracket {
                Bracket::Brace => match parse_use_trees(g, 0, g.len()) {
                    Some(items) => Some(UseTree::Group(items)),
                    None => None,
                },
                _ => None,
            }
        },
        Token::Ident(name) => {
            if !import_name(&toks[a]) {
                None
            } else if b - a == 1 {
                Some(UseTree::Name(name.clone()))
            } else if b - a == 3 && token_is_word(&toks[a + 1], "as") {
                match &toks[a + 2] {
                    Token::Ident(rename) => if token_is_name(&toks[a + 2]) || token_is_word(
                        &toks[a + 2],
                        "_",
                    ) {
                        Some(UseTree::Rename(name.clone(), rename.clone()))
                    } else {
                        None
                    },
                    _ => None,
                }
            } else if b - a > 3 && token_is_punct(&toks[a + 1], ':') && token_is_joint(&toks[a + 1])
                && token_is_punct(&toks[a + 2], ':') {
                match parse_use_tree(toks, a + 3, b) {
                    Some(tree) => Some(UseTree::Path(name.clone(), Box::new(tree))),
                    None => None,
                }
            } else {
                None
            }
        },
        _ => None,
    }
}

/// Reads the use trees that the run from `from` up to `to` holds.
pub fn parse_use_trees(toks: &Vec<Token>, from: usize, to: usize) -> (r: Option<Vec<UseTree>>)
    requires
        from <= to <= toks.len(),
    ensures
        match r {
            Some(items) => use_trees_between(tokens_view(*toks), from as int, to as int) == Some(use_trees_view(items)),
            None => use_trees_between(tokens_view(*toks), from as int, to as int) is None,
        },
    decreases toks, to - from, 1nat,
{
    let mut out: Vec<UseTree> = Vec::new();
    let mut cur: usize = from;
    let ghost goal = use_trees_between(tokens_view(*toks), from as int, to as int);
    assert(goal == prepend(use_trees_view(out), use_trees_between(tokens_view(*toks), cur as int, to as int))) by {
        let tail = use_trees_between(tokens_view(*toks), cur as int, to as int);
        if tail is Some {
            assert(use_trees_view(out) + tail->0 =~= tail->0);
        }
    }
    while cur < to
        invariant
            from <= cur <= to <= toks.len(),
            goal == use_trees_between(tokens_view(*toks), from as int, to as int),
            goal == prepend(use_trees_view(out), use_trees_between(tokens_view(*toks), cur as int, to as int)),
        decreases to - cur,
    {
        let k = find_stop(toks, cur, to, Stop::Comma);
        if k == cur {
            return None;
        }
        let tree = match parse_use_tree(toks, cur, k) {
            Some(tree) => tree,
            None => {
                return None;
            },
        };
        let ghost before = out;
        out.push(tree);
        proof {
            assert(use_trees_view(out) =~= use_trees_view(before).push(tree@));
            assert(use_trees_view(before) + seq![tree@] =~= use_trees_view(out));
            let tail = use_trees_between(tokens_view(*toks), k + 1, to as int);
            if k < to && tail is Some {
                assert(use_trees_view(before) + (seq![tree@] + tail->0) =~= use_trees_view(out) + tail->0);
            }
        }
        if k == to {
            return Some(out);
        }
        cur = k + 1;
    }
    assert(use_trees_view(out) + seq![] =~= use_trees_view(out));
    Some(out)
}

/// The tree of a root import that the run from `from` up to `to` holds, with
/// or without a `::` before it.
pub open spec fn root_tree_between(t: Seq<TokenView>, from: int, to: int) -> Option<RootUseTreeView> {
    let start = if path_sep_at(t, from, to) {
        from + 2
    } else {
        from
    };
    match use_tree_between(t, start, to) {
        Some(inner) => Some(RootUseTreeView { leading_colon: path_sep_at(t, from, to), inner }),
        None => None,
    }
}

/// The trees of a root import that the run from `from` up to `to` holds, cut
/// at its commas. A comma may end the run.
pub open spec fn root_trees_between(t: Seq<TokenView>, from: int, to: int) -> Option<Seq<RootUseTreeView>>
    decreases to - from,
{
    if from >= to {
        Some(seq![])
    } else {
        let k = find(t, from, to, Stop::Comma);
        if k <= from || k > to {
            None
        } else {
            match root_tree_between(t, from, k) {
                None => None,
                Some(tree) => if k >= to {
                    Some(seq![tree])
                } else {
                    prepend(seq![tree], root_trees_between(t, k + 1, to))
                },
            }
        }
    }
}

fn parse_root_tree(toks: &Vec<Token>, from: usize, to: usize) -> (r: Option<RootUseTree>)
    requires
        from <= to <= toks.len(),
    ensures
        view_option(r) == root_tree_between(tokens_view(*toks), from as int, to as int),
{
    let leading_colon: bool = to - from > 1 && token_is_punct(&toks[from], ':') && token_is_joint(
        &toks[from],
    ) && token_is_punct(&toks[from + 1], ':');
    let start: usize = if leading_colon {
        from + 2
    } else {
        from
    };
    match parse_use_tree(toks, start, to) {
        Some(inner) => Some(RootUseTree { leading_colon, inner }),
        None => None,
    }
}

/// Reads the trees of a root import that the run from `from` up to `to`
/// holds.
pub fn parse_root_trees(toks: &Vec<Token>, from: usize, to: usize) -> (r: Option<Vec<RootUseTree>>)
    requires
        from <= to <= toks.len(),
    ensures
        match r {
            Some(trees) => root_trees_between(tokens_view(*toks), from as int, to as int) == Some(views(trees@)),
            None => root_trees_between(tokens_view(*toks), from as int, to as int) is None,
        },
{
    let mut out: Vec<RootUseTree> = Vec::new();
    let mut cur: usize = from;
    let ghost goal = root_trees_between(tokens_view(*toks), from as int, to as int);
    assert(goal == prepend(views(out@), root_trees_between(tokens_view(*toks), cur as int, to as int))) by {
        let tail = root_trees_between(tokens_view(*toks), cur as int, to as int);
        if tail is Some {
            assert(views(out@) + tail->0 =~= tail->0);
        }
    }
    while cur < to
        invariant
            from <= cur <= to <= toks.len(),
            goal == root_trees_between(tokens_view(*toks), from as int, to as int),
            goal == prepend(views(out@), root_trees_between(tokens_view(*toks), cur as int, to as int)),
        decreases to - cur,
    {
        let k = find_stop(toks, cur, to, Stop::Comma);
        if k == cur {
            return None;
        }
        let tree = match parse_root_tree(toks, cur, k) {
            Some(tree) => tree,
            None => {
                return None;
            },
        };
        proof {
            crate::tree::lemma_views_push(out@, tree);
            assert(views(out@) + seq![tree@] =~= views(out@).push(tree@));
            let tail = root_trees_between(tokens_view(*toks), k + 1, to as int);
            if k < to && tail is Some {
                assert(views(out@) + (seq![tree@] + tail->0) =~= views(out@).push(tree@) + tail->0);
            }
        }
        out.push(tree);
        if k == to {
            return Some(out);
        }
        cur = k + 1;
    }
    assert(views(out@) + seq![] =~= views(out@));
    Some(out)
}

/// The static without a type whose `static` stands at `q`: `mut` where it
/// applies, the name, `=`, the value, and the semicolon that ends the run.
/// The value is kept as text; `expr_ok` says whether it is an expression.
pub open spec fn static_between(
    t: Seq<TokenView>,
    q: int,
    to: int,
    attrs: Seq<AttributeView>,
    vis: VisibilityView,
    expr_ok: bool,
) -> Option<ItemShape> {
    let i = skip(t, q + 1, to, "mut"@);
    if i + 3 < to && is_name(t[i]) && is_punct(t[i + 1], '=') && is_punct(t[to - 1], ';') && expr_ok {
        Some(
            ItemShape::StaticUntyped {
                attrs,
                vis,
                mutability: word_at(t, q + 1, to, "mut"@),
                ident: t[i]->Ident_0,
                expr: text_between(t, i + 2, to - 1, false),
            },
        )
    } else {
        None
    }
}

/// The token is one of the words that a function signature starts with.
pub open spec fn starts_signature(tok: TokenView) -> bool {
    is_word(tok, "const"@) || is_word(tok, "async"@) || is_word(tok, "unsafe"@) || is_word(
        tok,
        "extern"@,
    ) || is_word(tok, "fn"@)
}

/// The import with braces at the root whose `use` stands at `q`.
pub open spec fn use_brace_between(
    t: Seq<TokenView>,
    q: int,
    to: int,
    attrs: Seq<AttributeView>,
    vis: VisibilityView,
) -> Option<ItemShape> {
    if q + 3 == to && t[q + 1] is Group && t[q + 1]->Group_0 == Bracket::Brace && is_punct(t[q + 2], ';') {
        match root_trees_between(t[q + 1]->Group_1, 0, t[q + 1]->Group_1.len() as int) {
            Some(trees) => Some(ItemShape::UseBrace { attrs, vis, trees }),
            None => None,
        }
    } else {
        None
    }
}

/// The place where the declaration of a span starts, behind its attributes
/// and its visibility.
pub open spec fn item_start(t: Seq<TokenView>) -> int {
    vis_end(t, attrs_end(t, 0, t.len() as int), t.len() as int)
}

/// Where the signature of a span starts, if the span holds one: at its
/// declaration.
pub open spec fn signature_from(t: Seq<TokenView>) -> int {
    if item_start(t) < t.len() {
        item_start(t)
    } else {
        0
    }
}

/// How many tokens the signature of a span has, if the span holds one: all
/// from its start on but the last.
pub open spec fn signature_count(t: Seq<TokenView>) -> int {
    if item_start(t) < t.len() {
        t.len() - 1 - item_start(t)
    } else {
        0
    }
}

/// The place of the name in a span that holds a static: behind `static` and
/// `mut`.
pub open spec fn static_name_place(t: Seq<TokenView>) -> int {
    skip(t, item_start(t) + 1, t.len() as int, "mut"@)
}

/// Where the value of a span starts, if the span holds a static: behind the
/// name and the `=`.
pub open spec fn value_from(t: Seq<TokenView>) -> int {
    if static_name_place(t) + 3 < t.len() {
        static_name_place(t) + 2
    } else {
        0
    }
}

/// How many tokens the value of a span has, if the span holds a static: all
/// from its start on but the last.
pub open spec fn value_count(t: Seq<TokenView>) -> int {
    if static_name_place(t) + 3 < t.len() {
        t.len() - 3 - static_name_place(t)
    } else {
        0
    }
}

/// The shape of a span in the place of a declaration, given what the outside
/// parser says of its parts: whether the tokens that would be its signature
/// are one, and whether the tokens that would be its value are an
/// expression. Behind attributes and a visibility, the next word decides
/// which shape is tried; no other is tried after it.
pub open spec fn item_shape_with(t: Seq<TokenView>, signature_ok: bool, expr_ok: bool) -> Option<
    ItemShape,
> {
    let to = t.len() as int;
    let p = attrs_end(t, 0, to);
    let attrs = attrs_at(t, 0, to);
    let vis = vis_at(t, p, to);
    let q = item_start(t);
    if to == 0 {
        Some(ItemShape::Empty)
    } else if q >= to {
        None
    } else if starts_signature(t[q]) {
        if is_punct(t[to - 1], ';') && signature_ok {
            match signature_between(t, q, to - 1) {
                Some(sig) => Some(ItemShape::FnSignature { attrs, vis, sig }),
                None => None,
            }
        } else {
            None
        }
    } else if is_word(t[q], "static"@) {
        static_between(t, q, to, attrs, vis, expr_ok)
    } else if is_word(t[q], "use"@) {
        use_brace_between(t, q, to, attrs, vis)
    } else {
        None
    }
}

/// The shape of a span in the place of a declaration, if it has one of the
/// known shapes: no token at all; or, behind attributes and a visibility, a
/// function signature and a semicolon, a static without a type with its
/// value, or an import whose braces stand at the root.
pub open spec fn item_shape(t: Seq<TokenView>) -> Option<ItemShape> {
    item_shape_with(
        t,
        is_signature(t, signature_from(t), signature_count(t)),
        is_expr(t, value_from(t), value_count(t)),
    )
}

fn parse_static(toks: &Vec<Token>, q: usize, attrs: Vec<Attribute>, vis: Visibility, expr_ok: bool) -> (r:
    Option<ItemVerbatim>)
    requires
        q < toks.len(),
    ensures
        view_option(r) == static_between(
            tokens_view(*toks),
            q as int,
            toks@.len() as int,
            views(attrs@),
            vis@,
            expr_ok,
        ),
{
    let to = toks.len();
    let mutability: bool = to - q > 1 && token_is_word(&toks[q + 1], "mut");
    let i: usize = if mutability {
        q + 2
    } else {
        q + 1
    };
    if !(i < to && to - i > 3) {
        return None;
    }
    let ident: String = match &toks[i] {
        Token::Ident(name) => name.clone(),
        _ => {
            return None;
        },
    };
    if token_is_name(&toks[i]) && token_is_punct(&toks[i + 1], '=') && token_is_punct(&toks[to - 1], ';')
        && expr_ok {
        let expr = run_text(toks, i + 2, to - 1, false);
        Some(ItemVerbatim::StaticUntyped { attrs, vis, mutability, ident, expr })
    } else {
        None
    }
}

fn parse_use_brace(toks: &Vec<Token>, q: usize, attrs: Vec<Attribute>, vis: Visibility) -> (r: Option<
    ItemVerbatim,
>)
    requires
        q < toks.len(),
    ensures
        view_option(r) == use_brace_between(tokens_view(*toks), q as int, toks@.len() as int, views(attrs@), vis@),
{
    let to = toks.len();
    if !(to - q == 3 && token_is_punct(&toks[q + 2], ';')) {
        return None;
    }
    match &toks[q + 1] {
        Token::Group(bracket, g) => match bracket {
            Bracket::Brace => match parse_root_trees(g, 0, g.len()) {
                Some(trees) => Some(ItemVerbatim::UseBrace { attrs, vis, trees }),
                None => None,
            },
            _ => None,
        },
        _ => None,
    }
}

fn is_signature_start(tok: &Token) -> (r: bool)
    ensures
        r == starts_signature(tok@),
{
    token_is_word(tok, "const") || token_is_word(tok, "async") || token_is_word(tok, "unsafe")
        || token_is_word(tok, "extern") || token_is_word(tok, "fn")
}

/// Matches the tokens of a span in the place of a declaration against the
/// known shapes, given what the outside parser says of its parts.
pub fn shape_of(toks: &Vec<Token>, signature_ok: bool, expr_ok: bool) -> (r: Option<ItemVerbatim>)
    ensures
        view_option(r) == item_shape_with(tokens_view(*toks), signature_ok, expr_ok),
{
    let to = toks.len();
    if to == 0 {
        return Some(ItemVerbatim::Empty);
    }
    let (attrs, p) = parse_attrs(toks, 0, to);
    let (vis, q) = parse_vis(toks, p, to);
    if q >= to {
        return None;
    }
    if is_signature_start(&toks[q]) {
        if token_is_punct(&toks[to - 1], ';') && signature_ok {
            match parse_signature(toks, q, to - 1) {
                Some(sig) => Some(ItemVerbatim::FnSignature { attrs, vis, sig }),
                None => None,
            }
        } else {
            None
        }
    } else if token_is_word(&toks[q], "static") {
        parse_static(toks, q, attrs, vis, expr_ok)
    } else if token_is_word(&toks[q], "use") {
        parse_use_brace(toks, q, attrs, vis)
    } else {
        None
    }
}

/// Finds the tokens of a span that would be its signature: where they start,
/// and how many they are.
pub fn signature_run(toks: &Vec<Token>) -> (r: (usize, usize))
    ensures
        r.0 == signature_from(tokens_view(*toks)),
        r.1 == signature_count(tokens_view(*toks)),
        r.0 + r.1 <= toks.len(),
{
    let to = toks.len();
    let (_, p) = parse_attrs(toks, 0, to);
    let (_, q) = parse_vis(toks, p, to);
    if q < to {
        (q, to - 1 - q)
    } else {
        (0, 0)
    }
}

/// Finds the tokens of a span that would be the value of its static: where
/// they start, and how many they are.
pub fn value_run(toks: &Vec<Token>) -> (r: (usize, usize))
    ensures
        r.0 == value_from(tokens_view(*toks)),
        r.1 == value_count(tokens_view(*toks)),
        r.0 + r.1 <= toks.len(),
{
    let to = toks.len();
    let (_, p) = parse_attrs(toks, 0, to);
    let (_, q) = parse_vis(toks, p, to);
    if q >= to {
        return (0, 0);
    }
    let i: usize = if to - q > 1 && token_is_word(&toks[q + 1], "mut") {
        q + 2
    } else {
        q + 1
    };
    if i < to && to - i > 3 {
        (i + 2, to - 3 - i)
    } else {
        (0, 0)
    }
}

/// Matches a span in the place of a declaration against the known shapes.
pub fn parse_item_span(ts: &TokenStream) -> (r: Option<ItemVerbatim>)
    ensures
        view_option(r) == item_shape(tokens_of(*ts)),
{
    let toks = span_tokens(ts);
    let (from, count) = signature_run(&toks);
    let signature_ok = parses_as_signature(ts, from, count);
    let (from, count) = value_run(&toks);
    let expr_ok = parses_as_expr(ts, from, count);
    shape_of(&toks, signature_ok, expr_ok)
}

/// The type alias that a span in the place of a foreign declaration holds,
/// given whether the outside parser takes the span for one: `type`, the
/// name, generic parameters, a `where` clause, `=`, the type, and a
/// semicolon.
pub open spec fn foreign_shape_with(t: Seq<TokenView>, alias_ok: bool) -> Option<ItemTypeView> {
    let to = t.len() as int;
    let p = attrs_end(t, 0, to);
    let q = vis_end(t, p, to);
    let e = to - 1;
    if !(q + 1 < e && is_word(t[q], "type"@) && t[q + 1] is Ident && is_punct(t[e], ';') && alias_ok) {
        None
    } else {
        let q3 = params_end(t, q + 2, e);
        let eq = find(t, q3, e, Stop::Equals);
        if params_at(t, q + 2, e) is None || q3 > e || where_at(t, q3, eq) is None || !(eq + 1 < e) {
            None
        } else {
            Some(
                ItemTypeView {
                    attrs: attrs_at(t, 0, to),
                    vis: vis_at(t, p, to),
                    ident: t[q + 1]->Ident_0,
                    generics: GenericsView {
                        params: params_at(t, q + 2, e)->0,
                        where_clause: where_at(t, q3, eq)->0,
                    },
                    ty: type_between(t, eq + 1, e),
                },
            )
        }
    }
}

/// The type alias that a span in the place of a foreign declaration holds,
/// if it is one.
pub open spec fn foreign_shape(t: Seq<TokenView>) -> Option<ItemTypeView> {
    foreign_shape_with(t, is_type_alias(t))
}

/// Matches the tokens of a span in the place of a foreign declaration against
/// the known shape, given whether the outside parser takes the span for a
/// type alias.
pub fn alias_of(toks: &Vec<Token>, alias_ok: bool) -> (r: Option<ItemType>)
    ensures
        view_option(r) == foreign_shape_with(tokens_view(*toks), alias_ok),
{
    let to = toks.len();
    let (attrs, p) = parse_attrs(toks, 0, to);
    let (vis, q) = parse_vis(toks, p, to);
    if !(to > 0 && q < to - 1 && to - 1 - q > 1 && token_is_word(&toks[q], "type") && token_is_punct(
        &toks[to - 1],
        ';',
    ) && alias_ok) {
        return None;
    }
    let e: usize = to - 1;
    let ident: String = match &toks[q + 1] {
        Token::Ident(name) => name.clone(),
        _ => {
            return None;
        },
    };
    let (params, q3) = match parse_params(toks, q + 2, e) {
        Some(found) => found,
        None => {
            return None;
        },
    };
    let eq = find_stop(toks, q3, e, Stop::Equals);
    let where_clause: Option<Vec<String>> = match parse_where(toks, q3, eq) {
        Some(clause) => clause,
        None => {
            return None;
        },
    };
    if !(eq < e && e - eq > 1) {
        return None;
    }
    let ty = parse_type(toks, eq + 1, e);
    Some(ItemType { attrs, vis, ident, generics: Generics { params, where_clause }, ty })
}

/// Matches a span in the place of a foreign declaration against the known
/// shape.
pub fn parse_foreign_span(ts: &TokenStream) -> (r: Option<ItemType>)
    ensures
        view_option(r) == foreign_shape(tokens_of(*ts)),
{
    let toks = span_tokens(ts);
    let alias_ok = parses_as_type_alias(ts);
    alias_of(&toks, alias_ok)
}

/// The first `n` trees of a root import.
pub open spec fn root_items_doc(trees: Seq<RootUseTreeView>, n: nat) -> Seq<Op>
    decreases n,
{
    if n == 0 || n > trees.len() {
        seq![]
    } else {
        root_items_doc(trees, (n - 1) as nat) + flag_doc(trees[n - 1].leading_colon, "::"@)
            + use_tree_doc(trees[n - 1].inner) + use_separator_doc(trees[n - 1].inner, n == trees.len())
    }
}

/// The trees of a root import. A single tree loses its braces, and starts
/// at the root; any other number fills the lines between braces as the
/// children of a group do.
#[verifier::opaque]
pub open spec fn use_brace_doc(trees: Seq<RootUseTreeView>) -> Seq<Op> {
    if trees.len() == 1 {
        seq![text("::"@)] + use_tree_doc(trees[0].inner)
    } else {
        seq![cbox(INDENT as int), text("{"@), zerobreak(), ibox(0)] + root_items_doc(trees, trees.len())
            + seq![end()] + trailing_comma_doc(true) + seq![offset(-INDENT as int), text("}"@), end()]
    }
}

/// What a span of a known shape is written as, by the rules for the parts
/// that it holds.
pub open spec fn shape_doc(s: ItemShape) -> Seq<Op> {
    match s {
        ItemShape::Empty => seq![],
        ItemShape::FnSignature { attrs, vis, sig } => head_doc(attrs, INDENT as int, vis) + signature_doc(
            sig,
        ) + where_semi_doc(sig.generics) + seq![end()],
        ItemShape::StaticUntyped { attrs, vis, mutability, ident, expr } => head_doc(attrs, 0, vis)
            + static_name_doc(mutability, ident) + assigned_doc(expr) + seq![end()],
        ItemShape::UseBrace { attrs, vis, trees } => outer_attrs_doc(attrs) + visibility_doc(vis) + seq![
            text("use "@),
        ] + use_brace_doc(trees) + seq![text(";"@)],
    }
}

/// Whether a span in the place of a declaration has one of the known shapes.
pub open spec fn item_span_ok(toks: Seq<TokenView>) -> bool {
    item_shape(toks) is Some
}

/// What a span in the place of a declaration is written as.
pub open spec fn item_span_doc(toks: Seq<TokenView>) -> Seq<Op> {
    shape_doc(item_shape(toks)->0) + seq![hardbreak()]
}

/// Whether a span in the place of a foreign declaration has the known shape.
pub open spec fn foreign_span_ok(toks: Seq<TokenView>) -> bool {
    foreign_shape(toks) is Some
}

/// What a span in the place of a foreign declaration is written as.
pub open spec fn foreign_span_doc(toks: Seq<TokenView>) -> Seq<Op> {
    item_type_doc(foreign_shape(toks)->0)
}

/// Tells whether a span in the place of a declaration has one of the known
/// shapes.
pub fn item_span_printable(ts: &TokenStream) -> (r: bool)
    ensures
        r == item_span_ok(tokens_of(*ts)),
{
    parse_item_span(ts).is_some()
}

/// Tells whether a span in the place of a foreign declaration has the known
/// shape.
pub fn foreign_span_printable(ts: &TokenStream) -> (r: bool)
    ensures
        r == foreign_span_ok(tokens_of(*ts)),
{
    parse_foreign_span(ts).is_some()
}

impl Printer {
    fn use_brace(&mut self, trees: &Vec<RootUseTree>)
        requires
            old(self).wf(),
        ensures
            final(self)@ == old(self)@ + use_brace_doc(views(trees@)),
            final(self).open() == old(self).open(),
            final(self).wf(),
    {
        reveal(use_brace_doc);
        let ghost v = views(trees@);
        if trees.len() == 1 {
            self.word("::");
            self.use_tree(&trees[0].inner);
            assert(self@ =~= old(self)@ + use_brace_doc(v));
        } else {
            self.cbox(INDENT);
            self.word("{");
            self.zerobreak();
            self.ibox(0);
            let ghost head = self@;
            let mut i: usize = 0;
            assert(self@ =~= head + root_items_doc(v, 0));
            while i < trees.len()
                invariant
                    i <= trees.len(),
                    v == views(trees@),
                    self@ == head + root_items_doc(v, i as nat),
                    self.open() == old(self).open() + 2,
                    self.wf(),
                decreases trees.len() - i,
            {
                let ghost before = self@;
                self.word_if(trees[i].leading_colon, "::");
                self.use_tree(&trees[i].inner);
                if i + 1 < trees.len() {
                    self.word(",");
                    if use_ends_in_group(&trees[i].inner) {
                        self.hardbreak();
                    } else {
                        self.space();
                    }
                }
                assert(self@ =~= before + flag_doc(v[i as int].leading_colon, "::"@) + use_tree_doc(
                    v[i as int].inner,
                ) + use_separator_doc(v[i as int].inner, i + 1 == trees.len()));
                assert(self@ =~= head + root_items_doc(v, (i + 1) as nat));
                i = i + 1;
            }
            self.end();
            self.trailing_comma(true);
            self.offset(-INDENT);
            self.word("}");
            self.end();
            assert(self@ =~= old(self)@ + use_brace_doc(v));
        }
    }

    /// Writes a span that has been matched to a shape.
    pub(crate) fn item_shape(&mut self, shape: &ItemVerbatim)
        requires
            old(self).wf(),
        ensures
            final(self)@ == old(self)@ + shape_doc(shape@),
            final(self).open() == old(self).open(),
            final(self).wf(),
    {
        match shape {
            ItemVerbatim::Empty => {
                assert(self@ =~= old(self)@ + shape_doc(shape@));
            },
            ItemVerbatim::FnSignature { attrs, vis, sig } => {
                self.head(attrs, INDENT, vis);
                self.signature(sig);
                self.where_clause_semi(&sig.generics);
                self.end();
                assert(self@ =~= old(self)@ + shape_doc(shape@));
            },
            ItemVerbatim::StaticUntyped { attrs, vis, mutability, ident, expr } => {
                self.head(attrs, 0, vis);
                self.static_name(*mutability, ident);
                self.assigned(expr);
                self.end();
                assert(self@ =~= old(self)@ + shape_doc(shape@));
            },
            ItemVerbatim::UseBrace { attrs, vis, trees } => {
                self.outer_attrs(attrs);
                self.visibility(vis);
                self.word("use ");
                self.use_brace(trees);
                self.word(";");
                assert(self@ =~= old(self)@ + shape_doc(shape@));
            },
        }
    }

    /// Writes a span in the place of a declaration.
    pub(crate) fn item_span(&mut self, ts: &TokenStream)
        requires
            old(self).wf(),
            item_span_ok(tokens_of(*ts)),
        ensures
            final(self)@ == old(self)@ + item_span_doc(tokens_of(*ts)),
            final(self).open() == old(self).open(),
            final(self).wf(),
    {
        match parse_item_span(ts) {
            Some(shape) => {
                self.item_shape(&shape);
                self.hardbreak();
                assert(self@ =~= old(self)@ + item_span_doc(tokens_of(*ts)));
            },
            None => {},
        }
    }

    /// Writes a span in the place of a foreign declaration.
    pub(crate) fn foreign_span(&mut self, ts: &TokenStream)
        requires
            old(self).wf(),
            foreign_span_ok(tokens_of(*ts)),
        ensures
            final(self)@ == old(self)@ + foreign_span_doc(tokens_of(*ts)),
            final(self).open() == old(self).open(),
            final(self).wf(),
    {
        match parse_foreign_span(ts) {
            Some(item) => {
                self.item_type(&item);
            },
            None => {},
        }
    }
}

} // verus!
