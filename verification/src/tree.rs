//! The input tree: declarations and what they are made of.
//!
//! Below the level of declarations the tree keeps source text as written:
//! expressions, patterns, bounds and the like are single atoms to the
//! formatter. A type is kept in structure as far as the rules for receivers
//! look into it.

use vstd::prelude::*;
use proc_macro2::TokenStream;
use crate::token::{tokens_of, TokenView};

verus! {

/// An attribute or doc comment, as written.
#[derive(Debug)]
pub struct Attribute {
    /// Whether it is written inside the body it belongs to (`#![..]`, `//!`).
    pub inner: bool,
    pub text: String,
}

/// The visibility marker of a declaration.
#[derive(Debug)]
pub enum Visibility {
    /// No marker.
    Inherited,
    /// `pub`
    Public,
    /// `pub(path)` or `pub(in path)`
    Restricted { in_token: bool, path: String },
}

/// A type.
#[derive(Debug)]
pub enum Type {
    /// `&'a mut T`
    Reference { lifetime: Option<String>, mutable: bool, elem: Box<Type> },
    /// A path such as `Self` or `Vec<u8>`, as written; `qself` marks the form
    /// `<T as Trait>::Name`.
    Path { qself: bool, path: String },
    /// Any other type, as written.
    Other(String),
}

/// The generic parameters of a declaration and its `where` clause, each
/// parameter and each predicate as written.
#[derive(Debug)]
pub struct Generics {
    pub params: Vec<String>,
    pub where_clause: Option<Vec<String>>,
}

/// A field of a struct, a union or a variant.
#[derive(Debug)]
pub struct Field {
    pub attrs: Vec<Attribute>,
    pub vis: Visibility,
    pub ident: Option<String>,
    pub ty: Type,
}

/// The fields of a struct or a variant.
#[derive(Debug)]
pub enum Fields {
    Named(Vec<Field>),
    Unnamed(Vec<Field>),
    Unit,
}

/// A variant of an enum.
#[derive(Debug)]
pub struct Variant {
    pub attrs: Vec<Attribute>,
    pub ident: String,
    pub fields: Fields,
    pub discriminant: Option<String>,
}

/// What encloses the tokens of a macro invocation.
#[derive(Clone, Copy, Debug, PartialEq, Eq, Structural)]
pub enum Delimiter {
    Paren,
    Brace,
    Bracket,
}

/// A macro invocation: its path, its delimiter and the tokens between, as
/// written.
#[derive(Debug)]
pub struct Macro {
    pub path: String,
    pub delimiter: Delimiter,
    pub tokens: String,
}

/// `extern`, with the name of the interface where one is written.
#[derive(Debug)]
pub struct Abi {
    pub name: Option<String>,
}

/// The `self` parameter of a method.
#[derive(Debug)]
pub struct Receiver {
    pub attrs: Vec<Attribute>,
    /// Written with `&`, and the lifetime behind it if any.
    pub reference: Option<Option<String>>,
    /// Written with `mut`.
    pub mutability: bool,
    /// The declared type of the receiver: the one written behind a colon,
    /// or else the one that the short form stands for.
    pub ty: Type,
}

/// A parameter written as a pattern and its type.
#[derive(Debug)]
pub struct PatType {
    pub attrs: Vec<Attribute>,
    pub pat: String,
    pub ty: Type,
}

/// A parameter of a function.
#[derive(Debug)]
pub enum FnArg {
    Receiver(Receiver),
    Typed(PatType),
}

/// The `...` that ends the parameters of a variadic function.
#[derive(Debug)]
pub struct Variadic {
    pub attrs: Vec<Attribute>,
    pub pat: Option<String>,
}

/// The signature of a function.
#[derive(Debug)]
pub struct Signature {
    pub constness: bool,
    pub asyncness: bool,
    pub unsafety: bool,
    pub abi: Option<Abi>,
    pub ident: String,
    pub generics: Generics,
    pub inputs: Vec<FnArg>,
    pub variadic: Option<Variadic>,
    pub output: Option<Type>,
}

/// What a `use` declaration imports.
#[derive(Debug)]
pub enum UseTree {
    /// `ident::tree`
    Path(String, Box<UseTree>),
    /// `ident`
    Name(String),
    /// `ident as rename`
    Rename(String, String),
    /// `*`
    Glob,
    /// `{tree, tree}`
    Group(Vec<UseTree>),
}

/// A statement of a body: a nested declaration, or anything else as written.
#[derive(Debug)]
pub enum Stmt {
    Item(Box<Item>),
    Other(String),
}

/// A constant: `const NAME: Type = value;`
#[derive(Debug)]
pub struct ItemConst {
    pub attrs: Vec<Attribute>,
    pub vis: Visibility,
    pub ident: String,
    pub generics: Generics,
    pub ty: Type,
    pub expr: String,
}

/// An enum.
#[derive(Debug)]
pub struct ItemEnum {
    pub attrs: Vec<Attribute>,
    pub vis: Visibility,
    pub ident: String,
    pub generics: Generics,
    pub variants: Vec<Variant>,
}

/// An `extern crate` declaration.
#[derive(Debug)]
pub struct ItemExternCrate {
    pub attrs: Vec<Attribute>,
    pub vis: Visibility,
    pub ident: String,
    pub rename: Option<String>,
}

/// A function with its body.
#[derive(Debug)]
pub struct ItemFn {
    pub attrs: Vec<Attribute>,
    pub vis: Visibility,
    pub sig: Signature,
    pub block: Vec<Stmt>,
}

/// An `extern` block.
#[derive(Debug)]
pub struct ItemForeignMod {
    pub attrs: Vec<Attribute>,
    pub unsafety: bool,
    pub abi: Abi,
    pub items: Vec<ForeignItem>,
}

/// The trait that an implementation is for.
#[derive(Debug)]
pub struct ImplTrait {
    /// Written with `!` in front.
    pub negative: bool,
    pub path: String,
}

/// An implementation.
#[derive(Debug)]
pub struct ItemImpl {
    pub attrs: Vec<Attribute>,
    pub defaultness: bool,
    pub unsafety: bool,
    pub generics: Generics,
    pub trait_: Option<ImplTrait>,
    pub self_ty: Type,
    pub items: Vec<ImplItem>,
}

/// A macro invocation in the place of a declaration.
#[derive(Debug)]
pub struct ItemMacro {
    pub attrs: Vec<Attribute>,
    pub ident: Option<String>,
    pub mac: Macro,
}

/// A module, with its content or without.
#[derive(Debug)]
pub struct ItemMod {
    pub attrs: Vec<Attribute>,
    pub vis: Visibility,
    pub unsafety: bool,
    pub ident: String,
    pub content: Option<Vec<Item>>,
}

/// A static: `static NAME: Type = value;`
#[derive(Debug)]
pub struct ItemStatic {
    pub attrs: Vec<Attribute>,
    pub vis: Visibility,
    pub mutability: bool,
    pub ident: String,
    pub ty: Type,
    pub expr: String,
}

/// A struct.
#[derive(Debug)]
pub struct ItemStruct {
    pub attrs: Vec<Attribute>,
    pub vis: Visibility,
    pub ident: String,
    pub generics: Generics,
    pub fields: Fields,
}

/// A trait.
#[derive(Debug)]
pub struct ItemTrait {
    pub attrs: Vec<Attribute>,
    pub vis: Visibility,
    pub unsafety: bool,
    pub auto_token: bool,
    pub ident: String,
    pub generics: Generics,
    pub supertraits: Vec<String>,
    pub items: Vec<TraitItem>,
}

/// A trait alias: `trait Name = Bound + Bound;`
#[derive(Debug)]
pub struct ItemTraitAlias {
    pub attrs: Vec<Attribute>,
    pub vis: Visibility,
    pub ident: String,
    pub generics: Generics,
    pub bounds: Vec<String>,
}

/// A type alias: `type Name = Type;`
#[derive(Debug)]
pub struct ItemType {
    pub attrs: Vec<Attribute>,
    pub vis: Visibility,
    pub ident: String,
    pub generics: Generics,
    pub ty: Type,
}

/// A union.
#[derive(Debug)]
pub struct ItemUnion {
    pub attrs: Vec<Attribute>,
    pub vis: Visibility,
    pub ident: String,
    pub generics: Generics,
    pub fields: Vec<Field>,
}

/// A `use` declaration.
#[derive(Debug)]
pub struct ItemUse {
    pub attrs: Vec<Attribute>,
    pub vis: Visibility,
    pub leading_colon: bool,
    pub tree: UseTree,
}

/// A declaration.
#[derive(Debug)]
pub enum Item {
    Const(ItemConst),
    Enum(ItemEnum),
    ExternCrate(ItemExternCrate),
    Fn(ItemFn),
    ForeignMod(ItemForeignMod),
    Impl(ItemImpl),
    Macro(ItemMacro),
    Mod(ItemMod),
    Static(ItemStatic),
    Struct(ItemStruct),
    Trait(ItemTrait),
    TraitAlias(ItemTraitAlias),
    Type(ItemType),
    Union(ItemUnion),
    Use(ItemUse),
    /// A declaration that the tree could only keep as tokens.
    Verbatim(TokenStream),
    /// A declaration of a kind that the tree has no variant for.
    Unknown,
}

/// A function declared in an `extern` block.
#[derive(Debug)]
pub struct ForeignItemFn {
    pub attrs: Vec<Attribute>,
    pub vis: Visibility,
    pub sig: Signature,
}

/// A static declared in an `extern` block.
#[derive(Debug)]
pub struct ForeignItemStatic {
    pub attrs: Vec<Attribute>,
    pub vis: Visibility,
    pub mutability: bool,
    pub ident: String,
    pub ty: Type,
}

/// A type declared in an `extern` block.
#[derive(Debug)]
pub struct ForeignItemType {
    pub attrs: Vec<Attribute>,
    pub vis: Visibility,
    pub ident: String,
    pub generics: Generics,
}

/// A macro invocation in the place of a member.
#[derive(Debug)]
pub struct MemberMacro {
    pub attrs: Vec<Attribute>,
    pub mac: Macro,
}

/// A declaration inside an `extern` block.
#[derive(Debug)]
pub enum ForeignItem {
    Fn(ForeignItemFn),
    Static(ForeignItemStatic),
    Type(ForeignItemType),
    Macro(MemberMacro),
    Verbatim(TokenStream),
    Unknown,
}

/// A constant of a trait, with or without a default value.
#[derive(Debug)]
pub struct TraitItemConst {
    pub attrs: Vec<Attribute>,
    pub ident: String,
    pub generics: Generics,
    pub ty: Type,
    pub default: Option<String>,
}

/// A method of a trait, with or without a default implementation.
#[derive(Debug)]
pub struct TraitItemFn {
    pub attrs: Vec<Attribute>,
    pub sig: Signature,
    pub default: Option<Vec<Stmt>>,
}

/// An associated type of a trait.
#[derive(Debug)]
pub struct TraitItemType {
    pub attrs: Vec<Attribute>,
    pub ident: String,
    pub generics: Generics,
    pub bounds: Vec<String>,
    pub default: Option<Type>,
}

/// A member of a trait.
#[derive(Debug)]
pub enum TraitItem {
    Const(TraitItemConst),
    Fn(TraitItemFn),
    Type(TraitItemType),
    Macro(MemberMacro),
    Verbatim(TokenStream),
    Unknown,
}

/// A constant of an implementation.
#[derive(Debug)]
pub struct ImplItemConst {
    pub attrs: Vec<Attribute>,
    pub vis: Visibility,
    pub defaultness: bool,
    pub ident: String,
    pub generics: Generics,
    pub ty: Type,
    pub expr: String,
}

/// A method of an implementation.
#[derive(Debug)]
pub struct ImplItemFn {
    pub attrs: Vec<Attribute>,
    pub vis: Visibility,
    pub defaultness: bool,
    pub sig: Signature,
    pub block: Vec<Stmt>,
}

/// An associated type of an implementation.
#[derive(Debug)]
pub struct ImplItemType {
    pub attrs: Vec<Attribute>,
    pub vis: Visibility,
    pub defaultness: bool,
    pub ident: String,
    pub generics: Generics,
    pub ty: Type,
}

/// A member of an implementation.
#[derive(Debug)]
pub enum ImplItem {
    Const(ImplItemConst),
    Fn(ImplItemFn),
    Type(ImplItemType),
    Macro(MemberMacro),
    Verbatim(TokenStream),
    Unknown,
}


// The mathematical values of the parts of the tree that a token span can be
// resolved into: the same shapes, over sequences of characters.

/// The values of a sequence of tree nodes.
pub open spec fn views<T: View>(v: Seq<T>) -> Seq<T::V> {
    Seq::new(v.len(), |i: int| v[i]@)
}

/// The value of an attribute.
pub struct AttributeView {
    pub inner: bool,
    pub text: Seq<char>,
}

impl View for Attribute {
    type V = AttributeView;

    open spec fn view(&self) -> AttributeView {
        AttributeView { inner: self.inner, text: self.text@ }
    }
}

/// The value of a visibility.
pub enum VisibilityView {
    Inherited,
    Public,
    Restricted { in_token: bool, path: Seq<char> },
}

impl View for Visibility {
    type V = VisibilityView;

    open spec fn view(&self) -> VisibilityView {
        match *self {
            Visibility::Inherited => VisibilityView::Inherited,
            Visibility::Public => VisibilityView::Public,
            Visibility::Restricted { in_token, path } => VisibilityView::Restricted {
                in_token,
                path: path@,
            },
        }
    }
}

/// The value of a type.
pub enum TypeView {
    Reference { lifetime: Option<Seq<char>>, mutable: bool, elem: Box<TypeView> },
    Path { qself: bool, path: Seq<char> },
    Other(Seq<char>),
}

/// The value of a type.
pub open spec fn type_view(t: Type) -> TypeView
    decreases t,
{
    match t {
        Type::Reference { lifetime, mutable, elem } => TypeView::Reference {
            lifetime: text_option(lifetime),
            mutable,
            elem: Box::new(type_view(*elem)),
        },
        Type::Path { qself, path } => TypeView::Path { qself, path: path@ },
        Type::Other(text) => TypeView::Other(text@),
    }
}

impl View for Type {
    type V = TypeView;

    open spec fn view(&self) -> TypeView {
        type_view(*self)
    }
}

/// The characters of an optional text.
pub open spec fn text_option(o: Option<String>) -> Option<Seq<char>> {
    match o {
        Some(s) => Some(s@),
        None => None,
    }
}

/// The value of an optional tree node.
pub open spec fn view_option<T: View>(o: Option<T>) -> Option<T::V> {
    match o {
        Some(x) => Some(x@),
        None => None,
    }
}

/// The value of generic parameters and their `where` clause.
pub struct GenericsView {
    pub params: Seq<Seq<char>>,
    pub where_clause: Option<Seq<Seq<char>>>,
}

impl View for Generics {
    type V = GenericsView;

    open spec fn view(&self) -> GenericsView {
        GenericsView {
            params: views(self.params@),
            where_clause: match self.where_clause {
                Some(predicates) => Some(views(predicates@)),
                None => None,
            },
        }
    }
}

/// The value of an `extern` marker.
pub struct AbiView {
    pub name: Option<Seq<char>>,
}

impl View for Abi {
    type V = AbiView;

    open spec fn view(&self) -> AbiView {
        AbiView { name: text_option(self.name) }
    }
}

/// The value of a receiver.
pub struct ReceiverView {
    pub attrs: Seq<AttributeView>,
    pub reference: Option<Option<Seq<char>>>,
    pub mutability: bool,
    pub ty: TypeView,
}

impl View for Receiver {
    type V = ReceiverView;

    open spec fn view(&self) -> ReceiverView {
        ReceiverView {
            attrs: views(self.attrs@),
            reference: match self.reference {
                Some(lifetime) => Some(text_option(lifetime)),
                None => None,
            },
            mutability: self.mutability,
            ty: self.ty@,
        }
    }
}

/// The value of a parameter written as a pattern and its type.
pub struct PatTypeView {
    pub attrs: Seq<AttributeView>,
    pub pat: Seq<char>,
    pub ty: TypeView,
}

impl View for PatType {
    type V = PatTypeView;

    open spec fn view(&self) -> PatTypeView {
        PatTypeView { attrs: views(self.attrs@), pat: self.pat@, ty: self.ty@ }
    }
}

/// The value of a parameter.
pub enum FnArgView {
    Receiver(ReceiverView),
    Typed(PatTypeView),
}

impl View for FnArg {
    type V = FnArgView;

    open spec fn view(&self) -> FnArgView {
        match *self {
            FnArg::Receiver(r) => FnArgView::Receiver(r@),
            FnArg::Typed(p) => FnArgView::Typed(p@),
        }
    }
}

/// The value of a variadic.
pub struct VariadicView {
    pub attrs: Seq<AttributeView>,
    pub pat: Option<Seq<char>>,
}

impl View for Variadic {
    type V = VariadicView;

    open spec fn view(&self) -> VariadicView {
        VariadicView { attrs: views(self.attrs@), pat: text_option(self.pat) }
    }
}

/// The value of a signature.
pub struct SignatureView {
    pub constness: bool,
    pub asyncness: bool,
    pub unsafety: bool,
    pub abi: Option<AbiView>,
    pub ident: Seq<char>,
    pub generics: GenericsView,
    pub inputs: Seq<FnArgView>,
    pub variadic: Option<VariadicView>,
    pub output: Option<TypeView>,
}

impl View for Signature {
    type V = SignatureView;

    open spec fn view(&self) -> SignatureView {
        SignatureView {
            constness: self.constness,
            asyncness: self.asyncness,
            unsafety: self.unsafety,
            abi: view_option(self.abi),
            ident: self.ident@,
            generics: self.generics@,
            inputs: views(self.inputs@),
            variadic: view_option(self.variadic),
            output: view_option(self.output),
        }
    }
}

/// The value of a use tree.
pub enum UseTreeView {
    Path(Seq<char>, Box<UseTreeView>),
    Name(Seq<char>),
    Rename(Seq<char>, Seq<char>),
    Glob,
    Group(Seq<UseTreeView>),
}

/// The value of a use tree.
pub open spec fn use_tree_view(t: UseTree) -> UseTreeView
    decreases t,
{
    match t {
        UseTree::Path(ident, tree) => UseTreeView::Path(ident@, Box::new(use_tree_view(*tree))),
        UseTree::Name(ident) => UseTreeView::Name(ident@),
        UseTree::Rename(ident, rename) => UseTreeView::Rename(ident@, rename@),
        UseTree::Glob => UseTreeView::Glob,
        UseTree::Group(items) => UseTreeView::Group(use_trees_view(items)),
    }
}

/// The values of the children of a group.
pub open spec fn use_trees_view(items: Vec<UseTree>) -> Seq<UseTreeView>
    decreases items,
{
    Seq::new(
        items.len() as nat,
        |i: int|
            if 0 <= i < items.len() {
                use_tree_view(items[i])
            } else {
                UseTreeView::Glob
            },
    )
}

impl View for UseTree {
    type V = UseTreeView;

    open spec fn view(&self) -> UseTreeView {
        use_tree_view(*self)
    }
}

/// The value of a type alias.
pub struct ItemTypeView {
    pub attrs: Seq<AttributeView>,
    pub vis: VisibilityView,
    pub ident: Seq<char>,
    pub generics: GenericsView,
    pub ty: TypeView,
}

impl View for ItemType {
    type V = ItemTypeView;

    open spec fn view(&self) -> ItemTypeView {
        ItemTypeView {
            attrs: views(self.attrs@),
            vis: self.vis@,
            ident: self.ident@,
            generics: self.generics@,
            ty: self.ty@,
        }
    }
}

/// The value of a vector after a push is the value before with one more.
pub proof fn lemma_views_push<T: View>(v: Seq<T>, x: T)
    ensures
        views(v.push(x)) == views(v).push(x@),
{
    assert(views(v.push(x)) =~= views(v).push(x@));
}


// The mathematical values of declarations and members.

/// The value of a field.
pub struct FieldView {
    pub attrs: Seq<AttributeView>,
    pub vis: VisibilityView,
    pub ident: Option<Seq<char>>,
    pub ty: TypeView,
}

impl View for Field {
    type V = FieldView;

    open spec fn view(&self) -> FieldView {
        FieldView {
            attrs: views(self.attrs@),
            vis: self.vis@,
            ident: text_option(self.ident),
            ty: self.ty@,
        }
    }
}

/// The value of a variant.
pub struct VariantView {
    pub attrs: Seq<AttributeView>,
    pub ident: Seq<char>,
    pub fields: FieldsView,
    pub discriminant: Option<Seq<char>>,
}

impl View for Variant {
    type V = VariantView;

    open spec fn view(&self) -> VariantView {
        VariantView {
            attrs: views(self.attrs@),
            ident: self.ident@,
            fields: self.fields@,
            discriminant: text_option(self.discriminant),
        }
    }
}

/// The value of a macro invocation.
pub struct MacroView {
    pub path: Seq<char>,
    pub delimiter: Delimiter,
    pub tokens: Seq<char>,
}

impl View for Macro {
    type V = MacroView;

    open spec fn view(&self) -> MacroView {
        MacroView {
            path: self.path@,
            delimiter: self.delimiter,
            tokens: self.tokens@,
        }
    }
}

/// The value of a macro invocation in the place of a member.
pub struct MemberMacroView {
    pub attrs: Seq<AttributeView>,
    pub mac: MacroView,
}

impl View for MemberMacro {
    type V = MemberMacroView;

    open spec fn view(&self) -> MemberMacroView {
        MemberMacroView {
            attrs: views(self.attrs@),
            mac: self.mac@,
        }
    }
}

/// The value of the trait that an implementation is for.
pub struct ImplTraitView {
    pub negative: bool,
    pub path: Seq<char>,
}

impl View for ImplTrait {
    type V = ImplTraitView;

    open spec fn view(&self) -> ImplTraitView {
        ImplTraitView {
            negative: self.negative,
            path: self.path@,
        }
    }
}

/// The value of a constant.
pub struct ItemConstView {
    pub attrs: Seq<AttributeView>,
    pub vis: VisibilityView,
    pub ident: Seq<char>,
    pub generics: GenericsView,
    pub ty: TypeView,
    pub expr: Seq<char>,
}

impl View for ItemConst {
    type V = ItemConstView;

    open spec fn view(&self) -> ItemConstView {
        ItemConstView {
            attrs: views(self.attrs@),
            vis: self.vis@,
            ident: self.ident@,
            generics: self.generics@,
            ty: self.ty@,
            expr: self.expr@,
        }
    }
}

/// The value of an enum.
pub struct ItemEnumView {
    pub attrs: Seq<AttributeView>,
    pub vis: VisibilityView,
    pub ident: Seq<char>,
    pub generics: GenericsView,
    pub variants: Seq<VariantView>,
}

impl View for ItemEnum {
    type V = ItemEnumView;

    open spec fn view(&self) -> ItemEnumView {
        ItemEnumView {
            attrs: views(self.attrs@),
            vis: self.vis@,
            ident: self.ident@,
            generics: self.generics@,
            variants: views(self.variants@),
        }
    }
}

/// The value of an `extern crate` declaration.
pub struct ItemExternCrateView {
    pub attrs: Seq<AttributeView>,
    pub vis: VisibilityView,
    pub ident: Seq<char>,
    pub rename: Option<Seq<char>>,
}

impl View for ItemExternCrate {
    type V = ItemExternCrateView;

    open spec fn view(&self) -> ItemExternCrateView {
        ItemExternCrateView {
            attrs: views(self.attrs@),
            vis: self.vis@,
            ident: self.ident@,
            rename: text_option(self.rename),
        }
    }
}

/// The value of an `extern` block.
pub struct ItemForeignModView {
    pub attrs: Seq<AttributeView>,
    pub unsafety: bool,
    pub abi: AbiView,
    pub items: Seq<ForeignItemView>,
}

impl View for ItemForeignMod {
    type V = ItemForeignModView;

    open spec fn view(&self) -> ItemForeignModView {
        ItemForeignModView {
            attrs: views(self.attrs@),
            unsafety: self.unsafety,
            abi: self.abi@,
            items: views(self.items@),
        }
    }
}

/// The value of a macro invocation in the place of a declaration.
pub struct ItemMacroView {
    pub attrs: Seq<AttributeView>,
    pub ident: Option<Seq<char>>,
    pub mac: MacroView,
}

impl View for ItemMacro {
    type V = ItemMacroView;

    open spec fn view(&self) -> ItemMacroView {
        ItemMacroView {
            attrs: views(self.attrs@),
            ident: text_option(self.ident),
            mac: self.mac@,
        }
    }
}

/// The value of a static.
pub struct ItemStaticView {
    pub attrs: Seq<AttributeView>,
    pub vis: VisibilityView,
    pub mutability: bool,
    pub ident: Seq<char>,
    pub ty: TypeView,
    pub expr: Seq<char>,
}

impl View for ItemStatic {
    type V = ItemStaticView;

    open spec fn view(&self) -> ItemStaticView {
        ItemStaticView {
            attrs: views(self.attrs@),
            vis: self.vis@,
            mutability: self.mutability,
            ident: self.ident@,
            ty: self.ty@,
            expr: self.expr@,
        }
    }
}

/// The value of a struct.
pub struct ItemStructView {
    pub attrs: Seq<AttributeView>,
    pub vis: VisibilityView,
    pub ident: Seq<char>,
    pub generics: GenericsView,
    pub fields: FieldsView,
}

impl View for ItemStruct {
    type V = ItemStructView;

    open spec fn view(&self) -> ItemStructView {
        ItemStructView {
            attrs: views(self.attrs@),
            vis: self.vis@,
            ident: self.ident@,
            generics: self.generics@,
            fields: self.fields@,
        }
    }
}

/// The value of a trait alias.
pub struct ItemTraitAliasView {
    pub attrs: Seq<AttributeView>,
    pub vis: VisibilityView,
    pub ident: Seq<char>,
    pub generics: GenericsView,
    pub bounds: Seq<Seq<char>>,
}

impl View for ItemTraitAlias {
    type V = ItemTraitAliasView;

    open spec fn view(&self) -> ItemTraitAliasView {
        ItemTraitAliasView {
            attrs: views(self.attrs@),
            vis: self.vis@,
            ident: self.ident@,
            generics: self.generics@,
            bounds: views(self.bounds@),
        }
    }
}

/// The value of a union.
pub struct ItemUnionView {
    pub attrs: Seq<AttributeView>,
    pub vis: VisibilityView,
    pub ident: Seq<char>,
    pub generics: GenericsView,
    pub fields: Seq<FieldView>,
}

impl View for ItemUnion {
    type V = ItemUnionView;

    open spec fn view(&self) -> ItemUnionView {
        ItemUnionView {
            attrs: views(self.attrs@),
            vis: self.vis@,
            ident: self.ident@,
            generics: self.generics@,
            fields: views(self.fields@),
        }
    }
}

/// The value of a `use` declaration.
pub struct ItemUseView {
    pub attrs: Seq<AttributeView>,
    pub vis: VisibilityView,
    pub leading_colon: bool,
    pub tree: UseTreeView,
}

impl View for ItemUse {
    type V = ItemUseView;

    open spec fn view(&self) -> ItemUseView {
        ItemUseView {
            attrs: views(self.attrs@),
            vis: self.vis@,
            leading_colon: self.leading_colon,
            tree: self.tree@,
        }
    }
}

/// The value of a foreign function.
pub struct ForeignItemFnView {
    pub attrs: Seq<AttributeView>,
    pub vis: VisibilityView,
    pub sig: SignatureView,
}

impl View for ForeignItemFn {
    type V = ForeignItemFnView;

    open spec fn view(&self) -> ForeignItemFnView {
        ForeignItemFnView {
            attrs: views(self.attrs@),
            vis: self.vis@,
            sig: self.sig@,
        }
    }
}

/// The value of a foreign static.
pub struct ForeignItemStaticView {
    pub attrs: Seq<AttributeView>,
    pub vis: VisibilityView,
    pub mutability: bool,
    pub ident: Seq<char>,
    pub ty: TypeView,
}

impl View for ForeignItemStatic {
    type V = ForeignItemStaticView;

    open spec fn view(&self) -> ForeignItemStaticView {
        ForeignItemStaticView {
            attrs: views(self.attrs@),
            vis: self.vis@,
            mutability: self.mutability,
            ident: self.ident@,
            ty: self.ty@,
        }
    }
}

/// The value of a foreign type.
pub struct ForeignItemTypeView {
    pub attrs: Seq<AttributeView>,
    pub vis: VisibilityView,
    pub ident: Seq<char>,
    pub generics: GenericsView,
}

impl View for ForeignItemType {
    type V = ForeignItemTypeView;

    open spec fn view(&self) -> ForeignItemTypeView {
        ForeignItemTypeView {
            attrs: views(self.attrs@),
            vis: self.vis@,
            ident: self.ident@,
            generics: self.generics@,
        }
    }
}

/// The value of a constant of a trait.
pub struct TraitItemConstView {
    pub attrs: Seq<AttributeView>,
    pub ident: Seq<char>,
    pub generics: GenericsView,
    pub ty: TypeView,
    pub default: Option<Seq<char>>,
}

impl View for TraitItemConst {
    type V = TraitItemConstView;

    open spec fn view(&self) -> TraitItemConstView {
        TraitItemConstView {
            attrs: views(self.attrs@),
            ident: self.ident@,
            generics: self.generics@,
            ty: self.ty@,
            default: text_option(self.default),
        }
    }
}

/// The value of an associated type of a trait.
pub struct TraitItemTypeView {
    pub attrs: Seq<AttributeView>,
    pub ident: Seq<char>,
    pub generics: GenericsView,
    pub bounds: Seq<Seq<char>>,
    pub default: Option<TypeView>,
}

impl View for TraitItemType {
    type V = TraitItemTypeView;

    open spec fn view(&self) -> TraitItemTypeView {
        TraitItemTypeView {
            attrs: views(self.attrs@),
            ident: self.ident@,
            generics: self.generics@,
            bounds: views(self.bounds@),
            default: view_option(self.default),
        }
    }
}

/// The value of a constant of an implementation.
pub struct ImplItemConstView {
    pub attrs: Seq<AttributeView>,
    pub vis: VisibilityView,
    pub defaultness: bool,
    pub ident: Seq<char>,
    pub generics: GenericsView,
    pub ty: TypeView,
    pub expr: Seq<char>,
}

impl View for ImplItemConst {
    type V = ImplItemConstView;

    open spec fn view(&self) -> ImplItemConstView {
        ImplItemConstView {
            attrs: views(self.attrs@),
            vis: self.vis@,
            defaultness: self.defaultness,
            ident: self.ident@,
            generics: self.generics@,
            ty: self.ty@,
            expr: self.expr@,
        }
    }
}

/// The value of an associated type of an implementation.
pub struct ImplItemTypeView {
    pub attrs: Seq<AttributeView>,
    pub vis: VisibilityView,
    pub defaultness: bool,
    pub ident: Seq<char>,
    pub generics: GenericsView,
    pub ty: TypeView,
}

impl View for ImplItemType {
    type V = ImplItemTypeView;

    open spec fn view(&self) -> ImplItemTypeView {
        ImplItemTypeView {
            attrs: views(self.attrs@),
            vis: self.vis@,
            defaultness: self.defaultness,
            ident: self.ident@,
            generics: self.generics@,
            ty: self.ty@,
        }
    }
}

/// The value of the fields of a struct or a variant.
pub enum FieldsView {
    Named(Seq<FieldView>),
    Unnamed(Seq<FieldView>),
    Unit,
}

impl View for Fields {
    type V = FieldsView;

    open spec fn view(&self) -> FieldsView {
        match *self {
            Fields::Named(fields) => FieldsView::Named(views(fields@)),
            Fields::Unnamed(fields) => FieldsView::Unnamed(views(fields@)),
            Fields::Unit => FieldsView::Unit,
        }
    }
}

/// The value of a declaration inside an `extern` block. A token span stands
/// in it by the tokens that it holds.
pub enum ForeignItemView {
    Fn(ForeignItemFnView),
    Static(ForeignItemStaticView),
    Type(ForeignItemTypeView),
    Macro(MemberMacroView),
    Verbatim(Seq<TokenView>),
    Unknown,
}

impl View for ForeignItem {
    type V = ForeignItemView;

    open spec fn view(&self) -> ForeignItemView {
        match *self {
            ForeignItem::Fn(f) => ForeignItemView::Fn(f@),
            ForeignItem::Static(s) => ForeignItemView::Static(s@),
            ForeignItem::Type(t) => ForeignItemView::Type(t@),
            ForeignItem::Macro(m) => ForeignItemView::Macro(m@),
            ForeignItem::Verbatim(ts) => ForeignItemView::Verbatim(tokens_of(ts)),
            ForeignItem::Unknown => ForeignItemView::Unknown,
        }
    }
}

/// The value of a statement.
pub enum StmtView {
    Item(Box<ItemView>),
    Other(Seq<char>),
}

/// The value of a function with its body.
pub struct ItemFnView {
    pub attrs: Seq<AttributeView>,
    pub vis: VisibilityView,
    pub sig: SignatureView,
    pub block: Seq<StmtView>,
}

/// The value of an implementation.
pub struct ItemImplView {
    pub attrs: Seq<AttributeView>,
    pub defaultness: bool,
    pub unsafety: bool,
    pub generics: GenericsView,
    pub trait_: Option<ImplTraitView>,
    pub self_ty: TypeView,
    pub items: Seq<ImplItemView>,
}

/// The value of a module.
pub struct ItemModView {
    pub attrs: Seq<AttributeView>,
    pub vis: VisibilityView,
    pub unsafety: bool,
    pub ident: Seq<char>,
    pub content: Option<Seq<ItemView>>,
}

/// The value of a trait.
pub struct ItemTraitView {
    pub attrs: Seq<AttributeView>,
    pub vis: VisibilityView,
    pub unsafety: bool,
    pub auto_token: bool,
    pub ident: Seq<char>,
    pub generics: GenericsView,
    pub supertraits: Seq<Seq<char>>,
    pub items: Seq<TraitItemView>,
}

/// The value of a method of a trait.
pub struct TraitItemFnView {
    pub attrs: Seq<AttributeView>,
    pub sig: SignatureView,
    pub default: Option<Seq<StmtView>>,
}

/// The value of a method of an implementation.
pub struct ImplItemFnView {
    pub attrs: Seq<AttributeView>,
    pub vis: VisibilityView,
    pub defaultness: bool,
    pub sig: SignatureView,
    pub block: Seq<StmtView>,
}

/// The value of a member of a trait. A token span stands in it by the tokens
/// that it holds.
pub enum TraitItemView {
    Const(TraitItemConstView),
    Fn(TraitItemFnView),
    Type(TraitItemTypeView),
    Macro(MemberMacroView),
    Verbatim(Seq<TokenView>),
    Unknown,
}

/// The value of a member of an implementation. A token span stands in it by
/// the tokens that it holds.
pub enum ImplItemView {
    Const(ImplItemConstView),
    Fn(ImplItemFnView),
    Type(ImplItemTypeView),
    Macro(MemberMacroView),
    Verbatim(Seq<TokenView>),
    Unknown,
}

/// The value of a declaration. A token span stands in it by the tokens that
/// it holds.
pub enum ItemView {
    Const(ItemConstView),
    Enum(ItemEnumView),
    ExternCrate(ItemExternCrateView),
    Fn(ItemFnView),
    ForeignMod(ItemForeignModView),
    Impl(ItemImplView),
    Macro(ItemMacroView),
    Mod(ItemModView),
    Static(ItemStaticView),
    Struct(ItemStructView),
    Trait(ItemTraitView),
    TraitAlias(ItemTraitAliasView),
    Type(ItemTypeView),
    Union(ItemUnionView),
    Use(ItemUseView),
    Verbatim(Seq<TokenView>),
    Unknown,
}

/// The value of a declaration.
pub open spec fn item_view(item: Item) -> ItemView
    decreases item,
{
    match item {
        Item::Const(c) => ItemView::Const(c@),
        Item::Enum(e) => ItemView::Enum(e@),
        Item::ExternCrate(e) => ItemView::ExternCrate(e@),
        Item::Fn(f) => ItemView::Fn(item_fn_view(f)),
        Item::ForeignMod(m) => ItemView::ForeignMod(m@),
        Item::Impl(i) => ItemView::Impl(item_impl_view(i)),
        Item::Macro(m) => ItemView::Macro(m@),
        Item::Mod(m) => ItemView::Mod(item_mod_view(m)),
        Item::Static(s) => ItemView::Static(s@),
        Item::Struct(s) => ItemView::Struct(s@),
        Item::Trait(t) => ItemView::Trait(item_trait_view(t)),
        Item::TraitAlias(t) => ItemView::TraitAlias(t@),
        Item::Type(t) => ItemView::Type(t@),
        Item::Union(u) => ItemView::Union(u@),
        Item::Use(u) => ItemView::Use(u@),
        Item::Verbatim(ts) => ItemView::Verbatim(tokens_of(ts)),
        Item::Unknown => ItemView::Unknown,
    }
}

/// The values of a list of declarations.
pub open spec fn items_view(items: Vec<Item>) -> Seq<ItemView>
    decreases items,
{
    Seq::new(
        items.len() as nat,
        |i: int|
            if 0 <= i < items.len() {
                item_view(items[i])
            } else {
                ItemView::Unknown
            },
    )
}

/// The value of a statement.
pub open spec fn stmt_view(s: Stmt) -> StmtView
    decreases s,
{
    match s {
        Stmt::Item(item) => StmtView::Item(Box::new(item_view(*item))),
        Stmt::Other(text) => StmtView::Other(text@),
    }
}

/// The values of the statements of a body.
pub open spec fn stmts_view(stmts: Vec<Stmt>) -> Seq<StmtView>
    decreases stmts,
{
    Seq::new(
        stmts.len() as nat,
        |i: int|
            if 0 <= i < stmts.len() {
                stmt_view(stmts[i])
            } else {
                StmtView::Other(seq![])
            },
    )
}

/// The value of a function with its body.
pub open spec fn item_fn_view(f: ItemFn) -> ItemFnView
    decreases f,
{
    ItemFnView { attrs: views(f.attrs@), vis: f.vis@, sig: f.sig@, block: stmts_view(f.block) }
}

/// The value of a module.
pub open spec fn item_mod_view(m: ItemMod) -> ItemModView
    decreases m,
{
    ItemModView {
        attrs: views(m.attrs@),
        vis: m.vis@,
        unsafety: m.unsafety,
        ident: m.ident@,
        content: match m.content {
            Some(items) => Some(items_view(items)),
            None => None,
        },
    }
}

/// The value of a method of a trait.
pub open spec fn trait_item_fn_view(f: TraitItemFn) -> TraitItemFnView
    decreases f,
{
    TraitItemFnView {
        attrs: views(f.attrs@),
        sig: f.sig@,
        default: match f.default {
            Some(block) => Some(stmts_view(block)),
            None => None,
        },
    }
}

/// The value of a member of a trait.
pub open spec fn trait_item_view(t: TraitItem) -> TraitItemView
    decreases t,
{
    match t {
        TraitItem::Const(c) => TraitItemView::Const(c@),
        TraitItem::Fn(f) => TraitItemView::Fn(trait_item_fn_view(f)),
        TraitItem::Type(t) => TraitItemView::Type(t@),
        TraitItem::Macro(m) => TraitItemView::Macro(m@),
        TraitItem::Verbatim(ts) => TraitItemView::Verbatim(tokens_of(ts)),
        TraitItem::Unknown => TraitItemView::Unknown,
    }
}

/// The values of the members of a trait.
pub open spec fn trait_items_view(items: Vec<TraitItem>) -> Seq<TraitItemView>
    decreases items,
{
    Seq::new(
        items.len() as nat,
        |i: int|
            if 0 <= i < items.len() {
                trait_item_view(items[i])
            } else {
                TraitItemView::Unknown
            },
    )
}

/// The value of a trait.
pub open spec fn item_trait_view(t: ItemTrait) -> ItemTraitView
    decreases t,
{
    ItemTraitView {
        attrs: views(t.attrs@),
        vis: t.vis@,
        unsafety: t.unsafety,
        auto_token: t.auto_token,
        ident: t.ident@,
        generics: t.generics@,
        supertraits: views(t.supertraits@),
        items: trait_items_view(t.items),
    }
}

/// The value of a method of an implementation.
pub open spec fn impl_item_fn_view(f: ImplItemFn) -> ImplItemFnView
    decreases f,
{
    ImplItemFnView {
        attrs: views(f.attrs@),
        vis: f.vis@,
        defaultness: f.defaultness,
        sig: f.sig@,
        block: stmts_view(f.block),
    }
}

/// The value of a member of an implementation.
pub open spec fn impl_item_view(i: ImplItem) -> ImplItemView
    decreases i,
{
    match i {
        ImplItem::Const(c) => ImplItemView::Const(c@),
        ImplItem::Fn(f) => ImplItemView::Fn(impl_item_fn_view(f)),
        ImplItem::Type(t) => ImplItemView::Type(t@),
        ImplItem::Macro(m) => ImplItemView::Macro(m@),
        ImplItem::Verbatim(ts) => ImplItemView::Verbatim(tokens_of(ts)),
        ImplItem::Unknown => ImplItemView::Unknown,
    }
}

/// The values of the members of an implementation.
pub open spec fn impl_items_view(items: Vec<ImplItem>) -> Seq<ImplItemView>
    decreases items,
{
    Seq::new(
        items.len() as nat,
        |i: int|
            if 0 <= i < items.len() {
                impl_item_view(items[i])
            } else {
                ImplItemView::Unknown
            },
    )
}

/// The value of an implementation.
pub open spec fn item_impl_view(i: ItemImpl) -> ItemImplView
    decreases i,
{
    ItemImplView {
        attrs: views(i.attrs@),
        defaultness: i.defaultness,
        unsafety: i.unsafety,
        generics: i.generics@,
        trait_: view_option(i.trait_),
        self_ty: i.self_ty@,
        items: impl_items_view(i.items),
    }
}

impl View for Item {
    type V = ItemView;

    open spec fn view(&self) -> ItemView {
        item_view(*self)
    }
}

impl View for Stmt {
    type V = StmtView;

    open spec fn view(&self) -> StmtView {
        stmt_view(*self)
    }
}

impl View for ItemFn {
    type V = ItemFnView;

    open spec fn view(&self) -> ItemFnView {
        item_fn_view(*self)
    }
}

impl View for ItemMod {
    type V = ItemModView;

    open spec fn view(&self) -> ItemModView {
        item_mod_view(*self)
    }
}

impl View for ItemImpl {
    type V = ItemImplView;

    open spec fn view(&self) -> ItemImplView {
        item_impl_view(*self)
    }
}

impl View for ItemTrait {
    type V = ItemTraitView;

    open spec fn view(&self) -> ItemTraitView {
        item_trait_view(*self)
    }
}

impl View for TraitItem {
    type V = TraitItemView;

    open spec fn view(&self) -> TraitItemView {
        trait_item_view(*self)
    }
}

impl View for TraitItemFn {
    type V = TraitItemFnView;

    open spec fn view(&self) -> TraitItemFnView {
        trait_item_fn_view(*self)
    }
}

impl View for ImplItem {
    type V = ImplItemView;

    open spec fn view(&self) -> ImplItemView {
        impl_item_view(*self)
    }
}

impl View for ImplItemFn {
    type V = ImplItemFnView;

    open spec fn view(&self) -> ImplItemFnView {
        impl_item_fn_view(*self)
    }
}


/// The values of a sequence stand at the places of the nodes.
pub proof fn lemma_views_at<T: View>(v: Seq<T>)
    ensures
        views(v).len() == v.len(),
        forall|i: int| 0 <= i < v.len() ==> #[trigger] views(v)[i] == v[i]@,
{
}

/// The values of a list of declarations stand at the places of the
/// declarations.
pub proof fn lemma_items_view(items: Vec<Item>)
    ensures
        items_view(items).len() == items.len(),
        forall|i: int| 0 <= i < items.len() ==> #[trigger] items_view(items)[i] == items[i]@,
{
}

/// The values of the statements of a body stand at the places of the
/// statements.
pub proof fn lemma_stmts_view(stmts: Vec<Stmt>)
    ensures
        stmts_view(stmts).len() == stmts.len(),
        forall|i: int| 0 <= i < stmts.len() ==> #[trigger] stmts_view(stmts)[i] == stmts[i]@,
{
}

/// The values of the members of a trait stand at the places of the members.
pub proof fn lemma_trait_items_view(items: Vec<TraitItem>)
    ensures
        trait_items_view(items).len() == items.len(),
        forall|i: int| 0 <= i < items.len() ==> #[trigger] trait_items_view(items)[i] == items[i]@,
{
}

/// The values of the members of an implementation stand at the places of the
/// members.
pub proof fn lemma_impl_items_view(items: Vec<ImplItem>)
    ensures
        impl_items_view(items).len() == items.len(),
        forall|i: int| 0 <= i < items.len() ==> #[trigger] impl_items_view(items)[i] == items[i]@,
{
}

} // verus!
