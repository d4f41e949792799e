use unparser::error::Error;
use unparser::item::{printable, unparse, DEFAULT_WIDTH};
use unparser::printer::Printer;
use unparser::tree::{
    Abi, Attribute, Delimiter, Field, Fields, FnArg, ForeignItem, ForeignItemFn, ForeignItemStatic,
    ForeignItemType, Generics, ImplItem, ImplItemConst, ImplItemFn, ImplItemType, ImplTrait, Item,
    ItemConst, ItemEnum, ItemExternCrate, ItemFn, ItemForeignMod, ItemImpl, ItemMacro, ItemMod,
    ItemStatic, ItemStruct, ItemTrait, ItemTraitAlias, ItemType, ItemUnion, ItemUse, Macro,
    MemberMacro, PatType, Receiver, Signature, Stmt, TraitItem, TraitItemConst, TraitItemFn,
    TraitItemType, Type, UseTree, Variadic, Variant, Visibility,
};

fn s(text: &str) -> String {
    text.to_string()
}

fn no_generics() -> Generics {
    Generics { params: Vec::new(), where_clause: None }
}

fn generics(params: &[&str], predicates: &[&str]) -> Generics {
    Generics {
        params: params.iter().map(|p| s(p)).collect(),
        where_clause: if predicates.is_empty() {
            None
        } else {
            Some(predicates.iter().map(|p| s(p)).collect())
        },
    }
}

fn path(text: &str) -> Type {
    Type::Path { qself: false, path: s(text) }
}

fn reference(mutable: bool, elem: Type) -> Type {
    Type::Reference { lifetime: None, mutable, elem: Box::new(elem) }
}

fn outer(text: &str) -> Attribute {
    Attribute { inner: false, text: s(text) }
}

fn inner(text: &str) -> Attribute {
    Attribute { inner: true, text: s(text) }
}

fn named_field(name: &str, ty: &str) -> Field {
    Field { attrs: Vec::new(), vis: Visibility::Inherited, ident: Some(s(name)), ty: path(ty) }
}

fn tuple_field(ty: &str) -> Field {
    Field { attrs: Vec::new(), vis: Visibility::Inherited, ident: None, ty: path(ty) }
}

fn name(text: &str) -> UseTree {
    UseTree::Name(s(text))
}

fn in_path(segment: &str, tree: UseTree) -> UseTree {
    UseTree::Path(s(segment), Box::new(tree))
}

fn use_item(tree: UseTree) -> Item {
    Item::Use(ItemUse { attrs: Vec::new(), vis: Visibility::Inherited, leading_colon: false, tree })
}

fn signature(name: &str, inputs: Vec<FnArg>, output: Option<Type>) -> Signature {
    Signature {
        constness: false,
        asyncness: false,
        unsafety: false,
        abi: None,
        ident: s(name),
        generics: no_generics(),
        inputs,
        variadic: None,
        output,
    }
}

fn typed(pat: &str, ty: &str) -> FnArg {
    FnArg::Typed(PatType { attrs: Vec::new(), pat: s(pat), ty: path(ty) })
}

fn receiver(reference: Option<Option<String>>, mutability: bool, ty: Type) -> FnArg {
    FnArg::Receiver(Receiver { attrs: Vec::new(), reference, mutability, ty })
}

fn function(sig: Signature, block: Vec<Stmt>) -> Item {
    Item::Fn(ItemFn { attrs: Vec::new(), vis: Visibility::Inherited, sig, block })
}

fn print(item: Item) -> String {
    unparse(&vec![item], DEFAULT_WIDTH).unwrap()
}

fn print_at(item: Item, width: u32) -> String {
    unparse(&vec![item], width).unwrap()
}

#[test]
fn default_width_is_one_hundred() {
    assert_eq!(DEFAULT_WIDTH, 100);
}

#[test]
fn record_with_two_fields_is_a_brace_block() {
    let item = Item::Struct(ItemStruct {
        attrs: vec![outer("#[derive(Debug)]")],
        vis: Visibility::Public,
        ident: s("Point"),
        generics: no_generics(),
        fields: Fields::Named(vec![named_field("x", "i32"), named_field("y", "i32")]),
    });
    assert_eq!(
        print_at(item, 40),
        "#[derive(Debug)]\npub struct Point {\n    x: i32,\n    y: i32,\n}\n"
    );
}

#[test]
fn record_with_one_field_keeps_its_trailing_comma() {
    let item = Item::Struct(ItemStruct {
        attrs: Vec::new(),
        vis: Visibility::Inherited,
        ident: s("One"),
        generics: no_generics(),
        fields: Fields::Named(vec![named_field("only", "u8")]),
    });
    assert_eq!(print(item), "struct One {\n    only: u8,\n}\n");
}

#[test]
fn record_without_fields_closes_at_once() {
    let item = Item::Struct(ItemStruct {
        attrs: Vec::new(),
        vis: Visibility::Inherited,
        ident: s("Empty"),
        generics: no_generics(),
        fields: Fields::Named(Vec::new()),
    });
    assert_eq!(print(item), "struct Empty {}\n");
}

#[test]
fn tuple_struct_stays_on_the_line_without_trailing_comma() {
    let item = Item::Struct(ItemStruct {
        attrs: Vec::new(),
        vis: Visibility::Public,
        ident: s("Pair"),
        generics: no_generics(),
        fields: Fields::Unnamed(vec![tuple_field("u8"), tuple_field("u16")]),
    });
    assert_eq!(print(item), "pub struct Pair(u8, u16);\n");
}

#[test]
fn tuple_struct_that_does_not_fit_breaks_with_trailing_comma() {
    let item = Item::Struct(ItemStruct {
        attrs: Vec::new(),
        vis: Visibility::Inherited,
        ident: s("Pair"),
        generics: no_generics(),
        fields: Fields::Unnamed(vec![tuple_field("Alpha"), tuple_field("Beta")]),
    });
    assert_eq!(print_at(item, 16), "struct Pair(\n    Alpha,\n    Beta,\n);\n");
}

#[test]
fn unit_struct_is_a_bare_terminator() {
    let item = Item::Struct(ItemStruct {
        attrs: Vec::new(),
        vis: Visibility::Inherited,
        ident: s("Unit"),
        generics: no_generics(),
        fields: Fields::Unit,
    });
    assert_eq!(print(item), "struct Unit;\n");
}

#[test]
fn where_clause_before_a_body_stands_on_lines_of_its_own() {
    let item = Item::Struct(ItemStruct {
        attrs: Vec::new(),
        vis: Visibility::Inherited,
        ident: s("W"),
        generics: generics(&["T", "U"], &["T: Clone", "U: Copy"]),
        fields: Fields::Named(vec![named_field("t", "T")]),
    });
    assert_eq!(print(item), "struct W<T, U>\nwhere\n    T: Clone,\n    U: Copy,\n{\n    t: T,\n}\n");
}

#[test]
fn where_clause_before_a_terminator_ends_in_the_semicolon() {
    let item = Item::Struct(ItemStruct {
        attrs: Vec::new(),
        vis: Visibility::Inherited,
        ident: s("W"),
        generics: generics(&["T"], &["T: Clone", "T: Send"]),
        fields: Fields::Unit,
    });
    assert_eq!(print(item), "struct W<T>\nwhere\n    T: Clone,\n    T: Send;\n");
}

#[test]
fn where_clause_breaks_the_positional_fields_of_its_declaration_too() {
    let item = Item::Struct(ItemStruct {
        attrs: Vec::new(),
        vis: Visibility::Inherited,
        ident: s("W"),
        generics: generics(&["T"], &["T: Clone"]),
        fields: Fields::Unnamed(vec![tuple_field("T")]),
    });
    assert_eq!(print(item), "struct W<T>(\n    T,\n)\nwhere\n    T: Clone;\n");
}

#[test]
fn where_clause_of_an_alias_stays_on_the_line() {
    let item = Item::Type(ItemType {
        attrs: Vec::new(),
        vis: Visibility::Public,
        ident: s("A"),
        generics: generics(&["T"], &["T: Clone"]),
        ty: path("Vec<T>"),
    });
    assert_eq!(print(item), "pub type A<T> where T: Clone = Vec<T>;\n");
}

#[test]
fn alias_without_where_clause() {
    let item = Item::Type(ItemType {
        attrs: Vec::new(),
        vis: Visibility::Inherited,
        ident: s("A"),
        generics: no_generics(),
        ty: reference(true, path("u8")),
    });
    assert_eq!(print(item), "type A = &mut u8;\n");
}

#[test]
fn generic_parameters_break_one_to_a_line() {
    let item = Item::Struct(ItemStruct {
        attrs: Vec::new(),
        vis: Visibility::Inherited,
        ident: s("G"),
        generics: generics(&["Alpha", "Beta"], &[]),
        fields: Fields::Unit,
    });
    assert_eq!(print_at(item, 12), "struct G<\n    Alpha,\n    Beta,\n>;\n");
}

#[test]
fn constant() {
    let item = Item::Const(ItemConst {
        attrs: vec![outer("/// The answer.")],
        vis: Visibility::Restricted { in_token: false, path: s("crate") },
        ident: s("ANSWER"),
        generics: no_generics(),
        ty: path("u32"),
        expr: s("6 * 7"),
    });
    assert_eq!(print(item), "/// The answer.\npub(crate) const ANSWER: u32 = 6 * 7;\n");
}

#[test]
fn constant_value_is_never_moved_to_a_line_of_its_own() {
    let item = Item::Const(ItemConst {
        attrs: Vec::new(),
        vis: Visibility::Inherited,
        ident: s("X"),
        generics: no_generics(),
        ty: path("u32"),
        expr: s("1234567890"),
    });
    assert_eq!(print_at(item, 10), "const X: u32 = 1234567890;\n");
}

#[test]
fn statics() {
    let item = Item::Static(ItemStatic {
        attrs: Vec::new(),
        vis: Visibility::Restricted { in_token: true, path: s("super::a") },
        mutability: true,
        ident: s("COUNT"),
        ty: path("usize"),
        expr: s("0"),
    });
    assert_eq!(print(item), "pub(in super::a) static mut COUNT: usize = 0;\n");
}

#[test]
fn enumeration_gives_every_variant_a_line_and_a_comma() {
    let item = Item::Enum(ItemEnum {
        attrs: Vec::new(),
        vis: Visibility::Public,
        ident: s("Shape"),
        generics: no_generics(),
        variants: vec![
            Variant { attrs: Vec::new(), ident: s("Dot"), fields: Fields::Unit, discriminant: None },
            Variant {
                attrs: vec![outer("#[default]")],
                ident: s("Circle"),
                fields: Fields::Unnamed(vec![tuple_field("f32")]),
                discriminant: None,
            },
            Variant {
                attrs: Vec::new(),
                ident: s("Rect"),
                fields: Fields::Named(vec![named_field("w", "u8"), named_field("h", "u8")]),
                discriminant: None,
            },
            Variant { attrs: Vec::new(), ident: s("Last"), fields: Fields::Unit, discriminant: Some(s("9")) },
        ],
    });
    assert_eq!(
        print(item),
        "pub enum Shape {\n    Dot,\n    #[default]\n    Circle(f32),\n    Rect { w: u8, h: u8 },\n    Last = 9,\n}\n"
    );
}

#[test]
fn enumeration_without_variants() {
    let item = Item::Enum(ItemEnum {
        attrs: Vec::new(),
        vis: Visibility::Inherited,
        ident: s("Never"),
        generics: no_generics(),
        variants: Vec::new(),
    });
    assert_eq!(print(item), "enum Never {}\n");
}

#[test]
fn variant_with_named_fields_that_do_not_fit_breaks_with_trailing_comma() {
    let item = Item::Enum(ItemEnum {
        attrs: Vec::new(),
        vis: Visibility::Inherited,
        ident: s("E"),
        generics: no_generics(),
        variants: vec![Variant {
            attrs: Vec::new(),
            ident: s("Rect"),
            fields: Fields::Named(vec![named_field("width", "u8"), named_field("height", "u8")]),
            discriminant: None,
        }],
    });
    assert_eq!(
        print_at(item, 24),
        "enum E {\n    Rect {\n        width: u8,\n        height: u8,\n    },\n}\n"
    );
}

#[test]
fn union() {
    let item = Item::Union(ItemUnion {
        attrs: Vec::new(),
        vis: Visibility::Inherited,
        ident: s("Bits"),
        generics: no_generics(),
        fields: vec![named_field("int", "u32"), named_field("float", "f32")],
    });
    assert_eq!(print(item), "union Bits {\n    int: u32,\n    float: f32,\n}\n");
}

#[test]
fn extern_crate() {
    let plain = Item::ExternCrate(ItemExternCrate {
        attrs: Vec::new(),
        vis: Visibility::Inherited,
        ident: s("alloc"),
        rename: None,
    });
    assert_eq!(print(plain), "extern crate alloc;\n");
    let renamed = Item::ExternCrate(ItemExternCrate {
        attrs: vec![outer("#[macro_use]")],
        vis: Visibility::Public,
        ident: s("alloc"),
        rename: Some(s("heap")),
    });
    assert_eq!(print(renamed), "#[macro_use]\npub extern crate alloc as heap;\n");
}

#[test]
fn function_with_body() {
    let mut sig = signature("add", vec![typed("a", "u8"), typed("b", "u8")], Some(path("u8")));
    sig.constness = true;
    let item = Item::Fn(ItemFn {
        attrs: vec![outer("#[inline]"), inner("#![allow(unused)]")],
        vis: Visibility::Public,
        sig,
        block: vec![Stmt::Other(s("let c = a + b;")), Stmt::Other(s("c"))],
    });
    assert_eq!(
        print(item),
        "#[inline]\npub const fn add(a: u8, b: u8) -> u8 {\n    #![allow(unused)]\n    let c = a + b;\n    c\n}\n"
    );
}

#[test]
fn function_with_empty_body() {
    assert_eq!(print(function(signature("f", Vec::new(), None), Vec::new())), "fn f() {}\n");
}

#[test]
fn function_whose_parameters_do_not_fit() {
    let item = function(signature("compute", vec![typed("first", "u32"), typed("second", "u32")], None), Vec::new());
    assert_eq!(print_at(item, 24), "fn compute(\n    first: u32,\n    second: u32,\n) {}\n");
}

#[test]
fn function_with_nested_declaration() {
    let nested = function(signature("inner", Vec::new(), None), vec![Stmt::Other(s("1;"))]);
    let item = function(signature("outer", Vec::new(), None), vec![Stmt::Item(Box::new(nested))]);
    assert_eq!(print(item), "fn outer() {\n    fn inner() {\n        1;\n    }\n}\n");
}

#[test]
fn function_with_all_qualifiers_and_variadic() {
    let mut sig = signature("f", vec![typed("x", "u8")], None);
    sig.asyncness = true;
    sig.unsafety = true;
    sig.abi = Some(Abi { name: Some(s("\"C\"")) });
    sig.variadic = Some(Variadic { attrs: Vec::new(), pat: Some(s("rest")) });
    sig.generics = generics(&["'a", "T"], &["T: 'a"]);
    assert_eq!(
        print(function(sig, Vec::new())),
        "async unsafe extern \"C\" fn f<'a, T>(x: u8, rest: ...)\nwhere\n    T: 'a,\n{}\n"
    );
}

#[test]
fn receiver_in_short_form() {
    let by_ref = receiver(Some(None), false, reference(false, path("Self")));
    assert_eq!(print(function(signature("f", vec![by_ref], None), Vec::new())), "fn f(&self) {}\n");
    let by_mut = receiver(Some(Some(s("'a"))), true, reference(true, path("Self")));
    assert_eq!(print(function(signature("f", vec![by_mut], None), Vec::new())), "fn f(&'a mut self) {}\n");
    let by_value = receiver(None, true, path("Self"));
    assert_eq!(print(function(signature("f", vec![by_value], None), Vec::new())), "fn f(mut self) {}\n");
}

#[test]
fn receiver_typed_as_reference_to_the_enclosing_type_is_shortened() {
    let typed_ref = receiver(None, false, reference(false, path("Self")));
    assert_eq!(print(function(signature("f", vec![typed_ref], None), Vec::new())), "fn f(&self) {}\n");
    let typed_mut = receiver(
        None,
        false,
        Type::Reference { lifetime: Some(s("'a")), mutable: true, elem: Box::new(path("Self")) },
    );
    assert_eq!(print(function(signature("f", vec![typed_mut], None), Vec::new())), "fn f(&'a mut self) {}\n");
}

#[test]
fn receiver_of_another_type_keeps_its_annotation() {
    let other = receiver(None, false, reference(false, path("Other")));
    assert_eq!(print(function(signature("f", vec![other], None), Vec::new())), "fn f(self: &Other) {}\n");
    let boxed = receiver(None, false, path("Box<Self>"));
    assert_eq!(print(function(signature("f", vec![boxed], None), Vec::new())), "fn f(self: Box<Self>) {}\n");
    let qualified = receiver(None, false, Type::Path { qself: true, path: s("Self") });
    assert_eq!(print(function(signature("f", vec![qualified], None), Vec::new())), "fn f(self: Self) {}\n");
    let deeper = receiver(None, false, reference(false, reference(false, path("Self"))));
    assert_eq!(print(function(signature("f", vec![deeper], None), Vec::new())), "fn f(self: &&Self) {}\n");
}

#[test]
fn receiver_whose_mutability_differs_keeps_its_annotation() {
    let differs = receiver(Some(None), false, reference(true, path("Self")));
    assert_eq!(print(function(signature("f", vec![differs], None), Vec::new())), "fn f(&self: &mut Self) {}\n");
    let by_value = receiver(Some(None), false, path("Self"));
    assert_eq!(print(function(signature("f", vec![by_value], None), Vec::new())), "fn f(&self: Self) {}\n");
    let bound_mut = receiver(None, true, reference(false, path("Self")));
    assert_eq!(print(function(signature("f", vec![bound_mut], None), Vec::new())), "fn f(mut self: &Self) {}\n");
}

#[test]
fn module_with_and_without_content() {
    let declared = Item::Mod(ItemMod {
        attrs: Vec::new(),
        vis: Visibility::Public,
        unsafety: false,
        ident: s("a"),
        content: None,
    });
    assert_eq!(print(declared), "pub mod a;\n");
    let empty = Item::Mod(ItemMod {
        attrs: Vec::new(),
        vis: Visibility::Inherited,
        unsafety: true,
        ident: s("b"),
        content: Some(Vec::new()),
    });
    assert_eq!(print(empty), "unsafe mod b {}\n");
    let filled = Item::Mod(ItemMod {
        attrs: vec![inner("//! Inner doc."), outer("#[cfg(test)]")],
        vis: Visibility::Inherited,
        unsafety: false,
        ident: s("c"),
        content: Some(vec![use_item(in_path("super", UseTree::Glob)), function(signature("f", Vec::new(), None), Vec::new())]),
    });
    assert_eq!(print(filled), "#[cfg(test)]\nmod c {\n    //! Inner doc.\n    use super::*;\n    fn f() {}\n}\n");
}

#[test]
fn module_that_holds_an_unknown_declaration_leaves_no_text() {
    let item = Item::Mod(ItemMod {
        attrs: Vec::new(),
        vis: Visibility::Inherited,
        unsafety: false,
        ident: s("m"),
        content: Some(vec![function(signature("f", Vec::new(), None), Vec::new()), Item::Unknown]),
    });
    assert!(!printable(&item));
    assert_eq!(unparse(&vec![item], 100), Err(Error::Unrepresentable));
}

#[test]
fn printer_is_left_untouched_by_a_refused_declaration() {
    let mut p = Printer::new();
    p.word("before");
    let bad = function(signature("f", Vec::new(), None), vec![Stmt::Item(Box::new(Item::Unknown))]);
    assert_eq!(p.item(&bad), Err(Error::Unrepresentable));
    assert_eq!(p.instructions().len(), 1);
    assert_eq!(p.item(&function(signature("f", Vec::new(), None), Vec::new())), Ok(()));
    assert_eq!(p.eof(100), "beforefn f() {}\n");
}

#[test]
fn implementation() {
    let item = Item::Impl(ItemImpl {
        attrs: Vec::new(),
        defaultness: false,
        unsafety: true,
        generics: generics(&["T"], &["T: Send"]),
        trait_: Some(ImplTrait { negative: false, path: s("Sync") }),
        self_ty: path("Wrapper<T>"),
        items: vec![
            ImplItem::Const(ImplItemConst {
                attrs: Vec::new(),
                vis: Visibility::Inherited,
                defaultness: true,
                ident: s("N"),
                generics: no_generics(),
                ty: path("u8"),
                expr: s("1"),
            }),
            ImplItem::Type(ImplItemType {
                attrs: Vec::new(),
                vis: Visibility::Inherited,
                defaultness: false,
                ident: s("Out"),
                generics: no_generics(),
                ty: path("T"),
            }),
            ImplItem::Fn(ImplItemFn {
                attrs: Vec::new(),
                vis: Visibility::Public,
                defaultness: false,
                sig: signature("get", vec![receiver(Some(None), false, reference(false, path("Self")))], Some(path("T"))),
                block: vec![Stmt::Other(s("self.0"))],
            }),
            ImplItem::Macro(MemberMacro {
                attrs: Vec::new(),
                mac: Macro { path: s("more"), delimiter: Delimiter::Paren, tokens: s("1, 2") },
            }),
        ],
    });
    assert_eq!(
        print(item),
        "unsafe impl<T> Sync for Wrapper<T>\nwhere\n    T: Send,\n{\n    default const N: u8 = 1;\n    type Out = T;\n    pub fn get(&self) -> T {\n        self.0\n    }\n    more!(1, 2);\n}\n"
    );
}

#[test]
fn negative_implementation() {
    let item = Item::Impl(ItemImpl {
        attrs: Vec::new(),
        defaultness: false,
        unsafety: false,
        generics: no_generics(),
        trait_: Some(ImplTrait { negative: true, path: s("Send") }),
        self_ty: path("Cell"),
        items: Vec::new(),
    });
    assert_eq!(print(item), "impl !Send for Cell {}\n");
}

#[test]
fn implementation_header_breaks_before_for() {
    let item = Item::Impl(ItemImpl {
        attrs: Vec::new(),
        defaultness: false,
        unsafety: false,
        generics: no_generics(),
        trait_: Some(ImplTrait { negative: false, path: s("LongTraitName") }),
        self_ty: path("LongTypeName"),
        items: Vec::new(),
    });
    assert_eq!(print_at(item, 24), "impl LongTraitName\nfor LongTypeName {}\n");
}

#[test]
fn trait_with_members() {
    let item = Item::Trait(ItemTrait {
        attrs: Vec::new(),
        vis: Visibility::Public,
        unsafety: true,
        auto_token: false,
        ident: s("Shape"),
        generics: no_generics(),
        supertraits: vec![s("Debug"), s("Send")],
        items: vec![
            TraitItem::Const(TraitItemConst {
                attrs: Vec::new(),
                ident: s("SIDES"),
                generics: no_generics(),
                ty: path("u8"),
                default: None,
            }),
            TraitItem::Const(TraitItemConst {
                attrs: Vec::new(),
                ident: s("ROUND"),
                generics: no_generics(),
                ty: path("bool"),
                default: Some(s("false")),
            }),
            TraitItem::Type(TraitItemType {
                attrs: Vec::new(),
                ident: s("Unit"),
                generics: no_generics(),
                bounds: vec![s("Copy"), s("Eq")],
                default: Some(path("u8")),
            }),
            TraitItem::Fn(TraitItemFn {
                attrs: Vec::new(),
                sig: signature("area", vec![receiver(Some(None), false, reference(false, path("Self")))], Some(path("f32"))),
                default: None,
            }),
            TraitItem::Fn(TraitItemFn {
                attrs: Vec::new(),
                sig: signature("name", Vec::new(), None),
                default: Some(vec![Stmt::Other(s("todo!()"))]),
            }),
            TraitItem::Macro(MemberMacro {
                attrs: vec![outer("#[rustfmt::skip]")],
                mac: Macro { path: s("items"), delimiter: Delimiter::Brace, tokens: s("a b") },
            }),
        ],
    });
    assert_eq!(
        print(item),
        "pub unsafe trait Shape: Debug + Send {\n    const SIDES: u8;\n    const ROUND: bool = false;\n    type Unit: Copy + Eq = u8;\n    fn area(&self) -> f32;\n    fn name() {\n        todo!()\n    }\n    #[rustfmt::skip]\n    items! { a b }\n}\n"
    );
}

#[test]
fn auto_trait() {
    let item = Item::Trait(ItemTrait {
        attrs: Vec::new(),
        vis: Visibility::Inherited,
        unsafety: false,
        auto_token: true,
        ident: s("Marker"),
        generics: no_generics(),
        supertraits: Vec::new(),
        items: Vec::new(),
    });
    assert_eq!(print(item), "auto trait Marker {}\n");
}

#[test]
fn trait_alias() {
    let item = Item::TraitAlias(ItemTraitAlias {
        attrs: Vec::new(),
        vis: Visibility::Public,
        ident: s("Both"),
        generics: generics(&["T"], &[]),
        bounds: vec![s("Clone"), s("Send")],
    });
    assert_eq!(print(item), "pub trait Both<T> = Clone + Send;\n");
}

#[test]
fn trait_alias_bounds_may_run_over_the_line() {
    let item = Item::TraitAlias(ItemTraitAlias {
        attrs: Vec::new(),
        vis: Visibility::Inherited,
        ident: s("B"),
        generics: no_generics(),
        bounds: vec![s("Alpha"), s("Beta")],
    });
    assert_eq!(print_at(item, 18), "trait B = Alpha\n    + Beta;\n");
}

#[test]
fn foreign_block() {
    let mut sig = signature("puts", vec![typed("s", "*const u8")], Some(path("i32")));
    sig.unsafety = true;
    let item = Item::ForeignMod(ItemForeignMod {
        attrs: vec![inner("#![link(name = \"c\")]")],
        unsafety: true,
        abi: Abi { name: Some(s("\"C\"")) },
        items: vec![
            ForeignItem::Fn(ForeignItemFn { attrs: Vec::new(), vis: Visibility::Public, sig }),
            ForeignItem::Static(ForeignItemStatic {
                attrs: Vec::new(),
                vis: Visibility::Inherited,
                mutability: true,
                ident: s("errno"),
                ty: path("i32"),
            }),
            ForeignItem::Type(ForeignItemType {
                attrs: Vec::new(),
                vis: Visibility::Inherited,
                ident: s("File"),
                generics: no_generics(),
            }),
            ForeignItem::Macro(MemberMacro {
                attrs: Vec::new(),
                mac: Macro { path: s("more"), delimiter: Delimiter::Bracket, tokens: s("") },
            }),
        ],
    });
    assert_eq!(
        print(item),
        "unsafe extern \"C\" {\n    #![link(name = \"c\")]\n    pub unsafe fn puts(s: *const u8) -> i32;\n    static mut errno: i32;\n    type File;\n    more![];\n}\n"
    );
}

#[test]
fn foreign_block_without_name() {
    let item = Item::ForeignMod(ItemForeignMod {
        attrs: Vec::new(),
        unsafety: false,
        abi: Abi { name: None },
        items: Vec::new(),
    });
    assert_eq!(print(item), "extern {}\n");
}

#[test]
fn macro_invocations_need_a_semicolon_unless_braced() {
    let call = |delimiter, ident: Option<&str>, tokens: &str| {
        print(Item::Macro(ItemMacro {
            attrs: Vec::new(),
            ident: ident.map(s),
            mac: Macro { path: s("m"), delimiter, tokens: s(tokens) },
        }))
    };
    assert_eq!(call(Delimiter::Paren, None, "a, b"), "m!(a, b);\n");
    assert_eq!(call(Delimiter::Bracket, None, "a; 3"), "m![a; 3];\n");
    assert_eq!(call(Delimiter::Brace, None, "a => b"), "m! { a => b }\n");
    assert_eq!(call(Delimiter::Brace, Some("name"), ""), "m! name {}\n");
    assert_eq!(call(Delimiter::Paren, None, ""), "m!();\n");
}

#[test]
fn import_of_two_siblings_stays_on_one_line() {
    let tree = in_path("std", in_path("fmt", UseTree::Group(vec![name("Debug"), name("Display")])));
    assert_eq!(print(use_item(tree)), "use std::fmt::{Debug, Display};\n");
}

#[test]
fn import_with_a_nested_group_breaks_before_the_next_sibling() {
    let nested = in_path("b", UseTree::Group(vec![name("c"), name("d")]));
    let tree = in_path("a", UseTree::Group(vec![nested, name("e")]));
    assert_eq!(print(use_item(tree)), "use a::{\n    b::{c, d},\n    e,\n};\n");
}

#[test]
fn import_with_a_nested_group_in_last_place_stays_on_one_line() {
    let nested = in_path("b", UseTree::Group(vec![name("c"), name("d")]));
    let tree = in_path("a", UseTree::Group(vec![name("e"), nested]));
    assert_eq!(print(use_item(tree)), "use a::{e, b::{c, d}};\n");
}

#[test]
fn import_group_of_one_child_loses_its_braces() {
    let grouped = in_path("a", UseTree::Group(vec![name("b")]));
    let plain = in_path("a", name("b"));
    assert_eq!(print(use_item(grouped)), "use a::b;\n");
    assert_eq!(print(use_item(plain)), "use a::b;\n");
    let twice = in_path("a", UseTree::Group(vec![UseTree::Group(vec![UseTree::Glob])]));
    assert_eq!(print(use_item(twice)), "use a::*;\n");
}

#[test]
fn import_group_without_children_keeps_its_braces() {
    assert_eq!(print(use_item(in_path("a", UseTree::Group(Vec::new())))), "use a::{};\n");
    assert_eq!(print_at(use_item(UseTree::Group(Vec::new())), 1), "use {};\n");
}

#[test]
fn import_group_that_does_not_fit_fills_its_lines_and_gets_a_trailing_comma() {
    let tree = in_path(
        "a",
        UseTree::Group(vec![name("alpha"), name("beta"), name("gamma"), name("delta")]),
    );
    assert_eq!(
        print_at(use_item(tree), 24),
        "use a::{\n    alpha, beta, gamma,\n    delta,\n};\n"
    );
}

#[test]
fn import_with_rename_glob_and_leading_colon() {
    let item = Item::Use(ItemUse {
        attrs: vec![outer("#[doc(hidden)]")],
        vis: Visibility::Public,
        leading_colon: true,
        tree: in_path("a", UseTree::Group(vec![UseTree::Rename(s("b"), s("c")), in_path("d", UseTree::Glob)])),
    });
    assert_eq!(print(item), "#[doc(hidden)]\npub use ::a::{b as c, d::*};\n");
}

#[test]
fn several_declarations_follow_one_another() {
    let items = vec![
        use_item(name("a")),
        Item::Struct(ItemStruct {
            attrs: Vec::new(),
            vis: Visibility::Inherited,
            ident: s("S"),
            generics: no_generics(),
            fields: Fields::Unit,
        }),
    ];
    assert_eq!(unparse(&items, 100).unwrap(), "use a;\nstruct S;\n");
    assert_eq!(unparse(&Vec::new(), 100).unwrap(), "");
}

#[test]
fn formatting_is_deterministic() {
    let make = || in_path("a", UseTree::Group(vec![name("alpha"), name("beta"), name("gamma")]));
    assert_eq!(print_at(use_item(make()), 16), print_at(use_item(make()), 16));
}

#[test]
fn associated_types_keep_their_where_clause_on_the_line() {
    let in_trait = Item::Trait(ItemTrait {
        attrs: Vec::new(),
        vis: Visibility::Inherited,
        unsafety: false,
        auto_token: false,
        ident: s("T"),
        generics: no_generics(),
        supertraits: Vec::new(),
        items: vec![TraitItem::Type(TraitItemType {
            attrs: Vec::new(),
            ident: s("A"),
            generics: generics(&["'a"], &["Self: 'a"]),
            bounds: Vec::new(),
            default: None,
        })],
    });
    assert_eq!(print(in_trait), "trait T {\n    type A<'a> where Self: 'a;\n}\n");
    let in_impl = Item::Impl(ItemImpl {
        attrs: Vec::new(),
        defaultness: true,
        unsafety: false,
        generics: no_generics(),
        trait_: None,
        self_ty: path("S"),
        items: vec![ImplItem::Type(ImplItemType {
            attrs: Vec::new(),
            vis: Visibility::Inherited,
            defaultness: false,
            ident: s("A"),
            generics: generics(&["'a"], &["Self: 'a", "S: 'a"]),
            ty: reference(false, path("u8")),
        })],
    });
    assert_eq!(print(in_impl), "default impl S {\n    type A<'a> = &u8 where Self: 'a, S: 'a;\n}\n");
}

#[test]
fn where_clause_on_the_line_breaks_when_it_has_to() {
    let item = Item::Type(ItemType {
        attrs: Vec::new(),
        vis: Visibility::Inherited,
        ident: s("A"),
        generics: generics(&["T"], &["T: Alpha", "T: Beta"]),
        ty: path("Vec<T>"),
    });
    assert_eq!(print_at(item, 24), "type A<T>\nwhere\n    T: Alpha,\n    T: Beta,\n= Vec<T>;\n");
}

#[test]
fn empty_where_clause_counts_as_none() {
    let item = Item::Struct(ItemStruct {
        attrs: Vec::new(),
        vis: Visibility::Inherited,
        ident: s("S"),
        generics: Generics { params: Vec::new(), where_clause: Some(Vec::new()) },
        fields: Fields::Unit,
    });
    assert_eq!(print(item), "struct S;\n");
}

#[test]
fn attributes_of_fields_and_parameters_stand_before_them() {
    let mut field = named_field("x", "u8");
    field.attrs = vec![outer("/// Documented.")];
    field.vis = Visibility::Public;
    let item = Item::Struct(ItemStruct {
        attrs: Vec::new(),
        vis: Visibility::Inherited,
        ident: s("S"),
        generics: no_generics(),
        fields: Fields::Named(vec![field]),
    });
    assert_eq!(print(item), "struct S {\n    /// Documented.\n    pub x: u8,\n}\n");
}

#[test]
fn members_without_a_rendering_are_refused_and_leave_nothing() {
    let mut p = Printer::new();
    p.word("x");
    assert_eq!(p.foreign_item(&ForeignItem::Unknown), Err(Error::Unrepresentable));
    assert_eq!(p.trait_item(&TraitItem::Unknown), Err(Error::Unrepresentable));
    assert_eq!(p.impl_item(&ImplItem::Unknown), Err(Error::Unrepresentable));
    let bad = ImplItem::Fn(ImplItemFn {
        attrs: Vec::new(),
        vis: Visibility::Inherited,
        defaultness: false,
        sig: signature("f", Vec::new(), None),
        block: vec![Stmt::Other(s("1;")), Stmt::Item(Box::new(Item::Unknown))],
    });
    assert_eq!(p.impl_item(&bad), Err(Error::Unrepresentable));
    assert_eq!(p.instructions().len(), 1);
    let ty = ForeignItem::Type(ForeignItemType {
        attrs: Vec::new(),
        vis: Visibility::Inherited,
        ident: s("T"),
        generics: no_generics(),
    });
    assert_eq!(p.foreign_item(&ty), Ok(()));
    let constant = TraitItem::Const(TraitItemConst {
        attrs: Vec::new(),
        ident: s("N"),
        generics: no_generics(),
        ty: path("u8"),
        default: None,
    });
    assert_eq!(p.trait_item(&constant), Ok(()));
    let alias = ImplItem::Type(ImplItemType {
        attrs: Vec::new(),
        vis: Visibility::Inherited,
        defaultness: false,
        ident: s("A"),
        generics: no_generics(),
        ty: path("u8"),
    });
    assert_eq!(p.impl_item(&alias), Ok(()));
    assert_eq!(p.eof(100), "xtype T;\nconst N: u8;\ntype A = u8;\n");
}
