use proc_macro2::TokenStream;
use unparser::error::Error;
use unparser::item::unparse;
use unparser::tree::{
    Abi, ForeignItem, Generics, ImplItem, ImplItemFn, Item, ItemForeignMod, ItemImpl, Signature, Stmt,
    TraitItem, Type, Visibility, ItemTrait,
};

fn span(s: &str) -> TokenStream {
    s.parse().unwrap()
}

fn verbatim(s: &str) -> Result<String, Error> {
    unparse(&vec![Item::Verbatim(span(s))], 100)
}

fn narrow(s: &str, width: u32) -> String {
    unparse(&vec![Item::Verbatim(span(s))], width).unwrap()
}

#[test]
fn empty_span_is_an_empty_line() {
    assert_eq!(verbatim("").unwrap(), "\n");
}

#[test]
fn signature_without_body() {
    assert_eq!(verbatim("fn f();").unwrap(), "fn f();\n");
    assert_eq!(
        verbatim("pub(crate) const unsafe extern \"C\" fn go<T, U>(x: Vec<T>, y: &'a mut U) -> Option<T>;").unwrap(),
        "pub(crate) const unsafe extern \"C\" fn go<T, U>(x: Vec<T>, y: &'a mut U) -> Option<T>;\n"
    );
}

#[test]
fn signature_with_attributes_and_where_clause() {
    assert_eq!(
        verbatim("#[inline] #[must_use] pub fn f<T>(x: T) -> T where T: Clone, T: Send;").unwrap(),
        "#[inline]\n#[must_use]\npub fn f<T>(x: T) -> T\nwhere\n    T: Clone,\n    T: Send;\n"
    );
}

#[test]
fn signature_keeps_commas_inside_angle_brackets_together() {
    assert_eq!(
        verbatim("fn f(m: HashMap<K, V>, n: u8);").unwrap(),
        "fn f(m: HashMap<K, V>, n: u8);\n"
    );
}

#[test]
fn signature_that_does_not_fit_breaks_its_parameters() {
    assert_eq!(
        narrow("fn long_name(first: u32, second: u32);", 20),
        "fn long_name(\n    first: u32,\n    second: u32,\n);\n"
    );
}

#[test]
fn signature_receivers() {
    assert_eq!(verbatim("fn f(&self);").unwrap(), "fn f(&self);\n");
    assert_eq!(verbatim("fn f(&'a mut self, x: u8);").unwrap(), "fn f(&'a mut self, x: u8);\n");
    assert_eq!(verbatim("fn f(mut self);").unwrap(), "fn f(mut self);\n");
    assert_eq!(verbatim("fn f(self: &Self);").unwrap(), "fn f(&self);\n");
    assert_eq!(verbatim("fn f(self: &mut Self);").unwrap(), "fn f(&mut self);\n");
    assert_eq!(verbatim("fn f(self: Self);").unwrap(), "fn f(self);\n");
    assert_eq!(verbatim("fn f(self: Box<Self>);").unwrap(), "fn f(self: Box<Self>);\n");
    assert_eq!(verbatim("fn f(self: &Other);").unwrap(), "fn f(self: &Other);\n");
    assert_eq!(verbatim("fn f(mut self: &Self);").unwrap(), "fn f(mut self: &Self);\n");
}

#[test]
fn signature_with_variadic() {
    assert_eq!(
        verbatim("unsafe extern \"C\" fn printf(fmt: *const c_char, ...);").unwrap(),
        "unsafe extern \"C\" fn printf(fmt: *const c_char, ...);\n"
    );
    assert_eq!(verbatim("fn f(args: ...);").unwrap(), "fn f(args: ...);\n");
    assert_eq!(verbatim("fn f(..., x: u8);"), Err(Error::Unrepresentable));
}

#[test]
fn static_without_type() {
    assert_eq!(verbatim("static X = 1 + 2;").unwrap(), "static X = 1 + 2;\n");
    assert_eq!(verbatim("pub static mut Y = f(1, 2);").unwrap(), "pub static mut Y = f(1, 2);\n");
}

#[test]
fn static_whose_value_starts_with_punctuation() {
    assert_eq!(verbatim("static X =-1;").unwrap(), "static X = - 1;\n");
    assert_eq!(verbatim("static P =&Q;").unwrap(), "static P = & Q;\n");
    assert_eq!(verbatim("static N = !0;").unwrap(), "static N = !0;\n");
}

#[test]
fn static_needs_a_name() {
    assert_eq!(verbatim("static fn = 1;"), Err(Error::Unrepresentable));
    assert_eq!(verbatim("static _ = 1;"), Err(Error::Unrepresentable));
    assert_eq!(verbatim("static mut = 1;"), Err(Error::Unrepresentable));
    assert_eq!(verbatim("static r#fn = 1;").unwrap(), "static r#fn = 1;\n");
}

#[test]
fn punctuation_written_without_spaces_is_read_all_the_same() {
    assert_eq!(verbatim("fn f(x:&u8,y:*const u8)->&u8;").unwrap(), "fn f(x: &u8, y: *const u8) -> &u8;\n");
    assert_eq!(verbatim("fn f(self:&Self);").unwrap(), "fn f(&self);\n");
    assert_eq!(verbatim("fn f(self:::a::B);"), Err(Error::Unrepresentable));
    assert_eq!(verbatim("fn f<T:Copy>(x:T)where T:Send;").unwrap(), "fn f<T: Copy>(x: T)\nwhere\n    T: Send;\n");
    assert_eq!(
        unparse(&vec![foreign(vec![ForeignItem::Verbatim(span("type A =&u8;"))])], 100).unwrap(),
        "extern \"C\" {\n    type A = &u8;\n}\n"
    );
    assert_eq!(
        unparse(&vec![foreign(vec![ForeignItem::Verbatim(span("type A<T>=T;"))])], 100).unwrap(),
        "extern \"C\" {\n    type A<T> = T;\n}\n"
    );
}

#[test]
fn import_of_a_keyword_is_refused() {
    assert_eq!(verbatim("use {fn};"), Err(Error::Unrepresentable));
    assert_eq!(verbatim("use {a, b::type};"), Err(Error::Unrepresentable));
    assert_eq!(verbatim("use {a as fn, b};"), Err(Error::Unrepresentable));
    assert_eq!(verbatim("use {_};"), Err(Error::Unrepresentable));
    assert_eq!(verbatim("use {self, super::a, crate::b as _, ::try};").unwrap(), "use {self, super::a, crate::b as _, ::try};\n");
    assert_eq!(verbatim("use {r#fn};").unwrap(), "use ::r#fn;\n");
}

#[test]
fn semicolon_marker_is_told_by_its_text() {
    let inner: TokenStream = ";".parse().unwrap();
    let wrapped: TokenStream =
        std::iter::once(proc_macro2::TokenTree::Group(proc_macro2::Group::new(proc_macro2::Delimiter::None, inner)))
            .collect();
    let stub = method(vec![Stmt::Item(Box::new(Item::Verbatim(wrapped)))]);
    assert_eq!(unparse(&vec![impl_with(vec![stub])], 100).unwrap(), "impl S {\n    fn f();\n}\n");
    let braced = method(vec![Stmt::Item(Box::new(Item::Verbatim(span("{;}"))))]);
    assert_eq!(unparse(&vec![impl_with(vec![braced])], 100), Err(Error::Unrepresentable));
}

#[test]
fn static_that_is_malformed_is_refused() {
    assert_eq!(verbatim("static X;"), Err(Error::Unrepresentable));
    assert_eq!(verbatim("static X = ;"), Err(Error::Unrepresentable));
    assert_eq!(verbatim("static X = 1"), Err(Error::Unrepresentable));
    assert_eq!(verbatim("static X = 1; 2;"), Err(Error::Unrepresentable));
    assert_eq!(verbatim("static X == 1;"), Err(Error::Unrepresentable));
}

#[test]
fn parts_kept_as_text_have_to_be_well_formed() {
    assert_eq!(verbatim("static X = 1 +;"), Err(Error::Unrepresentable));
    assert_eq!(verbatim("static X = let;"), Err(Error::Unrepresentable));
    assert_eq!(verbatim("fn f(x: u8 u8);"), Err(Error::Unrepresentable));
    assert_eq!(verbatim("fn f() -> u8 u8;"), Err(Error::Unrepresentable));
    assert_eq!(verbatim("fn f<T: >>(x: T);"), Err(Error::Unrepresentable));
    assert_eq!(verbatim("fn f(x: u8) where T T;"), Err(Error::Unrepresentable));
    assert_eq!(verbatim("fn f(x: u8, &self);"), Err(Error::Unrepresentable));
}

#[test]
fn root_import_with_braces() {
    assert_eq!(verbatim("use {::a, b};").unwrap(), "use {::a, b};\n");
    assert_eq!(verbatim("use {::a::b as c};").unwrap(), "use ::a::b as c;\n");
    assert_eq!(verbatim("use {};").unwrap(), "use {};\n");
    assert_eq!(verbatim("pub use {a::{b, c}, ::d::*,};").unwrap(), "pub use {\n    a::{b, c},\n    ::d::*,\n};\n");
}

#[test]
fn root_import_that_does_not_fit_fills_its_lines() {
    assert_eq!(
        narrow("use {::alpha, ::beta, ::gamma};", 20),
        "use {\n    ::alpha, ::beta,\n    ::gamma,\n};\n"
    );
}

#[test]
fn root_import_that_is_malformed_is_refused() {
    assert_eq!(verbatim("use {a,,b};"), Err(Error::Unrepresentable));
    assert_eq!(verbatim("use {a b};"), Err(Error::Unrepresentable));
    assert_eq!(verbatim("use {a}"), Err(Error::Unrepresentable));
    assert_eq!(verbatim("use a;"), Err(Error::Unrepresentable));
    assert_eq!(verbatim("use {a::};"), Err(Error::Unrepresentable));
}

#[test]
fn spans_of_no_known_shape_are_refused() {
    assert_eq!(verbatim("struct S;"), Err(Error::Unrepresentable));
    assert_eq!(verbatim("pub"), Err(Error::Unrepresentable));
    assert_eq!(verbatim("#[attr]"), Err(Error::Unrepresentable));
    assert_eq!(verbatim(";"), Err(Error::Unrepresentable));
    assert_eq!(verbatim("fn f()"), Err(Error::Unrepresentable));
    assert_eq!(verbatim("fn f() {}"), Err(Error::Unrepresentable));
    assert_eq!(verbatim("fn ();"), Err(Error::Unrepresentable));
    assert_eq!(verbatim("fn f() -> ;"), Err(Error::Unrepresentable));
    assert_eq!(verbatim("fn f<T();"), Err(Error::Unrepresentable));
    assert_eq!(verbatim("fn f(x);"), Err(Error::Unrepresentable));
    assert_eq!(verbatim("fn f(&self: T);"), Err(Error::Unrepresentable));
}

fn signature(name: &str) -> Signature {
    Signature {
        constness: false,
        asyncness: false,
        unsafety: false,
        abi: None,
        ident: name.to_string(),
        generics: Generics { params: Vec::new(), where_clause: None },
        inputs: Vec::new(),
        variadic: None,
        output: None,
    }
}

fn impl_with(items: Vec<ImplItem>) -> Item {
    Item::Impl(ItemImpl {
        attrs: Vec::new(),
        defaultness: false,
        unsafety: false,
        generics: Generics { params: Vec::new(), where_clause: None },
        trait_: None,
        self_ty: Type::Path { qself: false, path: "S".to_string() },
        items,
    })
}

fn method(block: Vec<Stmt>) -> ImplItem {
    ImplItem::Fn(ImplItemFn {
        attrs: Vec::new(),
        vis: Visibility::Inherited,
        defaultness: false,
        sig: signature("f"),
        block,
    })
}

#[test]
fn method_whose_body_is_a_semicolon_marker_ends_in_a_semicolon() {
    let stub = method(vec![Stmt::Item(Box::new(Item::Verbatim(span(";"))))]);
    assert_eq!(unparse(&vec![impl_with(vec![stub])], 100).unwrap(), "impl S {\n    fn f();\n}\n");
}

#[test]
fn method_with_an_empty_body_keeps_its_braces() {
    assert_eq!(
        unparse(&vec![impl_with(vec![method(Vec::new())])], 100).unwrap(),
        "impl S {\n    fn f() {}\n}\n"
    );
}

#[test]
fn method_whose_body_holds_an_unknown_span_is_refused() {
    let bad = method(vec![Stmt::Item(Box::new(Item::Verbatim(span("; ;"))))]);
    assert_eq!(unparse(&vec![impl_with(vec![bad])], 100), Err(Error::Unrepresentable));
}

#[test]
fn member_spans_must_be_empty() {
    assert_eq!(
        unparse(&vec![impl_with(vec![ImplItem::Verbatim(span(""))])], 100).unwrap(),
        "impl S {\n\n}\n"
    );
    assert_eq!(
        unparse(&vec![impl_with(vec![ImplItem::Verbatim(span("fn f();"))])], 100),
        Err(Error::Unrepresentable)
    );
    let holder = |items| {
        Item::Trait(ItemTrait {
            attrs: Vec::new(),
            vis: Visibility::Inherited,
            unsafety: false,
            auto_token: false,
            ident: "T".to_string(),
            generics: Generics { params: Vec::new(), where_clause: None },
            supertraits: Vec::new(),
            items,
        })
    };
    assert_eq!(unparse(&vec![holder(vec![TraitItem::Verbatim(span(""))])], 100).unwrap(), "trait T {\n\n}\n");
    assert_eq!(
        unparse(&vec![holder(vec![TraitItem::Verbatim(span("x"))])], 100),
        Err(Error::Unrepresentable)
    );
    assert_eq!(unparse(&vec![holder(vec![TraitItem::Unknown])], 100), Err(Error::Unrepresentable));
    assert_eq!(unparse(&vec![impl_with(vec![ImplItem::Unknown])], 100), Err(Error::Unrepresentable));
}

fn foreign(items: Vec<ForeignItem>) -> Item {
    Item::ForeignMod(ItemForeignMod {
        attrs: Vec::new(),
        unsafety: false,
        abi: Abi { name: Some("\"C\"".to_string()) },
        items,
    })
}

#[test]
fn foreign_span_is_a_type_alias() {
    assert_eq!(
        unparse(&vec![foreign(vec![ForeignItem::Verbatim(span("pub type T<U> = Vec<U>;"))])], 100).unwrap(),
        "extern \"C\" {\n    pub type T<U> = Vec<U>;\n}\n"
    );
    assert_eq!(
        unparse(&vec![foreign(vec![ForeignItem::Verbatim(span("type T<U> where U: Copy = &'a mut U;"))])], 100)
            .unwrap(),
        "extern \"C\" {\n    type T<U> where U: Copy = &'a mut U;\n}\n"
    );
}

#[test]
fn foreign_span_of_another_shape_is_refused() {
    for bad in ["", "type T;", "type T = ;", "type = u8;", "fn f();", "type T = u8", "type T where = u8;x", "type T = u8 u8;"] {
        assert_eq!(
            unparse(&vec![foreign(vec![ForeignItem::Verbatim(span(bad))])], 100),
            Err(Error::Unrepresentable),
            "{}",
            bad
        );
    }
    assert_eq!(unparse(&vec![foreign(vec![ForeignItem::Unknown])], 100), Err(Error::Unrepresentable));
}

#[test]
fn formatting_a_formatted_span_changes_nothing() {
    for source in [
        "",
        "fn f();",
        "# [ inline ] pub ( crate ) unsafe fn g < 'a , T : Clone > ( & 'a mut self , x : Vec < T > , y : & [ u8 ] ) -> Option < & 'a T > where T : Send ;",
        "fn very_long_function_name(first_parameter: FirstType, second_parameter: SecondType, third: Third);",
        "static mut COUNTER = AtomicUsize :: new ( 0 ) ;",
        "pub use { :: alpha :: { beta , gamma :: * } , delta as epsilon , :: zeta } ;",
    ] {
        for width in [20, 40, 100] {
            let once = unparse(&vec![Item::Verbatim(span(source))], width).unwrap();
            let twice = unparse(&vec![Item::Verbatim(span(&once))], width).unwrap();
            assert_eq!(once, twice, "{} at {}", source, width);
        }
    }
}

#[test]
fn formatting_a_formatted_foreign_span_changes_nothing() {
    for source in ["type A = B ;", "pub type A < T , U > where T : X < U > = & 'a mut Y < T > ;"] {
        let once = unparse(&vec![foreign(vec![ForeignItem::Verbatim(span(source))])], 100).unwrap();
        let inner = once.strip_prefix("extern \"C\" {\n").unwrap().strip_suffix("}\n").unwrap();
        let twice = unparse(&vec![foreign(vec![ForeignItem::Verbatim(span(inner))])], 100).unwrap();
        assert_eq!(once, twice, "{}", source);
    }
}

#[test]
fn signatures_as_they_are_written_in_practice() {
    for (source, expected) in [
        (
            "fn f(&self, (a, b): (u8, u8)) -> impl Iterator<Item = u8> + '_;",
            "fn f(&self, (a, b): (u8, u8)) -> impl Iterator<Item = u8> + '_;\n",
        ),
        ("fn f<const N: usize>(x: [u8; N]) -> [u8; N];", "fn f<const N: usize>(x: [u8; N]) -> [u8; N];\n"),
        ("pub async fn f(mut x: u8, _: u16,);", "pub async fn f(mut x: u8, _: u16);\n"),
        ("fn f(x: &dyn Fn(u8) -> u8, y: fn(u8) -> u8);", "fn f(x: &dyn Fn(u8) -> u8, y: fn(u8) -> u8);\n"),
        ("fn f() -> Result<(), Box<dyn Error>>;", "fn f() -> Result<(), Box<dyn Error>>;\n"),
        (
            "fn f<T: Into<String>>(x: T) where for<'a> T: Fn(&'a u8);",
            "fn f<T: Into<String>>(x: T)\nwhere\n    for<'a> T: Fn(&'a u8);\n",
        ),
        ("fn f<'a>(x: &'a str) -> &'a str;", "fn f<'a>(x: &'a str) -> &'a str;\n"),
        ("fn f(x: <T as Trait>::Out, y: Vec<Vec<u8>>);", "fn f(x: <T as Trait>::Out, y: Vec<Vec<u8>>);\n"),
        (
            "fn f(#[b] &mut self, #[cfg(a)] x: u8);",
            "fn f(\n    #[b]\n    &mut self,\n    #[cfg(a)]\n    x: u8,\n);\n",
        ),
        ("fn f(self: Pin<&mut Self>);", "fn f(self: Pin<&mut Self>);\n"),
        ("extern fn f();", "extern fn f();\n"),
        ("/// Doc.\nfn f();", "#[doc = \" Doc.\"]\nfn f();\n"),
    ] {
        assert_eq!(verbatim(source), Ok(expected.to_string()), "{}", source);
    }
}
