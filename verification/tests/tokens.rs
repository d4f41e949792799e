use proc_macro2::TokenStream;
use unparser::fallback::{
    alias_of, parse_foreign_span, parse_item_span, parse_root_trees, parse_use_tree, shape_of,
    signature_run, value_run, ItemVerbatim,
};
use unparser::parse::{parse_arg, parse_inputs, parse_params, parse_signature, parse_where, Arg};
use unparser::scan::{find_stop, parse_attrs, parse_lifetime, parse_texts, parse_type, parse_vis, stops_at, Stop};
use unparser::token::{
    run_text, span_text, text_is, text_is_keyword, token_is_joint, token_is_name, token_is_punct,
    token_is_word, Bracket, Token,
};
use unparser::tree::{FnArg, Type, UseTree, Visibility};

fn span(s: &str) -> TokenStream {
    s.parse().unwrap()
}

fn ident(s: &str) -> Token {
    Token::Ident(s.to_string())
}

fn punct(c: char) -> Token {
    Token::Punct(c, false)
}

fn joint(c: char) -> Token {
    Token::Punct(c, true)
}

fn text(toks: &Vec<Token>, tight: bool) -> String {
    run_text(toks, 0, toks.len(), tight)
}

#[test]
fn tokens_are_set_apart_by_one_space() {
    assert_eq!(span_text(&span("a   b\n c"), false), "a b c");
    assert_eq!(span_text(&span(""), false), "");
    assert_eq!(span_text(&span("1 + 2 * x"), false), "1 + 2 * x");
}

#[test]
fn joined_operators_stay_together() {
    assert_eq!(span_text(&span("a += b"), false), "a += b");
    assert_eq!(span_text(&span("a == b && c != d"), false), "a == b && c != d");
    assert_eq!(span_text(&span("x -> y => z"), false), "x -> y => z");
    assert_eq!(text(&vec![ident("a"), joint('+'), punct('='), ident("b")], false), "a += b");
    assert_eq!(text(&vec![ident("a"), punct('+'), punct('='), ident("b")], false), "a + = b");
}

#[test]
fn closing_punctuation_holds_on_to_what_precedes() {
    assert_eq!(span_text(&span("f ( a , b ) ; x . y ? ; "), false), "f(a, b); x.y?;");
    assert_eq!(span_text(&span("x : u8"), false), "x: u8");
}

#[test]
fn paths_hold_together() {
    assert_eq!(span_text(&span("std :: fmt :: Debug"), false), "std::fmt::Debug");
    assert_eq!(span_text(&span(":: a :: b"), false), "::a::b");
    assert_eq!(span_text(&span("a :: < T > :: b"), true), "a::<T>::b");
}

#[test]
fn groups_keep_their_delimiters() {
    assert_eq!(span_text(&span("( a , ( b ) )"), false), "(a, (b))");
    assert_eq!(span_text(&span("[ 1 , 2 ]"), false), "[1, 2]");
    assert_eq!(span_text(&span("{ a ; b }"), false), "{ a; b }");
    assert_eq!(span_text(&span("{ }"), false), "{}");
    assert_eq!(span_text(&span("( )"), false), "()");
    assert_eq!(text(&vec![Token::Group(Bracket::Invisible, vec![ident("a"), ident("b")])], false), "a b");
}

#[test]
fn calls_macros_and_attributes_hold_together() {
    assert_eq!(span_text(&span("vec ! [ 1 , 2 ]"), false), "vec![1, 2]");
    assert_eq!(span_text(&span("# [ derive ( Debug ) ]"), false), "#[derive(Debug)]");
    assert_eq!(span_text(&span("! x"), false), "!x");
    assert_eq!(span_text(&span("a [ 0 ]"), false), "a[0]");
    assert_eq!(span_text(&span("a + ( b )"), false), "a + (b)");
}

#[test]
fn literals_are_kept_as_written() {
    assert_eq!(span_text(&span("\"a  b\" 'c' 1_000u32 0x1F b\"x\""), false), "\"a  b\" 'c' 1_000u32 0x1F b\"x\"");
}

#[test]
fn types_are_written_tightly() {
    assert_eq!(span_text(&span("Vec < Option < u8 > >"), true), "Vec<Option<u8>>");
    assert_eq!(span_text(&span("Vec < Option < u8 > >"), false), "Vec < Option < u8 > >");
    assert_eq!(span_text(&span("Vec<Option<u8>>"), false), "Vec < Option < u8 >>");
    assert_eq!(span_text(&span("Vec<Option<u8>>"), true), "Vec<Option<u8>>");
    assert_eq!(span_text(&span("& 'a mut T"), true), "&'a mut T");
    assert_eq!(span_text(&span("* const u8"), true), "*const u8");
    assert_eq!(span_text(&span("HashMap < K , V >"), true), "HashMap<K, V>");
    assert_eq!(span_text(&span("Fn ( A ) -> B"), true), "Fn(A) -> B");
    assert_eq!(span_text(&span("T : Iterator < Item = u8 > + 'a"), true), "T: Iterator<Item = u8> + 'a");
    assert_eq!(span_text(&span("a & b"), false), "a & b");
}

#[test]
fn token_tests() {
    assert!(text_is(&"abc".to_string(), "abc"));
    assert!(!text_is(&"abc".to_string(), "abd"));
    assert!(!text_is(&"abc".to_string(), "ab"));
    assert!(token_is_punct(&punct(','), ','));
    assert!(!token_is_punct(&punct(','), ';'));
    assert!(!token_is_punct(&ident(","), ','));
    assert!(token_is_joint(&joint(':')));
    assert!(!token_is_joint(&punct(':')));
    assert!(!token_is_joint(&ident("a")));
    assert!(token_is_word(&ident("where"), "where"));
    assert!(!token_is_word(&ident("when"), "where"));
    assert!(!token_is_word(&Token::Literal("where".to_string()), "where"));
}

fn tokens(s: &str) -> Vec<Token> {
    fn walk(ts: TokenStream) -> Vec<Token> {
        ts.into_iter()
            .map(|tree| match tree {
                proc_macro2::TokenTree::Ident(i) => Token::Ident(i.to_string()),
                proc_macro2::TokenTree::Punct(p) => {
                    Token::Punct(p.as_char(), p.spacing() == proc_macro2::Spacing::Joint)
                }
                proc_macro2::TokenTree::Literal(l) => Token::Literal(l.to_string()),
                proc_macro2::TokenTree::Group(g) => Token::Group(
                    match g.delimiter() {
                        proc_macro2::Delimiter::Parenthesis => Bracket::Parenthesis,
                        proc_macro2::Delimiter::Brace => Bracket::Brace,
                        proc_macro2::Delimiter::Bracket => Bracket::Square,
                        proc_macro2::Delimiter::None => Bracket::Invisible,
                    },
                    walk(g.stream()),
                ),
            })
            .collect()
    }
    walk(span(s))
}

#[test]
fn search_skips_what_stands_between_angle_brackets() {
    let t = tokens("a < b , c > , d");
    assert_eq!(find_stop(&t, 0, t.len(), Stop::Comma), 6);
    assert_eq!(find_stop(&t, 2, t.len(), Stop::Comma), 3);
    assert_eq!(find_stop(&t, 7, t.len(), Stop::Comma), t.len());
    assert_eq!(find_stop(&t, 3, 3, Stop::Comma), 3);
    let arrow = tokens("fn ( a ) -> b , c");
    assert_eq!(find_stop(&arrow, 0, arrow.len(), Stop::Comma), 5);
}

#[test]
fn search_tells_separators_from_operators() {
    let t = tokens("a :: b : c");
    assert_eq!(find_stop(&t, 0, t.len(), Stop::Colon), 4);
    let t = tokens("a < b = c > = d =& e");
    assert_eq!(find_stop(&t, 0, t.len(), Stop::Equals), 6);
    assert_eq!(find_stop(&t, 7, t.len(), Stop::Equals), 8);
    let t = tokens("x:&u8");
    assert_eq!(find_stop(&t, 0, t.len(), Stop::Colon), 1);
    let t = tokens("a::b:::c");
    assert_eq!(find_stop(&t, 0, t.len(), Stop::Colon), t.len());
    let t = tokens("< a < b > > c >");
    assert_eq!(find_stop(&t, 1, t.len(), Stop::Close), 5);
    assert_eq!(find_stop(&t, 0, t.len(), Stop::Close), 7);
    let t = tokens("T where U");
    assert_eq!(find_stop(&t, 0, t.len(), Stop::Where), 1);
    assert_eq!(find_stop(&t, 0, t.len(), Stop::Equals), 3);
}

#[test]
fn lists_are_cut_at_their_commas() {
    let t = tokens("a , B < c , d > , e ,");
    assert_eq!(parse_texts(&t, 0, t.len()).unwrap(), vec!["a", "B<c, d>", "e"]);
    assert_eq!(parse_texts(&t, 0, 0).unwrap(), Vec::<String>::new());
    assert_eq!(parse_texts(&tokens("a , , b"), 0, 4), None);
    assert_eq!(parse_texts(&tokens(", a"), 0, 2), None);
}

#[test]
fn attributes_are_read_one_after_the_other() {
    let t = tokens("# [ a ] # [ b ( c ) ] pub # [ d ]");
    let (attrs, end) = parse_attrs(&t, 0, t.len());
    assert_eq!(end, 4);
    assert_eq!(attrs.len(), 2);
    assert_eq!(attrs[0].text, "#[a]");
    assert!(!attrs[0].inner);
    assert_eq!(attrs[1].text, "#[b(c)]");
    let (none, end) = parse_attrs(&t, 4, t.len());
    assert_eq!((none.len(), end), (0, 4));
    let (cut, end) = parse_attrs(&t, 0, 3);
    assert_eq!((cut.len(), end), (1, 2));
    let (hash, end) = parse_attrs(&tokens("# ( a )"), 0, 2);
    assert_eq!((hash.len(), end), (0, 0));
}

#[test]
fn visibility_is_read_in_its_three_forms() {
    let read = |s: &str| {
        let t = tokens(s);
        let (vis, end) = parse_vis(&t, 0, t.len());
        (format!("{:?}", vis), end)
    };
    assert_eq!(read("fn"), (format!("{:?}", Visibility::Inherited), 0));
    assert_eq!(read(""), (format!("{:?}", Visibility::Inherited), 0));
    assert_eq!(read("pub fn"), (format!("{:?}", Visibility::Public), 1));
    assert_eq!(
        read("pub ( crate ) fn"),
        (format!("{:?}", Visibility::Restricted { in_token: false, path: "crate".to_string() }), 2)
    );
    assert_eq!(
        read("pub ( in a :: b ) fn"),
        (format!("{:?}", Visibility::Restricted { in_token: true, path: "a::b".to_string() }), 2)
    );
    assert_eq!(read("pub ( u8 )"), (format!("{:?}", Visibility::Public), 1));
    assert_eq!(read("pub ( in )"), (format!("{:?}", Visibility::Public), 1));
    assert_eq!(read("pub [ crate ]"), (format!("{:?}", Visibility::Public), 1));
}

fn type_of(s: &str) -> String {
    let t = tokens(s);
    format!("{:?}", parse_type(&t, 0, t.len()))
}

#[test]
fn types_are_read_as_references_paths_and_others() {
    let path = |p: &str| Type::Path { qself: false, path: p.to_string() };
    assert_eq!(type_of("Self"), format!("{:?}", path("Self")));
    assert_eq!(type_of("a :: B < C >"), format!("{:?}", path("a::B<C>")));
    assert_eq!(
        type_of("< T as U > :: V"),
        format!("{:?}", Type::Path { qself: true, path: "<T as U>::V".to_string() })
    );
    assert_eq!(
        type_of("& 'a mut Self"),
        format!(
            "{:?}",
            Type::Reference { lifetime: Some("'a".to_string()), mutable: true, elem: Box::new(path("Self")) }
        )
    );
    assert_eq!(
        type_of("& & T"),
        format!(
            "{:?}",
            Type::Reference {
                lifetime: None,
                mutable: false,
                elem: Box::new(Type::Reference { lifetime: None, mutable: false, elem: Box::new(path("T")) }),
            }
        )
    );
    assert_eq!(type_of("( A , B )"), format!("{:?}", Type::Other("(A, B)".to_string())));
    assert_eq!(type_of("dyn Any"), format!("{:?}", Type::Other("dyn Any".to_string())));
    assert_eq!(type_of("impl Fn ( )"), format!("{:?}", Type::Other("impl Fn()".to_string())));
    assert_eq!(type_of(""), format!("{:?}", Type::Other(String::new())));
    assert_eq!(
        type_of("& mut"),
        format!(
            "{:?}",
            Type::Reference { lifetime: None, mutable: true, elem: Box::new(Type::Other(String::new())) }
        )
    );
}

#[test]
fn lifetimes_are_read_with_their_apostrophe() {
    let t = tokens("'a T");
    assert_eq!(parse_lifetime(&t, 0, t.len()), Some("'a".to_string()));
    assert_eq!(parse_lifetime(&t, 0, 1), None);
    assert_eq!(parse_lifetime(&t, 2, t.len()), None);
    assert_eq!(parse_lifetime(&t, 3, 3), None);
}

#[test]
fn parameters_are_receivers_patterns_or_variadics() {
    let read = |s: &str| {
        let t = tokens(s);
        parse_arg(&t, 0, t.len())
    };
    assert!(matches!(read("& self"), Some(Arg::Arg(FnArg::Receiver(_)))));
    assert!(matches!(read("# [ a ] mut self : Box < Self >"), Some(Arg::Arg(FnArg::Receiver(_)))));
    assert!(matches!(read("x : u8"), Some(Arg::Arg(FnArg::Typed(_)))));
    assert!(matches!(read("Foo :: Bar ( x ) : a :: T"), Some(Arg::Arg(FnArg::Typed(_)))));
    assert!(matches!(read(". . ."), Some(Arg::Variadic(_))));
    assert!(matches!(read("x : . . ."), Some(Arg::Variadic(_))));
    assert!(read("x").is_none());
    assert!(read("x :").is_none());
    assert!(read(": u8").is_none());
    assert!(read("self x").is_none());
    assert!(read("& self : T").is_none());
    assert!(read("self :").is_none());
    assert!(read("").is_none());
    match read("& 'a mut self") {
        Some(Arg::Arg(FnArg::Receiver(r))) => {
            assert_eq!(r.reference, Some(Some("'a".to_string())));
            assert!(r.mutability);
            assert_eq!(
                format!("{:?}", r.ty),
                format!(
                    "{:?}",
                    Type::Reference {
                        lifetime: Some("'a".to_string()),
                        mutable: true,
                        elem: Box::new(Type::Path { qself: false, path: "Self".to_string() }),
                    }
                )
            );
        }
        other => panic!("{:?}", other),
    }
    match read("x : u8") {
        Some(Arg::Arg(FnArg::Typed(p))) => {
            assert_eq!(p.pat, "x");
            assert_eq!(format!("{:?}", p.ty), format!("{:?}", Type::Path { qself: false, path: "u8".to_string() }));
        }
        other => panic!("{:?}", other),
    }
}

#[test]
fn parameter_lists_end_with_their_variadic() {
    let read = |s: &str| {
        let t = tokens(s);
        parse_inputs(&t, 0, t.len())
    };
    let two = read("a : u8 , b : M < K , V > ,").unwrap();
    assert_eq!(two.args.len(), 2);
    assert!(two.variadic.is_none());
    let with = read("a : u8 , . . .").unwrap();
    assert_eq!(with.args.len(), 1);
    assert!(with.variadic.is_some());
    assert_eq!(read("").unwrap().args.len(), 0);
    assert!(read(". . . ,").is_none());
    assert!(read(". . . , a : u8").is_none());
    assert!(read("a : u8 , , b : u8").is_none());
    assert!(read(", a : u8").is_none());
}

#[test]
fn generic_parameters_and_where_clauses() {
    let t = tokens("< 'a , T : X < Y > , const N : usize > x");
    let (params, end) = parse_params(&t, 0, t.len()).unwrap();
    assert_eq!(params, vec!["'a", "T: X<Y>", "const N: usize"]);
    assert_eq!(end, t.len() - 1);
    let (none, end) = parse_params(&t, 1, t.len()).unwrap();
    assert_eq!((none.len(), end), (0, 1));
    assert!(parse_params(&tokens("< T"), 0, 2).is_none());
    assert!(parse_params(&tokens("< , >"), 0, 3).is_none());
    let w = tokens("where T : A , U : B < C , D >");
    assert_eq!(parse_where(&w, 0, w.len()), Some(Some(vec!["T: A".to_string(), "U: B<C, D>".to_string()])));
    assert_eq!(parse_where(&w, w.len(), w.len()), Some(None));
    assert_eq!(parse_where(&w, 1, w.len()), None);
    assert_eq!(parse_where(&tokens("where"), 0, 1), Some(Some(Vec::new())));
    assert_eq!(parse_where(&tokens("where ,"), 0, 2), None);
}

#[test]
fn signatures_are_read_part_by_part() {
    let t = tokens("const async unsafe extern \"C\" fn f < T > ( & self , x : T ) -> Option < T > where T : Copy");
    let sig = parse_signature(&t, 0, t.len()).unwrap();
    assert!(sig.constness && sig.asyncness && sig.unsafety);
    assert_eq!(sig.abi.unwrap().name, Some("\"C\"".to_string()));
    assert_eq!(sig.ident, "f");
    assert_eq!(sig.generics.params, vec!["T"]);
    assert_eq!(sig.generics.where_clause, Some(vec!["T: Copy".to_string()]));
    assert_eq!(sig.inputs.len(), 2);
    assert!(sig.variadic.is_none());
    assert_eq!(
        format!("{:?}", sig.output),
        format!("{:?}", Some(Type::Path { qself: false, path: "Option<T>".to_string() }))
    );
    let plain = parse_signature(&tokens("extern fn g ( )"), 0, 4).unwrap();
    assert_eq!(plain.abi.unwrap().name, None);
    assert!(plain.output.is_none() && plain.generics.where_clause.is_none());
    for bad in ["fn", "fn f", "f ( )", "fn f [ ]", "fn f ( ) ->", "fn f ( ) x", "async const fn f ( )", "fn f ( ) -> where T : A"] {
        let t = tokens(bad);
        assert!(parse_signature(&t, 0, t.len()).is_none(), "{}", bad);
    }
}

#[test]
fn use_trees_are_read_in_all_their_forms() {
    let read = |s: &str| {
        let t = tokens(s);
        parse_use_tree(&t, 0, t.len()).map(|tree| format!("{:?}", tree))
    };
    let name = |s: &str| UseTree::Name(s.to_string());
    assert_eq!(read("a"), Some(format!("{:?}", name("a"))));
    assert_eq!(read("*"), Some(format!("{:?}", UseTree::Glob)));
    assert_eq!(read("a as b"), Some(format!("{:?}", UseTree::Rename("a".to_string(), "b".to_string()))));
    assert_eq!(read("a as _"), Some(format!("{:?}", UseTree::Rename("a".to_string(), "_".to_string()))));
    assert_eq!(
        read("a :: { b , c :: * , { } }"),
        Some(format!(
            "{:?}",
            UseTree::Path(
                "a".to_string(),
                Box::new(UseTree::Group(vec![
                    name("b"),
                    UseTree::Path("c".to_string(), Box::new(UseTree::Glob)),
                    UseTree::Group(Vec::new()),
                ]))
            )
        ))
    );
    assert_eq!(read("self"), Some(format!("{:?}", name("self"))));
    assert_eq!(read("crate :: a"), Some(format!("{:?}", UseTree::Path("crate".to_string(), Box::new(name("a"))))));
    assert_eq!(read("super :: try"), Some(format!("{:?}", UseTree::Path("super".to_string(), Box::new(name("try"))))));
    assert_eq!(read("r#fn"), Some(format!("{:?}", name("r#fn"))));
    for bad in [
        "", "a b", "a ::", "a as", "a as b c", "( a )", "a : b", "* *", "a :: ( b )", "1", "fn", "a :: fn",
        "a as fn", "a as self", "_", "Self", "{ a , type }", "mod :: a", "a as crate",
    ] {
        assert_eq!(read(bad), None, "{}", bad);
    }
}

#[test]
fn root_trees_may_start_at_the_root() {
    let t = tokens(":: a , b :: c");
    let trees = parse_root_trees(&t, 0, t.len()).unwrap();
    assert_eq!(trees.len(), 2);
    assert!(trees[0].leading_colon);
    assert!(!trees[1].leading_colon);
    assert!(parse_root_trees(&tokens(":: , a"), 0, 4).is_none());
    assert_eq!(parse_root_trees(&t, 0, 0).unwrap().len(), 0);
}

#[test]
fn spans_are_matched_to_their_shapes() {
    assert!(matches!(parse_item_span(&span("")), Some(ItemVerbatim::Empty)));
    assert!(matches!(parse_item_span(&span("fn f();")), Some(ItemVerbatim::FnSignature { .. })));
    assert!(matches!(parse_item_span(&span("static A = 1;")), Some(ItemVerbatim::StaticUntyped { .. })));
    assert!(matches!(parse_item_span(&span("use {a, b};")), Some(ItemVerbatim::UseBrace { .. })));
    assert!(parse_item_span(&span("mod m;")).is_none());
    match parse_item_span(&span("#[a] pub static mut B = f(1);")) {
        Some(ItemVerbatim::StaticUntyped { attrs, vis, mutability, ident, expr }) => {
            assert_eq!(attrs.len(), 1);
            assert!(matches!(vis, Visibility::Public));
            assert!(mutability);
            assert_eq!(ident, "B");
            assert_eq!(expr, "f(1)");
        }
        other => panic!("{:?}", other),
    }
    let alias = parse_foreign_span(&span("pub type A<T> where T: B = C<T>;")).unwrap();
    assert_eq!(alias.ident, "A");
    assert_eq!(alias.generics.params, vec!["T"]);
    assert_eq!(alias.generics.where_clause, Some(vec!["T: B".to_string()]));
    assert_eq!(format!("{:?}", alias.ty), format!("{:?}", Type::Path { qself: false, path: "C<T>".to_string() }));
    assert!(parse_foreign_span(&span("type A;")).is_none());
}

#[test]
fn keywords_name_nothing() {
    for word in ["_", "as", "fn", "Self", "self", "try", "yield", "abstract", "where", "static"] {
        assert!(text_is_keyword(&word.to_string()), "{}", word);
        assert!(!token_is_name(&ident(word)), "{}", word);
    }
    for word in ["a", "r#fn", "selfish", "Fn", "union", "__", "_a", ""] {
        assert!(!text_is_keyword(&word.to_string()), "{}", word);
        assert!(token_is_name(&ident(word)), "{}", word);
    }
    assert!(!token_is_name(&Token::Literal("a".to_string())));
    assert!(!token_is_name(&punct('a')));
}

#[test]
fn colon_of_a_path_separator_is_no_stop() {
    let t = tokens("a::b:c");
    assert!(!stops_at(&t, 0, 1, t.len(), Stop::Colon));
    assert!(!stops_at(&t, 0, 2, t.len(), Stop::Colon));
    assert!(stops_at(&t, 0, 4, t.len(), Stop::Colon));
    assert!(stops_at(&t, 2, 2, t.len(), Stop::Colon));
    assert!(stops_at(&t, 0, 1, 2, Stop::Colon));
    assert!(!stops_at(&t, 0, 0, t.len(), Stop::Colon));
    assert!(stops_at(&tokens("a,"), 0, 1, 2, Stop::Comma));
    assert!(stops_at(&tokens("a where"), 0, 1, 2, Stop::Where));
    assert!(stops_at(&tokens("a =="), 0, 1, 3, Stop::Equals));
    assert!(stops_at(&tokens("a > b"), 0, 1, 3, Stop::Close));
    assert!(!stops_at(&tokens("a -> b"), 0, 2, 4, Stop::Close));
}

#[test]
fn shapes_follow_the_verdicts_on_their_parts() {
    let sig = tokens("pub fn f(x: u8);");
    assert!(matches!(shape_of(&sig, true, false), Some(ItemVerbatim::FnSignature { .. })));
    assert!(shape_of(&sig, false, true).is_none());
    assert_eq!(signature_run(&sig), (1, 3));
    let stat = tokens("#[a] static mut X =-1;");
    assert!(matches!(shape_of(&stat, false, true), Some(ItemVerbatim::StaticUntyped { .. })));
    assert!(shape_of(&stat, true, false).is_none());
    assert_eq!(value_run(&stat), (6, 2));
    assert_eq!(signature_run(&stat), (2, 6));
    let import = tokens("use {a, ::b};");
    assert!(matches!(shape_of(&import, false, false), Some(ItemVerbatim::UseBrace { .. })));
    assert!(shape_of(&tokens("use {fn};"), true, true).is_none());
    assert!(shape_of(&tokens("static fn = 1;"), true, true).is_none());
    assert!(shape_of(&tokens("static X = 1"), true, true).is_none());
    assert!(shape_of(&tokens("fn f()"), true, true).is_none());
    assert!(shape_of(&tokens("struct S;"), true, true).is_none());
    assert!(shape_of(&tokens("pub"), true, true).is_none());
    assert!(matches!(shape_of(&Vec::new(), false, false), Some(ItemVerbatim::Empty)));
    assert_eq!(signature_run(&Vec::new()), (0, 0));
    assert_eq!(value_run(&Vec::new()), (0, 0));
    assert_eq!(value_run(&tokens("static X;")), (0, 0));
    assert_eq!(signature_run(&tokens("pub")), (0, 0));
}

#[test]
fn alias_follows_the_verdict_on_the_span() {
    let alias = tokens("pub type A<T>=&T;");
    let read = alias_of(&alias, true).unwrap();
    assert_eq!(read.ident, "A");
    assert_eq!(read.generics.params, vec!["T"]);
    assert_eq!(
        format!("{:?}", read.ty),
        format!(
            "{:?}",
            Type::Reference {
                lifetime: None,
                mutable: false,
                elem: Box::new(Type::Path { qself: false, path: "T".to_string() }),
            }
        )
    );
    assert!(alias_of(&alias, false).is_none());
    assert!(alias_of(&tokens("type A;"), true).is_none());
    assert!(alias_of(&tokens("fn f();"), true).is_none());
    assert!(alias_of(&Vec::new(), true).is_none());
}
