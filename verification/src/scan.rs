//! Reading parts of declarations out of a run of tokens: attributes, a
//! visibility, types, and lists separated by commas.

use vstd::prelude::*;
use crate::token::{
    closes_path_sep, is_joint, is_punct, is_word, run_text, text_between, token_is_joint,
    token_is_punct, token_is_word, token_text, tokens_view, Bracket, Token, TokenView,
};
use crate::tree::{lemma_views_push, views, Attribute, AttributeView, Type, TypeView, Visibility, VisibilityView};

verus! {

/// What a search through a run of tokens stops at.
#[derive(Clone, Copy, Debug, PartialEq, Eq, Structural)]
pub enum Stop {
    /// A comma.
    Comma,
    /// A colon that is no part of a path separator.
    Colon,
    /// A `>` that closes an angle bracket.
    Close,
    /// The keyword `where`.
    Where,
    /// An `=`.
    Equals,
}

/// Token `k` is a `>` that ends an arrow, `->` or `=>`.
pub open spec fn arrow_tail(t: Seq<TokenView>, from: int, k: int) -> bool {
    k > from && is_punct(t[k], '>') && is_joint(t[k - 1]) && (is_punct(t[k - 1], '-') || is_punct(
        t[k - 1],
        '=',
    ))
}

/// Token `k` opens a path separator `::` that the token behind it closes,
/// within the run that ends at `to`.
pub open spec fn opens_path_sep(t: Seq<TokenView>, k: int, to: int) -> bool {
    k + 1 < to && is_punct(t[k], ':') && is_joint(t[k]) && is_punct(t[k + 1], ':')
}

/// Whether the search for `what` stops at token `k` of the run from `from`
/// up to `to`. Whether a character is written right before another
/// punctuation character does not matter, but where the two form one
/// operator.
pub open spec fn stops(t: Seq<TokenView>, from: int, k: int, to: int, what: Stop) -> bool {
    match what {
        Stop::Comma => is_punct(t[k], ','),
        Stop::Colon => is_punct(t[k], ':') && !opens_path_sep(t, k, to) && !closes_path_sep(t, from, k),
        Stop::Close => is_punct(t[k], '>') && !arrow_tail(t, from, k),
        Stop::Where => is_word(t[k], "where"@),
        Stop::Equals => is_punct(t[k], '='),
    }
}

/// The number of angle brackets open behind token `k`, where `depth` are
/// open before it.
pub open spec fn deeper(t: Seq<TokenView>, from: int, k: int, depth: nat) -> nat {
    if is_punct(t[k], '<') {
        depth + 1
    } else if is_punct(t[k], '>') && !arrow_tail(t, from, k) && depth > 0 {
        (depth - 1) as nat
    } else {
        depth
    }
}

/// The first place from `k` on and before `to` where `what` stands outside
/// all angle brackets, `depth` of which are open at `k`; `to` where there is
/// no such place.
pub open spec fn seek(t: Seq<TokenView>, from: int, k: int, to: int, depth: nat, what: Stop) -> int
    decreases to - k,
{
    if k >= to {
        to
    } else if depth == 0 && stops(t, from, k, to, what) {
        k
    } else {
        seek(t, from, k + 1, to, deeper(t, from, k, depth), what)
    }
}

/// The first place in the run from `from` up to `to` where `what` stands
/// outside all angle brackets; `to` where there is none.
pub open spec fn find(t: Seq<TokenView>, from: int, to: int, what: Stop) -> int {
    seek(t, from, from, to, 0, what)
}

/// Tells whether the search for `what` stops at token `k`.
pub fn stops_at(toks: &Vec<Token>, from: usize, k: usize, to: usize, what: Stop) -> (r: bool)
    requires
        from <= k < to <= toks.len(),
    ensures
        r == stops(tokens_view(*toks), from as int, k as int, to as int, what),
{
    let t = &toks[k];
    match what {
        Stop::Comma => token_is_punct(t, ','),
        Stop::Colon => {
            let opens: bool = to - k > 1 && token_is_punct(t, ':') && token_is_joint(t) && token_is_punct(
                &toks[k + 1],
                ':',
            );
            let closes: bool = k > from && token_is_punct(t, ':') && token_is_punct(&toks[k - 1], ':')
                && token_is_joint(&toks[k - 1]);
            token_is_punct(t, ':') && !opens && !closes
        },
        Stop::Close => token_is_punct(t, '>') && !is_arrow_tail(toks, from, k),
        Stop::Where => token_is_word(t, "where"),
        Stop::Equals => token_is_punct(t, '='),
    }
}

fn is_arrow_tail(toks: &Vec<Token>, from: usize, k: usize) -> (r: bool)
    requires
        from <= k < toks.len(),
    ensures
        r == arrow_tail(tokens_view(*toks), from as int, k as int),
{
    k > from && token_is_punct(&toks[k], '>') && token_is_joint(&toks[k - 1]) && (token_is_punct(
        &toks[k - 1],
        '-',
    ) || token_is_punct(&toks[k - 1], '='))
}

/// Finds the first place in the run from `from` up to `to` where `what`
/// stands outside all angle brackets.
pub fn find_stop(toks: &Vec<Token>, from: usize, to: usize, what: Stop) -> (r: usize)
    requires
        from <= to <= toks.len(),
    ensures
        r == find(tokens_view(*toks), from as int, to as int, what),
        from <= r <= to,
        r < to ==> stops(tokens_view(*toks), from as int, r as int, to as int, what),
{
    let mut k: usize = from;
    let mut depth: usize = 0;
    while k < to
        invariant
            from <= k <= to <= toks.len(),
            depth <= k - from,
            find(tokens_view(*toks), from as int, to as int, what) == seek(
                tokens_view(*toks),
                from as int,
                k as int,
                to as int,
                depth as nat,
                what,
            ),
        decreases to - k,
    {
        if depth == 0 && stops_at(toks, from, k, to, what) {
            return k;
        }
        if token_is_punct(&toks[k], '<') {
            depth = depth + 1;
        } else if depth > 0 && token_is_punct(&toks[k], '>') && !is_arrow_tail(toks, from, k) {
            depth = depth - 1;
        }
        k = k + 1;
    }
    to
}

/// The texts of the pieces that commas cut the run from `from` up to `to`
/// into, each as the text of a type. A comma may end the run; an empty piece
/// anywhere else spoils the list.
pub open spec fn texts_between(t: Seq<TokenView>, from: int, to: int) -> Option<Seq<Seq<char>>>
    decreases to - from,
{
    if from >= to {
        Some(seq![])
    } else {
        let k = find(t, from, to, Stop::Comma);
        if k <= from {
            None
        } else if k >= to {
            Some(seq![text_between(t, from, to, true)])
        } else {
            match texts_between(t, k + 1, to) {
                Some(rest) => Some(seq![text_between(t, from, k, true)] + rest),
                None => None,
            }
        }
    }
}

/// A list with `head` before it, where there is one.
pub open spec fn prepend<T>(head: Seq<T>, tail: Option<Seq<T>>) -> Option<Seq<T>> {
    match tail {
        Some(rest) => Some(head + rest),
        None => None,
    }
}

/// Cuts the run from `from` up to `to` at its commas and gives the text of
/// each piece.
pub fn parse_texts(toks: &Vec<Token>, from: usize, to: usize) -> (r: Option<Vec<String>>)
    requires
        from <= to <= toks.len(),
    ensures
        match r {
            Some(v) => texts_between(tokens_view(*toks), from as int, to as int) == Some(views(v@)),
            None => texts_between(tokens_view(*toks), from as int, to as int) is None,
        },
{
    let mut out: Vec<String> = Vec::new();
    let mut cur: usize = from;
    assert(views(out@) + seq![] =~= seq![]);
    let ghost goal = texts_between(tokens_view(*toks), from as int, to as int);
    assert(goal == prepend(views(out@), texts_between(tokens_view(*toks), cur as int, to as int))) by {
        let tail = texts_between(tokens_view(*toks), cur as int, to as int);
        if tail is Some {
            assert(views(out@) + tail->0 =~= tail->0);
        }
    }
    while cur < to
        invariant
            from <= cur <= to <= toks.len(),
            goal == texts_between(tokens_view(*toks), from as int, to as int),
            goal == prepend(views(out@), texts_between(tokens_view(*toks), cur as int, to as int)),
        decreases to - cur,
    {
        let k = find_stop(toks, cur, to, Stop::Comma);
        if k == cur {
            return None;
        }
        let text = run_text(toks, cur, k, true);
        proof {
            lemma_views_push(out@, text);
            assert(views(out@) + seq![text@] =~= views(out@).push(text@));
            let tail = texts_between(tokens_view(*toks), k + 1, to as int);
            if k < to && tail is Some {
                assert(views(out@) + (seq![text@] + tail->0) =~= views(out@).push(text@) + tail->0);
            }
        }
        out.push(text);
        if k == to {
            return Some(out);
        }
        cur = k + 1;
    }
    assert(views(out@) + seq![] =~= views(out@));
    Some(out)
}

/// An attribute stands at `p`: a `#` and a group in square brackets.
pub open spec fn is_attr_at(t: Seq<TokenView>, p: int, to: int) -> bool {
    p + 1 < to && is_punct(t[p], '#') && t[p + 1] is Group && t[p + 1]->Group_0 == Bracket::Square
}

/// The place behind the attributes that stand at `p`.
pub open spec fn attrs_end(t: Seq<TokenView>, p: int, to: int) -> int
    decreases to - p,
{
    if is_attr_at(t, p, to) {
        attrs_end(t, p + 2, to)
    } else {
        p
    }
}

/// The attribute that stands at `p`.
pub open spec fn attr_at(t: Seq<TokenView>, p: int) -> AttributeView {
    AttributeView { inner: false, text: seq!['#'] + token_text(t[p + 1], false) }
}

/// The attributes that stand at `p`, one behind the other.
pub open spec fn attrs_at(t: Seq<TokenView>, p: int, to: int) -> Seq<AttributeView>
    decreases to - p,
{
    if is_attr_at(t, p, to) {
        seq![attr_at(t, p)] + attrs_at(t, p + 2, to)
    } else {
        seq![]
    }
}

/// Reads the attributes that stand at `p`.
pub fn parse_attrs(toks: &Vec<Token>, p: usize, to: usize) -> (r: (Vec<Attribute>, usize))
    requires
        p <= to <= toks.len(),
    ensures
        views(r.0@) == attrs_at(tokens_view(*toks), p as int, to as int),
        r.1 == attrs_end(tokens_view(*toks), p as int, to as int),
        p <= r.1 <= to,
{
    let mut out: Vec<Attribute> = Vec::new();
    let mut cur: usize = p;
    assert(views(out@) + attrs_at(tokens_view(*toks), p as int, to as int) =~= attrs_at(tokens_view(*toks), p as int, to as int));
    loop
        invariant
            p <= cur <= to <= toks.len(),
            attrs_at(tokens_view(*toks), p as int, to as int) == views(out@) + attrs_at(tokens_view(*toks), cur as int, to as int),
            attrs_end(tokens_view(*toks), p as int, to as int) == attrs_end(tokens_view(*toks), cur as int, to as int),
        decreases to - cur,
    {
        let here: bool = to - cur > 1 && token_is_punct(&toks[cur], '#') && match &toks[cur + 1] {
            Token::Group(b, _) => match b {
                Bracket::Square => true,
                _ => false,
            },
            _ => false,
        };
        if !here {
            assert(views(out@) + seq![] =~= views(out@));
            return (out, cur);
        }
        let mut text = String::new();
        crate::token::push_char(&mut text, '#');
        crate::token::append_token(&mut text, &toks[cur + 1], false);
        let attr = Attribute { inner: false, text };
        proof {
            assert(text@ =~= seq!['#'] + token_text(tokens_view(*toks)[cur + 1], false));
            lemma_views_push(out@, attr);
            assert(views(out@) + (seq![attr@] + attrs_at(tokens_view(*toks), cur + 2, to as int)) =~= views(
                out@,
            ).push(attr@) + attrs_at(tokens_view(*toks), cur + 2, to as int));
        }
        out.push(attr);
        cur = cur + 2;
    }
}

/// What a group behind `pub` restricts the visibility to: `crate`, `self` or
/// `super`, or a path behind `in`.
pub open spec fn restricted(g: Seq<TokenView>) -> Option<VisibilityView> {
    if g.len() == 1 && (is_word(g[0], "crate"@) || is_word(g[0], "self"@) || is_word(g[0], "super"@)) {
        Some(VisibilityView::Restricted { in_token: false, path: text_between(g, 0, 1, true) })
    } else if g.len() >= 2 && is_word(g[0], "in"@) {
        Some(VisibilityView::Restricted { in_token: true, path: text_between(g, 1, g.len() as int, true) })
    } else {
        None
    }
}

/// The visibility that stands at `p`.
pub open spec fn vis_at(t: Seq<TokenView>, p: int, to: int) -> VisibilityView {
    if p < to && is_word(t[p], "pub"@) {
        if p + 1 < to && t[p + 1] is Group && t[p + 1]->Group_0 == Bracket::Parenthesis && restricted(
            t[p + 1]->Group_1,
        ) is Some {
            restricted(t[p + 1]->Group_1)->0
        } else {
            VisibilityView::Public
        }
    } else {
        VisibilityView::Inherited
    }
}

/// The place behind the visibility that stands at `p`.
pub open spec fn vis_end(t: Seq<TokenView>, p: int, to: int) -> int {
    match vis_at(t, p, to) {
        VisibilityView::Inherited => p,
        VisibilityView::Public => p + 1,
        VisibilityView::Restricted { .. } => p + 2,
    }
}

fn parse_restricted(g: &Vec<Token>) -> (r: Option<Visibility>)
    ensures
        crate::tree::view_option(r) == restricted(tokens_view(*g)),
{
    if g.len() == 1 && (token_is_word(&g[0], "crate") || token_is_word(&g[0], "self") || token_is_word(
        &g[0],
        "super",
    )) {
        Some(Visibility::Restricted { in_token: false, path: run_text(g, 0, 1, true) })
    } else if g.len() >= 2 && token_is_word(&g[0], "in") {
        Some(Visibility::Restricted { in_token: true, path: run_text(g, 1, g.len(), true) })
    } else {
        None
    }
}

/// Reads the visibility that stands at `p`.
pub fn parse_vis(toks: &Vec<Token>, p: usize, to: usize) -> (r: (Visibility, usize))
    requires
        p <= to <= toks.len(),
    ensures
        r.0@ == vis_at(tokens_view(*toks), p as int, to as int),
        r.1 == vis_end(tokens_view(*toks), p as int, to as int),
        p <= r.1 <= to,
{
    if p < to && token_is_word(&toks[p], "pub") {
        if p + 1 < to {
            match &toks[p + 1] {
                Token::Group(b, g) => match b {
                    Bracket::Parenthesis => match parse_restricted(g) {
                        Some(vis) => {
                            return (vis, p + 2);
                        },
                        None => {},
                    },
                    _ => {},
                },
                _ => {},
            }
        }
        (Visibility::Public, p + 1)
    } else {
        (Visibility::Inherited, p)
    }
}

/// The lifetime that stands at `p`, with its apostrophe.
pub open spec fn lifetime_at(t: Seq<TokenView>, p: int, to: int) -> Option<Seq<char>> {
    if p + 1 < to && is_punct(t[p], '\'') && t[p + 1] is Ident {
        Some(seq!['\''] + t[p + 1]->Ident_0)
    } else {
        None
    }
}

/// The token opens a type that is no path, though it is a word.
pub open spec fn type_keyword(tok: TokenView) -> bool {
    is_word(tok, "dyn"@) || is_word(tok, "impl"@) || is_word(tok, "fn"@) || is_word(tok, "unsafe"@)
        || is_word(tok, "extern"@) || is_word(tok, "for"@)
}

/// The token opens a path.
pub open spec fn path_like(tok: TokenView) -> bool {
    (tok is Ident && !type_keyword(tok)) || is_punct(tok, ':') || is_punct(tok, '<')
}

/// The place behind the lifetime of a reference whose `&` stands at `p`.
pub open spec fn lifetime_end(t: Seq<TokenView>, p: int, to: int) -> int {
    if lifetime_at(t, p + 1, to) is Some {
        p + 3
    } else {
        p + 1
    }
}

/// `mut` stands at `q`.
pub open spec fn mut_at(t: Seq<TokenView>, q: int, to: int) -> bool {
    q < to && is_word(t[q], "mut"@)
}

/// The place behind `mut` where it stands at `q`, else `q`.
pub open spec fn mut_end(t: Seq<TokenView>, q: int, to: int) -> int {
    if mut_at(t, q, to) {
        q + 1
    } else {
        q
    }
}

/// The type that the run from `from` up to `to` stands for: a reference by
/// its parts, a path or any other type by its text.
pub open spec fn type_between(t: Seq<TokenView>, from: int, to: int) -> TypeView
    decreases to - from,
{
    if from < to && is_punct(t[from], '&') {
        let q = lifetime_end(t, from, to);
        TypeView::Reference {
            lifetime: lifetime_at(t, from + 1, to),
            mutable: mut_at(t, q, to),
            elem: Box::new(type_between(t, mut_end(t, q, to), to)),
        }
    } else if from < to && path_like(t[from]) {
        TypeView::Path { qself: is_punct(t[from], '<'), path: text_between(t, from, to, true) }
    } else {
        TypeView::Other(text_between(t, from, to, true))
    }
}

/// Reads the lifetime that stands at `p`.
pub fn parse_lifetime(toks: &Vec<Token>, p: usize, to: usize) -> (r: Option<String>)
    requires
        p <= to <= toks.len(),
    ensures
        crate::tree::text_option(r) == lifetime_at(tokens_view(*toks), p as int, to as int),
{
    if p < to && to - p > 1 && token_is_punct(&toks[p], '\'') {
        match &toks[p + 1] {
            Token::Ident(name) => {
                let mut text = String::new();
                crate::token::push_char(&mut text, '\'');
                text.append(name.as_str());
                assert(text@ =~= seq!['\''] + name@);
                Some(text)
            },
            _ => None,
        }
    } else {
        None
    }
}

fn is_type_keyword(tok: &Token) -> (r: bool)
    ensures
        r == type_keyword(tok@),
{
    token_is_word(tok, "dyn") || token_is_word(tok, "impl") || token_is_word(tok, "fn") || token_is_word(
        tok,
        "unsafe",
    ) || token_is_word(tok, "extern") || token_is_word(tok, "for")
}

fn is_path_like(tok: &Token) -> (r: bool)
    ensures
        r == path_like(tok@),
{
    let word: bool = match tok {
        Token::Ident(_) => !is_type_keyword(tok),
        _ => false,
    };
    word || token_is_punct(tok, ':') || token_is_punct(tok, '<')
}

/// Reads the run from `from` up to `to` as a type.
pub fn parse_type(toks: &Vec<Token>, from: usize, to: usize) -> (r: Type)
    requires
        from <= to <= toks.len(),
    ensures
        r@ == type_between(tokens_view(*toks), from as int, to as int),
    decreases to - from,
{
    if from < to && token_is_punct(&toks[from], '&') {
        let lifetime = parse_lifetime(toks, from + 1, to);
        let q: usize = if lifetime.is_some() {
            from + 3
        } else {
            from + 1
        };
        let mutable: bool = q < to && token_is_word(&toks[q], "mut");
        let end: usize = if mutable {
            q + 1
        } else {
            q
        };
        let elem = parse_type(toks, end, to);
        Type::Reference { lifetime, mutable, elem: Box::new(elem) }
    } else if from < to && is_path_like(&toks[from]) {
        Type::Path { qself: token_is_punct(&toks[from], '<'), path: run_text(toks, from, to, true) }
    } else {
        Type::Other(run_text(toks, from, to, true))
    }
}

} // verus!
