//! Token spans: what a tree node holds where the tree has no shape for it.

use vstd::prelude::*;
use proc_macro2::{Delimiter, Spacing, TokenStream, TokenTree};

verus! {

/// `proc_macro2::TokenStream`, the span of tokens as the tree holds it. What
/// the library reads of it, it reads through `span_tokens`.
#[verifier::external_type_specification]
#[verifier::external_body]
pub struct ExTokenStream(TokenStream);

/// What encloses a group of tokens.
#[derive(Clone, Copy, Debug, PartialEq, Eq, Structural)]
pub enum Bracket {
    Parenthesis,
    Brace,
    Square,
    /// A group without visible delimiters.
    Invisible,
}

/// One token of a span.
#[derive(Debug)]
pub enum Token {
    /// An identifier or keyword.
    Ident(String),
    /// One punctuation character, and whether the next one belongs to the
    /// same operator.
    Punct(char, bool),
    /// A literal, as written.
    Literal(String),
    /// The tokens between a pair of delimiters.
    Group(Bracket, Vec<Token>),
}

/// The value of a token.
pub enum TokenView {
    Ident(Seq<char>),
    Punct(char, bool),
    Literal(Seq<char>),
    Group(Bracket, Seq<TokenView>),
}

/// The value of a token.
pub open spec fn token_view(t: Token) -> TokenView
    decreases t,
{
    match t {
        Token::Ident(s) => TokenView::Ident(s@),
        Token::Punct(c, joint) => TokenView::Punct(c, joint),
        Token::Literal(s) => TokenView::Literal(s@),
        Token::Group(b, inner) => TokenView::Group(b, tokens_view(inner)),
    }
}

/// The values of a run of tokens.
pub open spec fn tokens_view(toks: Vec<Token>) -> Seq<TokenView>
    decreases toks,
{
    Seq::new(
        toks.len() as nat,
        |i: int|
            if 0 <= i < toks.len() {
                token_view(toks[i])
            } else {
                TokenView::Punct(' ', false)
            },
    )
}

impl View for Token {
    type V = TokenView;

    open spec fn view(&self) -> TokenView {
        token_view(*self)
    }
}

/// The values of a run of tokens stand at the places of the tokens.
pub proof fn lemma_tokens_view(toks: Vec<Token>)
    ensures
        tokens_view(toks).len() == toks.len(),
        forall|i: int| 0 <= i < toks.len() ==> #[trigger] tokens_view(toks)[i] == toks[i]@,
{
}

/// The tokens that a span holds, in order.
pub uninterp spec fn tokens_of(ts: TokenStream) -> Seq<TokenView>;

/// Reads the tokens out of a span.
///
/// Walks `proc_macro2::TokenStream` with its `IntoIterator` and turns each
/// `TokenTree` into a `Token`: an identifier and a literal by their
/// `to_string`, a punctuation character by `Punct::as_char` and
/// `Punct::spacing`, a group by `Group::delimiter` and, through this function
/// again, `Group::stream`. Trusted: the result is the same whenever the span
/// is the same.
#[verifier::external_body]
pub(crate) fn span_tokens(ts: &TokenStream) -> (r: Vec<Token>)
    ensures
        tokens_view(r) == tokens_of(*ts),
{
    ts.clone().into_iter().map(|tree| match tree {
        TokenTree::Ident(i) => Token::Ident(i.to_string()),
        TokenTree::Punct(p) => Token::Punct(p.as_char(), p.spacing() == Spacing::Joint),
        TokenTree::Literal(l) => Token::Literal(l.to_string()),
        TokenTree::Group(g) => Token::Group(match g.delimiter() {
            Delimiter::Parenthesis => Bracket::Parenthesis,
            Delimiter::Brace => Bracket::Brace,
            Delimiter::Bracket => Bracket::Square,
            Delimiter::None => Bracket::Invisible,
        }, span_tokens(&g.stream())),
    }).collect()
}

/// Appends one character to a text.
///
/// Calls `String::push` of the standard library, which appends the character
/// to the end of the string.
#[verifier::external_body]
pub(crate) fn push_char(s: &mut String, c: char)
    ensures
        final(s)@ == old(s)@.push(c),
{
    s.push(c)
}

/// The token is the punctuation character `c`.
pub open spec fn is_punct(t: TokenView, c: char) -> bool {
    t matches TokenView::Punct(p, _) && p == c
}

/// The token is a punctuation character that belongs to the same operator
/// as the next one.
pub open spec fn is_joint(t: TokenView) -> bool {
    t matches TokenView::Punct(_, joint) && joint
}

/// The token is the identifier or keyword `w`.
pub open spec fn is_word(t: TokenView, w: Seq<char>) -> bool {
    t matches TokenView::Ident(s) && s == w
}

/// Token `i` closes a path separator `::` that the token before it opens,
/// within the run that starts at `from`.
pub open spec fn closes_path_sep(t: Seq<TokenView>, from: int, i: int) -> bool {
    i > from && is_punct(t[i], ':') && is_punct(t[i - 1], ':') && is_joint(t[i - 1])
}

/// Whether token `i` is written right behind the token before it, in the run
/// that starts at `from`. All other tokens are set apart by one space. In the
/// text of a type (`tight`), angle brackets, `&` and `*` hold on to what
/// they enclose or precede.
pub open spec fn glued(t: Seq<TokenView>, from: int, i: int, tight: bool) -> bool {
    let prev = t[i - 1];
    let next = t[i];
    ||| is_joint(prev)
    ||| is_punct(next, ',') || is_punct(next, ';') || is_punct(next, '.') || is_punct(next, '?')
        || is_punct(next, ':')
    ||| is_punct(prev, '.') || is_punct(prev, '#') || is_punct(prev, '!')
    ||| (prev is Ident && is_punct(next, '!') && !is_joint(next))
    ||| closes_path_sep(t, from, i - 1)
    ||| (tight && (is_punct(prev, '&') || is_punct(prev, '*') || is_punct(prev, '<') || is_punct(
        next,
        '<',
    ) || is_punct(next, '>')))
    ||| (prev is Ident && next is Group && (next->Group_0 == Bracket::Parenthesis || next->Group_0
        == Bracket::Square))
}

/// What a group opens with.
pub open spec fn bracket_open(b: Bracket) -> Seq<char> {
    match b {
        Bracket::Parenthesis => seq!['('],
        Bracket::Brace => seq!['{'],
        Bracket::Square => seq!['['],
        Bracket::Invisible => seq![],
    }
}

/// What a group closes with.
pub open spec fn bracket_close(b: Bracket) -> Seq<char> {
    match b {
        Bracket::Parenthesis => seq![')'],
        Bracket::Brace => seq!['}'],
        Bracket::Square => seq![']'],
        Bracket::Invisible => seq![],
    }
}

/// What keeps the content of a group apart from its delimiters: a space
/// inside braces that hold something, else nothing.
pub open spec fn bracket_pad(b: Bracket, inner: Seq<TokenView>) -> Seq<char> {
    if b == Bracket::Brace && inner.len() > 0 {
        seq![' ']
    } else {
        seq![]
    }
}

/// The text of one token.
pub open spec fn token_text(t: TokenView, tight: bool) -> Seq<char>
    decreases t, 0nat,
{
    match t {
        TokenView::Ident(s) => s,
        TokenView::Punct(c, _) => seq![c],
        TokenView::Literal(s) => s,
        TokenView::Group(b, inner) => bracket_open(b) + bracket_pad(b, inner) + group_text(inner, tight)
            + bracket_pad(b, inner) + bracket_close(b),
    }
}

/// The text of what a group holds.
pub open spec fn group_text(inner: Seq<TokenView>, tight: bool) -> Seq<char>
    decreases inner, inner.len() + 1,
{
    text_between(inner, 0, inner.len() as int, tight)
}

/// What stands between token `i` and the token before it in the run that
/// starts at `from`.
pub open spec fn gap(t: Seq<TokenView>, from: int, i: int, tight: bool) -> Seq<char> {
    if i > from && !glued(t, from, i, tight) {
        seq![' ']
    } else {
        seq![]
    }
}

/// The text of the tokens from `from` up to `to`.
pub open spec fn text_between(t: Seq<TokenView>, from: int, to: int, tight: bool) -> Seq<char>
    decreases t, to - from,
{
    if to <= from || from < 0 || to > t.len() {
        seq![]
    } else {
        text_between(t, from, to - 1, tight) + gap(t, from, to - 1, tight) + token_text(t[to - 1], tight)
    }
}

/// The text of a run of tokens.
pub open spec fn tokens_text(run: Seq<TokenView>, tight: bool) -> Seq<char> {
    text_between(run, 0, run.len() as int, tight)
}

/// Whether a text is the given word.
pub fn text_is(s: &String, word: &str) -> (r: bool)
    ensures
        r == (s@ == word@),
{
    let w = String::from_str(word);
    *s == w
}

/// Tells whether a token is the punctuation character `c`.
pub fn token_is_punct(t: &Token, c: char) -> (r: bool)
    ensures
        r == is_punct(t@, c),
{
    match t {
        Token::Punct(p, _) => *p == c,
        _ => false,
    }
}

/// Tells whether a token is a punctuation character joined to the next.
pub fn token_is_joint(t: &Token) -> (r: bool)
    ensures
        r == is_joint(t@),
{
    match t {
        Token::Punct(_, joint) => *joint,
        _ => false,
    }
}

/// Tells whether a token is the identifier or keyword `w`.
pub fn token_is_word(t: &Token, w: &str) -> (r: bool)
    ensures
        r == is_word(t@, w@),
{
    match t {
        Token::Ident(s) => text_is(s, w),
        _ => false,
    }
}

fn is_glued(toks: &Vec<Token>, from: usize, i: usize, tight: bool) -> (r: bool)
    requires
        from < i < toks.len(),
    ensures
        r == glued(tokens_view(*toks), from as int, i as int, tight),
{
    let prev = &toks[i - 1];
    let next = &toks[i];
    let closes: bool = i - 1 > from && token_is_punct(prev, ':') && token_is_punct(&toks[i - 2], ':')
        && token_is_joint(&toks[i - 2]);
    let prev_is_ident: bool = match prev {
        Token::Ident(_) => true,
        _ => false,
    };
    let bang: bool = prev_is_ident && token_is_punct(next, '!') && !token_is_joint(next);
    let call: bool = prev_is_ident && match next {
        Token::Group(b, _) => match b {
            Bracket::Parenthesis => true,
            Bracket::Square => true,
            _ => false,
        },
        _ => false,
    };
    let stop: bool = token_is_punct(next, ',') || token_is_punct(next, ';') || token_is_punct(next, '.')
        || token_is_punct(next, '?') || token_is_punct(next, ':');
    let lead: bool = token_is_punct(prev, '.') || token_is_punct(prev, '#') || token_is_punct(prev, '!');
    let angle: bool = tight && (token_is_punct(prev, '&') || token_is_punct(prev, '*')
        || token_is_punct(prev, '<') || token_is_punct(next, '<') || token_is_punct(next, '>'));
    token_is_joint(prev) || stop || lead || bang || closes || angle || call
}

/// Appends the text of one token.
pub fn append_token(out: &mut String, t: &Token, tight: bool)
    ensures
        final(out)@ == old(out)@ + token_text(t@, tight),
    decreases t, 0nat,
{
    match t {
        Token::Ident(s) => {
            out.append(s.as_str());
        },
        Token::Punct(c, _) => {
            push_char(out, *c);
            assert(out@ =~= old(out)@ + token_text(t@, tight));
        },
        Token::Literal(s) => {
            out.append(s.as_str());
        },
        Token::Group(b, inner) => {
            let pad: bool = inner.len() > 0 && match b {
                Bracket::Brace => true,
                _ => false,
            };
            match b {
                Bracket::Parenthesis => push_char(out, '('),
                Bracket::Brace => push_char(out, '{'),
                Bracket::Square => push_char(out, '['),
                Bracket::Invisible => {},
            }
            if pad {
                push_char(out, ' ');
            }
            let ghost opened = out@;
            assert(opened =~= old(out)@ + (bracket_open(*b) + bracket_pad(*b, tokens_view(*inner))));
            append_text(out, inner, 0, inner.len(), tight);
            let ghost filled = out@;
            if pad {
                push_char(out, ' ');
            }
            match b {
                Bracket::Parenthesis => push_char(out, ')'),
                Bracket::Brace => push_char(out, '}'),
                Bracket::Square => push_char(out, ']'),
                Bracket::Invisible => {},
            }
            assert(out@ =~= filled + (bracket_pad(*b, tokens_view(*inner)) + bracket_close(*b)));
            assert(out@ =~= old(out)@ + token_text(t@, tight));
        },
    }
}

/// Appends the text of the tokens from `from` up to `to`.
pub fn append_text(out: &mut String, toks: &Vec<Token>, from: usize, to: usize, tight: bool)
    requires
        from <= to <= toks.len(),
    ensures
        final(out)@ == old(out)@ + text_between(tokens_view(*toks), from as int, to as int, tight),
    decreases toks, 1nat,
{
    let mut i: usize = from;
    assert(out@ =~= old(out)@ + text_between(tokens_view(*toks), from as int, from as int, tight));
    while i < to
        invariant
            from <= i <= to <= toks.len(),
            out@ == old(out)@ + text_between(tokens_view(*toks), from as int, i as int, tight),
        decreases to - i,
    {
        let ghost before = out@;
        if i > from && !is_glued(toks, from, i, tight) {
            push_char(out, ' ');
        }
        assert(out@ =~= before + gap(tokens_view(*toks), from as int, i as int, tight));
        append_token(out, &toks[i], tight);
        assert(out@ =~= old(out)@ + text_between(tokens_view(*toks), from as int, i + 1, tight));
        i = i + 1;
    }
}

/// The text of the tokens from `from` up to `to`.
pub fn run_text(toks: &Vec<Token>, from: usize, to: usize, tight: bool) -> (r: String)
    requires
        from <= to <= toks.len(),
    ensures
        r@ == text_between(tokens_view(*toks), from as int, to as int, tight),
{
    let mut out = String::new();
    append_text(&mut out, toks, from, to, tight);
    assert(out@ =~= text_between(tokens_view(*toks), from as int, to as int, tight));
    out
}


/// The text of a span.
pub fn span_text(ts: &TokenStream, tight: bool) -> (r: String)
    ensures
        r@ == tokens_text(tokens_of(*ts), tight),
{
    let toks = span_tokens(ts);
    run_text(&toks, 0, toks.len(), tight)
}


/// The text is a word that the language keeps for itself, or `_`: a token
/// with this text names nothing.
pub open spec fn is_keyword(s: Seq<char>) -> bool {
    s == "_"@ || s == "abstract"@ || s == "as"@ || s == "async"@ || s == "await"@ ||
        s == "become"@ || s == "box"@ || s == "break"@ || s == "const"@ || s == "continue"@ ||
        s == "crate"@ || s == "do"@ || s == "dyn"@ || s == "else"@ || s == "enum"@ ||
        s == "extern"@ || s == "false"@ || s == "final"@ || s == "fn"@ || s == "for"@ ||
        s == "if"@ || s == "impl"@ || s == "in"@ || s == "let"@ || s == "loop"@ ||
        s == "macro"@ || s == "match"@ || s == "mod"@ || s == "move"@ || s == "mut"@ ||
        s == "override"@ || s == "priv"@ || s == "pub"@ || s == "ref"@ || s == "return"@ ||
        s == "Self"@ || s == "self"@ || s == "static"@ || s == "struct"@ || s == "super"@ ||
        s == "trait"@ || s == "true"@ || s == "try"@ || s == "type"@ || s == "typeof"@ ||
        s == "unsafe"@ || s == "unsized"@ || s == "use"@ || s == "virtual"@ || s == "where"@ ||
        s == "while"@ || s == "yield"@
}

/// The token is an identifier that can name something.
pub open spec fn is_name(t: TokenView) -> bool {
    t is Ident && !is_keyword(t->Ident_0)
}

/// Tells whether a text is a word that the language keeps for itself, or
/// `_`.
pub fn text_is_keyword(s: &String) -> (r: bool)
    ensures
        r == is_keyword(s@),
{
    text_is(s, "_") || text_is(s, "abstract") || text_is(s, "as") || text_is(s, "async") ||
        text_is(s, "await") || text_is(s, "become") || text_is(s, "box") ||
        text_is(s, "break") || text_is(s, "const") || text_is(s, "continue") ||
        text_is(s, "crate") || text_is(s, "do") || text_is(s, "dyn") || text_is(s, "else") ||
        text_is(s, "enum") || text_is(s, "extern") || text_is(s, "false") ||
        text_is(s, "final") || text_is(s, "fn") || text_is(s, "for") || text_is(s, "if") ||
        text_is(s, "impl") || text_is(s, "in") || text_is(s, "let") || text_is(s, "loop") ||
        text_is(s, "macro") || text_is(s, "match") || text_is(s, "mod") || text_is(s, "move") ||
        text_is(s, "mut") || text_is(s, "override") || text_is(s, "priv") ||
        text_is(s, "pub") || text_is(s, "ref") || text_is(s, "return") || text_is(s, "Self") ||
        text_is(s, "self") || text_is(s, "static") || text_is(s, "struct") ||
        text_is(s, "super") || text_is(s, "trait") || text_is(s, "true") || text_is(s, "try") ||
        text_is(s, "type") || text_is(s, "typeof") || text_is(s, "unsafe") ||
        text_is(s, "unsized") || text_is(s, "use") || text_is(s, "virtual") ||
        text_is(s, "where") || text_is(s, "while") || text_is(s, "yield")
}

/// Tells whether a token is an identifier that can name something.
pub fn token_is_name(t: &Token) -> (r: bool)
    ensures
        r == is_name(t@),
{
    match t {
        Token::Ident(s) => !text_is_keyword(s),
        _ => false,
    }
}

} // verus!
