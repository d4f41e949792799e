//! Reading a function signature out of a run of tokens.

use vstd::prelude::*;
use crate::scan::{
    attrs_at, attrs_end, find, find_stop, lifetime_at, lifetime_end, mut_at, mut_end, parse_attrs,
    parse_lifetime, parse_texts, parse_type, stops, stops_at, texts_between, type_between, Stop,
};
use crate::token::{
    is_joint, is_punct, is_word, run_text, text_between, token_is_joint, token_is_punct,
    token_is_word, tokens_view, Bracket, Token, TokenView,
};
use crate::tree::{
    lemma_views_push, text_option, view_option, views, Abi, AbiView, Attribute, AttributeView, FnArg,
    FnArgView, Generics, GenericsView, PatType, PatTypeView, Receiver, ReceiverView, Signature,
    SignatureView, Type, TypeView, Variadic, VariadicView,
};

verus! {

/// What one piece of a parameter list is.
pub enum ArgView {
    Arg(FnArgView),
    Variadic(VariadicView),
}

/// What one piece of a parameter list is.
#[derive(Debug)]
pub enum Arg {
    Arg(FnArg),
    Variadic(Variadic),
}

impl View for Arg {
    type V = ArgView;

    open spec fn view(&self) -> ArgView {
        match *self {
            Arg::Arg(a) => ArgView::Arg(a@),
            Arg::Variadic(v) => ArgView::Variadic(v@),
        }
    }
}

/// The run from `p` up to `to` is `...`.
pub open spec fn is_dots(t: Seq<TokenView>, p: int, to: int) -> bool {
    p + 3 == to && is_punct(t[p], '.') && is_punct(t[p + 1], '.') && is_punct(t[p + 2], '.')
}

/// `&` stands at `p`.
pub open spec fn amp_at(t: Seq<TokenView>, p: int, to: int) -> bool {
    p < to && is_punct(t[p], '&')
}

/// The place where `self` has to stand for the parameter at `p` to be a
/// receiver: behind `&` and a lifetime, if there are any, and `mut`.
pub open spec fn self_place(t: Seq<TokenView>, p: int, to: int) -> int {
    if amp_at(t, p, to) {
        mut_end(t, lifetime_end(t, p, to), to)
    } else {
        mut_end(t, p, to)
    }
}

/// The parameter at `p` is a receiver.
pub open spec fn is_receiver(t: Seq<TokenView>, p: int, to: int) -> bool {
    0 <= self_place(t, p, to) < to && is_word(t[self_place(t, p, to)], "self"@)
}

/// The receiver at `p` is written with `mut`.
pub open spec fn receiver_mut(t: Seq<TokenView>, p: int, to: int) -> bool {
    if amp_at(t, p, to) {
        mut_at(t, lifetime_end(t, p, to), to)
    } else {
        mut_at(t, p, to)
    }
}

/// The type `Self`.
pub open spec fn self_type() -> TypeView {
    TypeView::Path { qself: false, path: "Self"@ }
}

/// The type that a receiver in short form stands for.
pub open spec fn implied_type(t: Seq<TokenView>, p: int, to: int) -> TypeView {
    if amp_at(t, p, to) {
        TypeView::Reference {
            lifetime: lifetime_at(t, p + 1, to),
            mutable: receiver_mut(t, p, to),
            elem: Box::new(self_type()),
        }
    } else {
        self_type()
    }
}

/// The receiver that stands at `p` and ends at `to`: in short form, or, where
/// it is written without `&`, with a type behind a colon.
pub open spec fn receiver_between(t: Seq<TokenView>, p: int, to: int, attrs: Seq<AttributeView>) -> Option<
    ReceiverView,
> {
    let s = self_place(t, p, to);
    if s + 1 == to {
        Some(
            ReceiverView {
                attrs,
                reference: if amp_at(t, p, to) {
                    Some(lifetime_at(t, p + 1, to))
                } else {
                    None
                },
                mutability: receiver_mut(t, p, to),
                ty: implied_type(t, p, to),
            },
        )
    } else if !amp_at(t, p, to) && s + 2 < to && stops(t, p, s + 1, to, Stop::Colon) {
        Some(
            ReceiverView {
                attrs,
                reference: None,
                mutability: receiver_mut(t, p, to),
                ty: type_between(t, s + 2, to),
            },
        )
    } else {
        None
    }
}

/// The parameter that stands at `p` and ends at `to`, a pattern and its type
/// with a colon between; a variadic where `...` stands for the type.
pub open spec fn typed_between(t: Seq<TokenView>, p: int, to: int, attrs: Seq<AttributeView>) -> Option<
    ArgView,
> {
    let k = find(t, p, to, Stop::Colon);
    if p < k && k + 1 < to {
        if is_dots(t, k + 1, to) {
            Some(ArgView::Variadic(VariadicView { attrs, pat: Some(text_between(t, p, k, false)) }))
        } else {
            Some(
                ArgView::Arg(
                    FnArgView::Typed(
                        PatTypeView {
                            attrs,
                            pat: text_between(t, p, k, false),
                            ty: type_between(t, k + 1, to),
                        },
                    ),
                ),
            )
        }
    } else {
        None
    }
}

/// The piece of a parameter list from `from` up to `to`.
pub open spec fn arg_between(t: Seq<TokenView>, from: int, to: int) -> Option<ArgView> {
    let p = attrs_end(t, from, to);
    let attrs = attrs_at(t, from, to);
    if is_dots(t, p, to) {
        Some(ArgView::Variadic(VariadicView { attrs, pat: None }))
    } else if is_receiver(t, p, to) {
        match receiver_between(t, p, to, attrs) {
            Some(r) => Some(ArgView::Arg(FnArgView::Receiver(r))),
            None => None,
        }
    } else {
        typed_between(t, p, to, attrs)
    }
}

fn dots_at(toks: &Vec<Token>, p: usize, to: usize) -> (r: bool)
    requires
        p <= to <= toks.len(),
    ensures
        r == is_dots(tokens_view(*toks), p as int, to as int),
{
    to - p == 3 && token_is_punct(&toks[p], '.') && token_is_punct(&toks[p + 1], '.') && token_is_punct(
        &toks[p + 2],
        '.',
    )
}

fn has_mut(toks: &Vec<Token>, q: usize, to: usize) -> (r: bool)
    requires
        to <= toks.len(),
    ensures
        r == mut_at(tokens_view(*toks), q as int, to as int),
{
    q < to && token_is_word(&toks[q], "mut")
}

fn self_path() -> (r: Type)
    ensures
        r@ == self_type(),
{
    Type::Path { qself: false, path: String::from_str("Self") }
}

/// Reads the piece of a parameter list from `from` up to `to`.
pub fn parse_arg(toks: &Vec<Token>, from: usize, to: usize) -> (r: Option<Arg>)
    requires
        from <= to <= toks.len(),
    ensures
        view_option(r) == arg_between(tokens_view(*toks), from as int, to as int),
{
    let (attrs, p) = parse_attrs(toks, from, to);
    if dots_at(toks, p, to) {
        return Some(Arg::Variadic(Variadic { attrs, pat: None }));
    }
    let amp: bool = p < to && token_is_punct(&toks[p], '&');
    let lifetime: Option<String> = if amp {
        parse_lifetime(toks, p + 1, to)
    } else {
        None
    };
    let q: usize = if amp {
        if lifetime.is_some() {
            p + 3
        } else {
            p + 1
        }
    } else {
        p
    };
    let mutability: bool = has_mut(toks, q, to);
    let s: usize = if mutability {
        q + 1
    } else {
        q
    };
    if s < to && token_is_word(&toks[s], "self") {
        if to - s == 1 {
            let ty = if amp {
                Type::Reference { lifetime: lifetime.clone(), mutable: mutability, elem: Box::new(self_path()) }
            } else {
                self_path()
            };
            let reference: Option<Option<String>> = if amp {
                Some(lifetime)
            } else {
                None
            };
            Some(Arg::Arg(FnArg::Receiver(Receiver { attrs, reference, mutability, ty })))
        } else if !amp && to - s > 2 && stops_at(toks, p, s + 1, to, Stop::Colon) {
            let ty = parse_type(toks, s + 2, to);
            Some(Arg::Arg(FnArg::Receiver(Receiver { attrs, reference: None, mutability, ty })))
        } else {
            None
        }
    } else {
        let k = find_stop(toks, p, to, Stop::Colon);
        if p < k && to - k > 1 {
            let pat = run_text(toks, p, k, false);
            if dots_at(toks, k + 1, to) {
                Some(Arg::Variadic(Variadic { attrs, pat: Some(pat) }))
            } else {
                let ty = parse_type(toks, k + 1, to);
                Some(Arg::Arg(FnArg::Typed(PatType { attrs, pat, ty })))
            }
        } else {
            None
        }
    }
}

/// The parameters of a signature.
pub struct InputsView {
    pub args: Seq<FnArgView>,
    pub variadic: Option<VariadicView>,
}

/// The parameters of a signature.
#[derive(Debug)]
pub struct Inputs {
    pub args: Vec<FnArg>,
    pub variadic: Option<Variadic>,
}

impl View for Inputs {
    type V = InputsView;

    open spec fn view(&self) -> InputsView {
        InputsView { args: views(self.args@), variadic: view_option(self.variadic) }
    }
}

/// The parameters that the run from `from` up to `to` holds, cut at its
/// commas. A comma may end the run; a variadic stands last, with no comma
/// behind it.
pub open spec fn inputs_between(t: Seq<TokenView>, from: int, to: int) -> Option<InputsView>
    decreases to - from,
{
    if from >= to {
        Some(InputsView { args: seq![], variadic: None })
    } else {
        let k = find(t, from, to, Stop::Comma);
        if k <= from {
            None
        } else {
            match arg_between(t, from, k) {
                None => None,
                Some(ArgView::Variadic(v)) => if k >= to {
                    Some(InputsView { args: seq![], variadic: Some(v) })
                } else {
                    None
                },
                Some(ArgView::Arg(a)) => if k >= to {
                    Some(InputsView { args: seq![a], variadic: None })
                } else {
                    with_head(seq![a], inputs_between(t, k + 1, to))
                },
            }
        }
    }
}

/// Parameters with `head` before them, where there are any.
pub open spec fn with_head(head: Seq<FnArgView>, tail: Option<InputsView>) -> Option<InputsView> {
    match tail {
        Some(rest) => Some(InputsView { args: head + rest.args, variadic: rest.variadic }),
        None => None,
    }
}

/// Reads the parameters that the run from `from` up to `to` holds.
pub fn parse_inputs(toks: &Vec<Token>, from: usize, to: usize) -> (r: Option<Inputs>)
    requires
        from <= to <= toks.len(),
    ensures
        view_option(r) == inputs_between(tokens_view(*toks), from as int, to as int),
{
    let mut args: Vec<FnArg> = Vec::new();
    let mut cur: usize = from;
    let ghost goal = inputs_between(tokens_view(*toks), from as int, to as int);
    assert(goal == with_head(views(args@), inputs_between(tokens_view(*toks), cur as int, to as int))) by {
        let tail = inputs_between(tokens_view(*toks), cur as int, to as int);
        if tail is Some {
            assert(views(args@) + tail->0.args =~= tail->0.args);
        }
    }
    while cur < to
        invariant
            from <= cur <= to <= toks.len(),
            goal == inputs_between(tokens_view(*toks), from as int, to as int),
            goal == with_head(views(args@), inputs_between(tokens_view(*toks), cur as int, to as int)),
        decreases to - cur,
    {
        let k = find_stop(toks, cur, to, Stop::Comma);
        if k == cur {
            return None;
        }
        match parse_arg(toks, cur, k) {
            None => {
                return None;
            },
            Some(Arg::Variadic(v)) => {
                if k == to {
                    assert(views(args@) + seq![] =~= views(args@));
                    return Some(Inputs { args, variadic: Some(v) });
                } else {
                    return None;
                }
            },
            Some(Arg::Arg(a)) => {
                proof {
                    lemma_views_push(args@, a);
                    assert(views(args@) + seq![a@] =~= views(args@).push(a@));
                    let tail = inputs_between(tokens_view(*toks), k + 1, to as int);
                    if k < to && tail is Some {
                        assert(views(args@) + (seq![a@] + tail->0.args) =~= views(args@).push(a@)
                            + tail->0.args);
                    }
                }
                args.push(a);
                if k == to {
                    return Some(Inputs { args, variadic: None });
                }
                cur = k + 1;
            },
        }
    }
    assert(views(args@) + seq![] =~= views(args@));
    Some(Inputs { args, variadic: None })
}

/// The word `w` stands at `q`.
pub open spec fn word_at(t: Seq<TokenView>, q: int, to: int, w: Seq<char>) -> bool {
    q < to && is_word(t[q], w)
}

/// The place behind the word `w` where it stands at `q`, else `q`.
pub open spec fn skip(t: Seq<TokenView>, q: int, to: int, w: Seq<char>) -> int {
    if word_at(t, q, to, w) {
        q + 1
    } else {
        q
    }
}

/// `extern` at `q`, with the name behind it where there is one.
pub open spec fn abi_at(t: Seq<TokenView>, q: int, to: int) -> Option<AbiView> {
    if word_at(t, q, to, "extern"@) {
        Some(
            AbiView {
                name: if q + 1 < to && t[q + 1] is Literal {
                    Some(t[q + 1]->Literal_0)
                } else {
                    None
                },
            },
        )
    } else {
        None
    }
}

/// The place behind what `abi_at` reads.
pub open spec fn abi_end(t: Seq<TokenView>, q: int, to: int) -> int {
    match abi_at(t, q, to) {
        None => q,
        Some(abi) => if abi.name is Some {
            q + 2
        } else {
            q + 1
        },
    }
}

/// The generic parameters between angle brackets at `q`; none where no `<`
/// stands there.
pub open spec fn params_at(t: Seq<TokenView>, q: int, to: int) -> Option<Seq<Seq<char>>> {
    if q < to && is_punct(t[q], '<') {
        if find(t, q + 1, to, Stop::Close) < to {
            texts_between(t, q + 1, find(t, q + 1, to, Stop::Close))
        } else {
            None
        }
    } else {
        Some(seq![])
    }
}

/// The place behind what `params_at` reads.
pub open spec fn params_end(t: Seq<TokenView>, q: int, to: int) -> int {
    if q < to && is_punct(t[q], '<') {
        find(t, q + 1, to, Stop::Close) + 1
    } else {
        q
    }
}

/// An arrow `->` stands at `q`.
pub open spec fn arrow_at(t: Seq<TokenView>, q: int, to: int) -> bool {
    q + 1 < to && is_punct(t[q], '-') && is_joint(t[q]) && is_punct(t[q + 1], '>')
}

/// The place behind the return type at `q`: where `where` stands, or `to`.
pub open spec fn output_end(t: Seq<TokenView>, q: int, to: int) -> int {
    if arrow_at(t, q, to) {
        find(t, q + 2, to, Stop::Where)
    } else {
        q
    }
}

/// The return type behind an arrow at `q`, none where no arrow stands there;
/// an arrow without a type behind it spoils the signature.
pub open spec fn output_at(t: Seq<TokenView>, q: int, to: int) -> Option<Option<TypeView>> {
    if arrow_at(t, q, to) {
        if output_end(t, q, to) > q + 2 {
            Some(Some(type_between(t, q + 2, output_end(t, q, to))))
        } else {
            None
        }
    } else {
        Some(None)
    }
}

/// The predicates behind `where` at `q`, up to `to`; none where the run ends
/// at `q`. Anything else at `q` spoils the declaration.
pub open spec fn where_at(t: Seq<TokenView>, q: int, to: int) -> Option<Option<Seq<Seq<char>>>> {
    if word_at(t, q, to, "where"@) {
        match texts_between(t, q + 1, to) {
            Some(predicates) => Some(Some(predicates)),
            None => None,
        }
    } else if q == to {
        Some(None)
    } else {
        None
    }
}

/// The place of `fn` in a signature that starts at `from`: behind `const`,
/// `async`, `unsafe` and `extern` with its name, as far as they stand there
/// in this order.
pub open spec fn fn_place(t: Seq<TokenView>, from: int, to: int) -> int {
    abi_end(
        t,
        skip(t, skip(t, skip(t, from, to, "const"@), to, "async"@), to, "unsafe"@),
        to,
    )
}

/// The signature that the run from `from` up to `to` holds, if it is one:
/// what stands before `fn`, the name, the generic parameters, the
/// parameters between parentheses, the return type and the `where` clause.
pub open spec fn signature_between(t: Seq<TokenView>, from: int, to: int) -> Option<SignatureView> {
    let q1 = skip(t, from, to, "const"@);
    let q2 = skip(t, q1, to, "async"@);
    let q3 = skip(t, q2, to, "unsafe"@);
    let q4 = fn_place(t, from, to);
    let q6 = params_end(t, q4 + 2, to);
    if !(q4 + 1 < to && is_word(t[q4], "fn"@) && t[q4 + 1] is Ident) {
        None
    } else if params_at(t, q4 + 2, to) is None || !(q6 < to && t[q6] is Group && t[q6]->Group_0
        == Bracket::Parenthesis) {
        None
    } else {
        let inner = t[q6]->Group_1;
        let inputs = inputs_between(inner, 0, inner.len() as int);
        let output = output_at(t, q6 + 1, to);
        let clause = where_at(t, output_end(t, q6 + 1, to), to);
        if inputs is None || output is None || clause is None {
            None
        } else {
            Some(
                SignatureView {
                    constness: word_at(t, from, to, "const"@),
                    asyncness: word_at(t, q1, to, "async"@),
                    unsafety: word_at(t, q2, to, "unsafe"@),
                    abi: abi_at(t, q3, to),
                    ident: t[q4 + 1]->Ident_0,
                    generics: GenericsView { params: params_at(t, q4 + 2, to)->0, where_clause: clause->0 },
                    inputs: inputs->0.args,
                    variadic: inputs->0.variadic,
                    output: output->0,
                },
            )
        }
    }
}

fn has_word(toks: &Vec<Token>, q: usize, to: usize, w: &str) -> (r: bool)
    requires
        to <= toks.len(),
    ensures
        r == word_at(tokens_view(*toks), q as int, to as int, w@),
{
    q < to && token_is_word(&toks[q], w)
}

/// Reads the generic parameters at `q`, and says where they end.
pub fn parse_params(toks: &Vec<Token>, q: usize, to: usize) -> (r: Option<(Vec<String>, usize)>)
    requires
        q <= to <= toks.len(),
    ensures
        match r {
            Some((params, end)) => params_at(tokens_view(*toks), q as int, to as int) == Some(views(params@)) && end
                == params_end(tokens_view(*toks), q as int, to as int) && q <= end <= to,
            None => params_at(tokens_view(*toks), q as int, to as int) is None,
        },
{
    if q < to && token_is_punct(&toks[q], '<') {
        let close = find_stop(toks, q + 1, to, Stop::Close);
        if close < to {
            match parse_texts(toks, q + 1, close) {
                Some(params) => Some((params, close + 1)),
                None => None,
            }
        } else {
            None
        }
    } else {
        let params: Vec<String> = Vec::new();
        assert(views(params@) =~= seq![]);
        Some((params, q))
    }
}

/// Reads a `where` clause at `q` that runs up to `to`.
pub fn parse_where(toks: &Vec<Token>, q: usize, to: usize) -> (r: Option<Option<Vec<String>>>)
    requires
        q <= to <= toks.len(),
    ensures
        match r {
            Some(Some(predicates)) => where_at(tokens_view(*toks), q as int, to as int) == Some(Some(views(predicates@))),
            Some(None) => where_at(tokens_view(*toks), q as int, to as int) == Some(None::<Seq<Seq<char>>>),
            None => where_at(tokens_view(*toks), q as int, to as int) is None,
        },
{
    if has_word(toks, q, to, "where") {
        match parse_texts(toks, q + 1, to) {
            Some(predicates) => Some(Some(predicates)),
            None => None,
        }
    } else if q == to {
        Some(None)
    } else {
        None
    }
}

/// Reads the run from `from` up to `to` as a signature.
#[verifier::rlimit(60)]
pub fn parse_signature(toks: &Vec<Token>, from: usize, to: usize) -> (r: Option<Signature>)
    requires
        from <= to <= toks.len(),
    ensures
        view_option(r) == signature_between(tokens_view(*toks), from as int, to as int),
{
    let constness: bool = has_word(toks, from, to, "const");
    let q1: usize = if constness {
        from + 1
    } else {
        from
    };
    let asyncness: bool = has_word(toks, q1, to, "async");
    let q2: usize = if asyncness {
        q1 + 1
    } else {
        q1
    };
    let unsafety: bool = has_word(toks, q2, to, "unsafe");
    let q3: usize = if unsafety {
        q2 + 1
    } else {
        q2
    };
    let mut q4: usize = q3;
    let mut abi: Option<Abi> = None;
    if has_word(toks, q3, to, "extern") {
        let mut name: Option<String> = None;
        q4 = q3 + 1;
        if q4 < to {
            match &toks[q4] {
                Token::Literal(text) => {
                    name = Some(text.clone());
                    q4 = q3 + 2;
                },
                _ => {},
            }
        }
        abi = Some(Abi { name });
    }
    assert(q4 == fn_place(tokens_view(*toks), from as int, to as int));
    assert(view_option(abi) == abi_at(tokens_view(*toks), q3 as int, to as int));
    if !(q4 < to && to - q4 > 1 && token_is_word(&toks[q4], "fn")) {
        return None;
    }
    let ident: String = match &toks[q4 + 1] {
        Token::Ident(name) => name.clone(),
        _ => {
            return None;
        },
    };
    let (params, q6) = match parse_params(toks, q4 + 2, to) {
        Some(found) => found,
        None => {
            return None;
        },
    };
    if q6 >= to {
        return None;
    }
    let inputs: Inputs = match &toks[q6] {
        Token::Group(b, inner) => match b {
            Bracket::Parenthesis => match parse_inputs(inner, 0, inner.len()) {
                Some(inputs) => inputs,
                None => {
                    return None;
                },
            },
            _ => {
                return None;
            },
        },
        _ => {
            return None;
        },
    };
    let q7: usize = q6 + 1;
    let mut q8: usize = q7;
    let mut output: Option<Type> = None;
    if q7 < to && to - q7 > 1 && token_is_punct(&toks[q7], '-') && token_is_joint(&toks[q7])
        && token_is_punct(&toks[q7 + 1], '>') {
        q8 = find_stop(toks, q7 + 2, to, Stop::Where);
        if q8 == q7 + 2 {
            return None;
        }
        output = Some(parse_type(toks, q7 + 2, q8));
    }
    assert(q8 == output_end(tokens_view(*toks), q7 as int, to as int));
    assert(output_at(tokens_view(*toks), q7 as int, to as int) == Some(view_option(output)));
    let where_clause: Option<Vec<String>> = match parse_where(toks, q8, to) {
        Some(clause) => clause,
        None => {
            return None;
        },
    };
    let Inputs { args, variadic } = inputs;
    Some(
        Signature {
            constness,
            asyncness,
            unsafety,
            abi,
            ident,
            generics: Generics { params, where_clause },
            inputs: args,
            variadic,
            output,
        },
    )
}

} // verus!
