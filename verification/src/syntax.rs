//! What the parser of the `syn` crate says of a run of tokens. The fallback
//! asks it about the parts of a span that it keeps as text, so that no span
//! is rendered that is not well formed.

use vstd::prelude::*;
use proc_macro2::TokenStream;
use crate::token::{tokens_of, TokenView};

verus! {

/// Whether `syn` parses the `count` tokens from `from` on as a function
/// signature.
pub uninterp spec fn is_signature(toks: Seq<TokenView>, from: int, count: int) -> bool;

/// Whether `syn` parses the `count` tokens from `from` on as an expression.
pub uninterp spec fn is_expr(toks: Seq<TokenView>, from: int, count: int) -> bool;

/// Whether `syn` parses the tokens as a type alias.
pub uninterp spec fn is_type_alias(toks: Seq<TokenView>) -> bool;

/// Asks whether the `count` tokens from `from` on are a function signature.
///
/// Calls `syn::parse2` for `syn::Signature` on these tokens, which succeeds
/// where the whole run parses as a signature. Trusted: the answer depends on
/// the tokens alone.
#[verifier::external_body]
pub(crate) fn parses_as_signature(ts: &TokenStream, from: usize, count: usize) -> (r: bool)
    requires
        from + count <= tokens_of(*ts).len(),
    ensures
        r == is_signature(tokens_of(*ts), from as int, count as int),
{
    let run: TokenStream = ts.clone().into_iter().skip(from).take(count).collect();
    syn::parse2::<syn::Signature>(run).is_ok()
}

/// Asks whether the `count` tokens from `from` on are an expression.
///
/// Calls `syn::parse2` for `syn::Expr` on these tokens, which succeeds where
/// the whole run parses as an expression. Trusted: the answer depends on the
/// tokens alone.
#[verifier::external_body]
pub(crate) fn parses_as_expr(ts: &TokenStream, from: usize, count: usize) -> (r: bool)
    requires
        from + count <= tokens_of(*ts).len(),
    ensures
        r == is_expr(tokens_of(*ts), from as int, count as int),
{
    let run: TokenStream = ts.clone().into_iter().skip(from).take(count).collect();
    syn::parse2::<syn::Expr>(run).is_ok()
}

/// Asks whether a span is a type alias.
///
/// Calls `syn::parse2` for `syn::ItemType` on the span, which succeeds where
/// the whole span parses as a type alias. Trusted: the answer depends on the
/// tokens alone.
#[verifier::external_body]
pub(crate) fn parses_as_type_alias(ts: &TokenStream) -> (r: bool)
    ensures
        r == is_type_alias(tokens_of(*ts)),
{
    syn::parse2::<syn::ItemType>(ts.clone()).is_ok()
}

} // verus!
