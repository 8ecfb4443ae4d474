//! Integer literals, as `syn` reads them.
//!
//! What `syn` makes of a text is not stated here: its lexer is chosen by the
//! process it runs in. The two functions below therefore promise nothing of
//! what they return, and their caller is proved for every outcome.

use vstd::prelude::*;

verus! {

#[verifier::external_type_specification]
#[verifier::external_body]
pub struct ExSynError(syn::Error);

#[verifier::external_type_specification]
#[verifier::external_body]
pub struct ExLitInt(syn::LitInt);

/// Calls `syn::parse_str::<syn::LitInt>` on `tokens`.
///
/// A text with a minus sign is kept out: for a negative literal `syn` lexes
/// the text a second time and unwraps the outcome. On every other text the
/// call returns, and nothing is claimed of what it returns.
#[verifier::external_body]
pub(crate) fn parse_literal(tokens: &str) -> (r: Result<syn::LitInt, syn::Error>)
    requires
        !tokens@.contains('-'),
{
    syn::parse_str::<syn::LitInt>(tokens)
}

/// Calls `syn::LitInt::base10_parse::<i32>` on `literal`. Nothing is claimed
/// of what it returns.
#[verifier::external_body]
pub(crate) fn literal_value(literal: &syn::LitInt) -> (r: Result<i32, syn::Error>) {
    literal.base10_parse::<i32>()
}

} // verus!
