//! Token-stream transformers for macro authors: identifier synthesis from bracketed
//! placeholder patterns, and dispatch on the kind of a literal.
//!
//! Tokens are plain data here ([`tokens::Token`]); a host converts its own token trees to
//! and from them, keeping each position as an index into its own table of spans.

pub mod tokens;
pub mod utils;
pub mod idents;
pub mod match_lit;

use vstd::prelude::*;
use crate::tokens::{Token, trees};
use crate::utils::is_error;

verus! {

/// The expansion of `match_lit!`: the tokens of the first branch that accepts the literal,
/// or the tokens of a compile-time error.
pub fn match_lit(input: Vec<Token>) -> (r: Vec<Token>)
    ensures
        match match_lit::match_lit_spec(trees(input@)) {
            Ok(t) => trees(r@) == t,
            Err(err) => is_error(r, err),
        },
{
    match match_lit::match_lit(input) {
        Ok(res) => res,
        Err(err) => err,
    }
}

/// The expansion of `idents!`: the input with its identifier constructs rewritten, or the
/// tokens of a compile-time error.
pub fn idents(input: Vec<Token>) -> (r: Vec<Token>)
    ensures
        match idents::idents_spec(trees(input@)) {
            Ok(t) => trees(r@) == t,
            Err(err) => is_error(r, err),
        },
{
    match idents::idents(input) {
        Ok(res) => res,
        Err(err) => err,
    }
}

} // verus!
