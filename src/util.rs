//! Parsing of a single keyword.
use vstd::prelude::*;
use crate::lexer::{self, keyword_end, skip_ws, Src};
use crate::parser::{rest_at, Mismatch, PResult};

verus! {

/// Parses keyword `kwrd` after optional whitespace: the run of letters there
/// must be exactly `kwrd`.
pub fn keyword<'a>(kwrd: &str, input: &'a str) -> (r: PResult<'a, &'a str>)
    ensures
        match keyword_end(input@, 0, kwrd@) {
            Some(e) => r matches Ok((rest, k)) && k@ == kwrd@ && rest@ == rest_at(input@, e),
            None => r is Err,
        },
{
    let src = Src::new(input);
    match lexer::keyword(&src, 0, kwrd) {
        Some(e) => {
            let a = skip_ws(&src, 0);
            Ok((src.rest(e), src.part(a, e)))
        },
        None => Err(Mismatch),
    }
}

} // verus!
