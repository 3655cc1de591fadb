//! Front end of a small actor-oriented scripting language: a tokenizer that
//! splits source text into classified tokens with exact spans, and a
//! recursive-descent parser that builds actor definitions, message handlers,
//! and a minimal statement set from those tokens.

pub mod ast;
pub mod lexer;
pub mod parser;
pub mod token;

use vstd::prelude::*;
use vstd::string::StrSliceExecFns;

verus! {

/// Collects `count` characters of `input` starting at character index `start`,
/// clamped to the end of the string.
pub fn get_characters(input: &str, start: usize, count: usize) -> (r: String)
    ensures
        r@ == input@.subrange(
            vstd::math::min(start as int, input@.len() as int),
            vstd::math::min(start as int + count as int, input@.len() as int),
        ),
{
    let n = input.unicode_len();
    let a = if start > n {
        n
    } else {
        start
    };
    let rem = n - a;
    let c = if count > rem {
        rem
    } else {
        count
    };
    let sub = input.substring_char(a, a + c);
    sub.to_owned()
}

} // verus!
