use vstd::prelude::*;

pub mod diagnostic;
pub mod error;
pub mod grammar;
pub mod lexer;
pub mod parser;
pub mod source;

use crate::lexer::{lexes, token_stream};
use crate::parser::{ends_with_eof, parse_tokens};

verus! {

/// Tokenizing and parsing keep no state between runs: the same text always gives
/// the same token stream, the same verdict on stray characters, and the same parse.
pub proof fn lemma_same_text_same_result(a: Seq<u8>, b: Seq<u8>)
    requires
        a == b,
    ensures
        token_stream(a) == token_stream(b),
        lexes(a) == lexes(b),
        parse_tokens(token_stream(a)) == parse_tokens(token_stream(b)),
{
}

/// Every token stream ends with its `EOF` token, so it can always be handed to
/// the parser.
pub proof fn lemma_stream_ends_with_eof(b: Seq<u8>)
    ensures
        ends_with_eof(token_stream(b)),
{
}

} // verus!
