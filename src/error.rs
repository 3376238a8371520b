use vstd::prelude::*;

use crate::lexer::{Span, Tokens};

verus! {

/// A failure of tokenizing or parsing: what went wrong, where, and the tokens
/// that were found, for rendering the place.
pub struct Error<'t> {
    pub message: String,
    pub tokens: Tokens<'t>,
    pub span: Span,
}

impl<'t> Error<'t> {
    pub fn new(message: String, tokens: Tokens<'t>, span: Span) -> (r: Self)
        ensures
            r.message@ == message@,
            r.tokens.source == tokens.source,
            r.tokens.tokens@ == tokens.tokens@,
            r.span == span,
    {
        Error { message, tokens, span }
    }
}

} // verus!
