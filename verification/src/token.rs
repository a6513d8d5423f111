use vstd::prelude::*;

use crate::parser::ParseError;

verus! {

/// A lexical token of the expression language.
#[derive(Debug, Clone, Copy, PartialEq, Eq, Structural)]
pub enum Token {
    /// Any integer
    Int(i32),
    /// The "+" symbol
    Plus,
    /// The "-" symbol
    Minus,
    /// The "(" symbol
    LeftParen,
    /// The ")" symbol
    RightParen,
}

/// A stream of tokens, consumed from the front.
#[derive(Debug)]
pub struct TokenStream {
    tokens: Vec<Token>,
}

impl View for TokenStream {
    type V = Seq<Token>;

    closed spec fn view(&self) -> Seq<Token> {
        self.tokens@
    }
}

impl TokenStream {
    /// Creates a new token stream from the given set of tokens.
    pub fn new(tokens: Vec<Token>) -> (s: Self)
        ensures
            s@ == tokens@,
    {
        Self { tokens }
    }

    /// Returns the next token, removing it from the stream, or an error if
    /// none are left.
    pub fn next(&mut self) -> (r: Result<Token, ParseError>)
        ensures
            old(self)@.len() == 0 ==> r == Err::<Token, ParseError>(ParseError::UnexpectedEndOfInput)
                && final(self)@ == old(self)@,
            old(self)@.len() > 0 ==> r == Ok::<Token, ParseError>(old(self)@[0]) && final(self)@
                == old(self)@.drop_first(),
    {
        let ghost t0 = self.tokens@;
        if self.tokens.is_empty() {
            Err(ParseError::UnexpectedEndOfInput)
        } else {
            let tok = self.tokens.remove(0);
            proof {
                assert(self.tokens@ =~= t0.drop_first());
            }
            Ok(tok)
        }
    }
}

} // verus!
