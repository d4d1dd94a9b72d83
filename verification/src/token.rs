//! Lexical tokens and the text that names them in diagnostics.

use vstd::prelude::*;
use crate::text::{decimal, push_decimal};

verus! {

/// One lexical unit of an expression. A number carries the value of the digit
/// run it was read from; `End` closes every token sequence.
#[derive(Debug, Clone, Copy, PartialEq, Eq, Structural)]
pub enum Token {
    Number(u64),
    Plus,
    Dash,
    Asterisk,
    Slash,
    Caret,
    LeftParenthese,
    RightParenthese,
    End,
}

impl Token {
    /// The token that a single symbol character stands for, if it is one of
    /// `( ) * / ^ + -`.
    pub open spec fn symbol(c: char) -> Option<Token> {
        if c == '(' {
            Some(Token::LeftParenthese)
        } else if c == ')' {
            Some(Token::RightParenthese)
        } else if c == '*' {
            Some(Token::Asterisk)
        } else if c == '/' {
            Some(Token::Slash)
        } else if c == '^' {
            Some(Token::Caret)
        } else if c == '+' {
            Some(Token::Plus)
        } else if c == '-' {
            Some(Token::Dash)
        } else {
            None
        }
    }

    /// What `new` reports for a character that is no symbol.
    pub open spec fn rejection(c: char) -> Seq<char> {
        "Failed to create a token from "@.push(c)
    }

    /// The token for a symbol character; any other character is refused with
    /// a message that names it.
    pub fn new(c: char) -> (r: Result<Token, String>)
        ensures
            match Token::symbol(c) {
                Some(t) => r == Ok::<Token, String>(t),
                None => r is Err && r->Err_0@ == Token::rejection(c),
            },
    {
        if c == '(' {
            return Ok(Token::LeftParenthese);
        }
        if c == ')' {
            return Ok(Token::RightParenthese);
        }
        if c == '*' {
            return Ok(Token::Asterisk);
        }
        if c == '/' {
            return Ok(Token::Slash);
        }
        if c == '^' {
            return Ok(Token::Caret);
        }
        if c == '+' {
            return Ok(Token::Plus);
        }
        if c == '-' {
            return Ok(Token::Dash);
        }
        let mut message = "Failed to create a token from ".to_owned();
        message.push(c);
        Err(message)
    }

    /// How a diagnostic names the token: a number by its decimal numeral, an
    /// operator by its quoted symbol, a parenthese and the end by a phrase.
    pub open spec fn text(self) -> Seq<char> {
        match self {
            Token::Number(n) => decimal(n as nat),
            Token::Plus => "'+'"@,
            Token::Dash => "'-'"@,
            Token::Asterisk => "'*'"@,
            Token::Slash => "'/'"@,
            Token::Caret => "'^'"@,
            Token::LeftParenthese => "an opening parenthese '('"@,
            Token::RightParenthese => "a closing parenthese ')'"@,
            Token::End => "the end token"@,
        }
    }

    /// The name of the token, as diagnostics print it.
    pub fn to_string(&self) -> (s: String)
        ensures
            s@ == self.text(),
    {
        match self {
            Token::Number(n) => {
                let mut s = String::new();
                push_decimal(&mut s, *n);
                s
            },
            Token::Plus => "'+'".to_owned(),
            Token::Dash => "'-'".to_owned(),
            Token::Asterisk => "'*'".to_owned(),
            Token::Slash => "'/'".to_owned(),
            Token::Caret => "'^'".to_owned(),
            Token::LeftParenthese => "an opening parenthese '('".to_owned(),
            Token::RightParenthese => "a closing parenthese ')'".to_owned(),
            Token::End => "the end token".to_owned(),
        }
    }
}

} // verus!
