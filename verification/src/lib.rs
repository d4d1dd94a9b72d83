//! Arithmetic expressions, from text to tokens to a syntax tree to a value.
//!
//! The text is broken into tokens (`lexer`), the tokens are read into a tree
//! that respects precedence and associativity (`grammar`), and the tree is
//! evaluated in 32-bit signed integers (`eval`). Nothing is kept between two
//! calls: what a function returns is determined by its arguments alone.

use vstd::prelude::*;
use crate::ast::Node;
use crate::derivation::{is_expr, theorem_parser_finds_the_tree};
use crate::grammar::{parser, token_at, tree_of};
use crate::lexer::{lemma_tokens_end_once, tokenizer, tokens_of};
use crate::spelling::{spells, theorem_tokenizer_finds_the_tokens};
use crate::token::Token;

pub mod ast;
pub mod derivation;
pub mod eval;
pub mod grammar;
pub mod lexer;
pub mod spelling;
pub mod text;
pub mod token;

verus! {

/// The tree of the expression that a text writes, or the diagnostic of the
/// first stage that fails, behind the name of that stage.
pub open spec fn expression_of(s: Seq<char>) -> Result<Node, Seq<char>> {
    match tokens_of(s) {
        Ok(tokens) => match tree_of(tokens) {
            Ok(tree) => Ok(tree),
            Err(e) => Err("[parser]: "@ + e.text()),
        },
        Err(e) => Err("[tokenizer]: "@ + e.text()),
    }
}

/// The value of the expression that a text writes, where the text is an
/// expression and the expression has a value.
pub open spec fn evaluation(s: Seq<char>) -> Option<int> {
    match expression_of(s) {
        Ok(tree) => tree.value(),
        Err(_) => None,
    }
}

/// The text `s` writes the expression with the tree `n`: it spells tokens
/// that are an expression with that tree.
pub open spec fn writes_tree(s: Seq<char>, n: Node) -> bool {
    exists|ts: Seq<Token>| spells(s, ts) && is_expr(ts, n)
}

/// A text has the tree `n` if and only if it writes the expression with
/// that tree.
pub proof fn theorem_text_has_the_tree_it_writes(s: Seq<char>, n: Node)
    ensures
        expression_of(s) == Ok::<Node, Seq<char>>(n) <==> writes_tree(s, n),
{
    if expression_of(s) == Ok::<Node, Seq<char>>(n) {
        let tokens = tokens_of(s)->Ok_0;
        let ts = tokens.drop_last();
        lemma_tokens_end_once(s);
        assert(ts.push(Token::End) =~= tokens);
        theorem_tokenizer_finds_the_tokens(s, ts);
        theorem_parser_finds_the_tree(tokens, n);
        let k = choose|k: int| #[trigger]
            token_at(tokens, k) == Some(Token::End) && is_expr(tokens.take(k), n);
        assert(tokens.take(k) =~= ts);
    }
    if writes_tree(s, n) {
        let ts = choose|ts: Seq<Token>| spells(s, ts) && is_expr(ts, n);
        let tokens = ts.push(Token::End);
        theorem_tokenizer_finds_the_tokens(s, ts);
        assert(tokens.take(ts.len() as int) =~= ts);
        assert(token_at(tokens, ts.len() as int) == Some(Token::End));
        theorem_parser_finds_the_tree(tokens, n);
    }
}

/// Whether `r` is the outcome of reading the text `s`.
pub open spec fn is_reading_of(r: Result<Node, String>, s: Seq<char>) -> bool {
    match expression_of(s) {
        Ok(tree) => r == Ok::<Node, String>(tree),
        Err(message) => r is Err && r->Err_0@ == message,
    }
}

/// Reading a text twice gives the same outcome both times, the same tree or
/// the same diagnostic, and the tree has the same value both times.
pub proof fn lemma_same_text_same_result(
    s: Seq<char>,
    first: Result<Node, String>,
    second: Result<Node, String>,
)
    requires
        is_reading_of(first, s),
        is_reading_of(second, s),
    ensures
        match (first, second) {
            (Ok(a), Ok(b)) => a == b && a.value() == b.value() && a.value() == evaluation(s),
            (Err(a), Err(b)) => a@ == b@,
            _ => false,
        },
{
}

/// Reads a text into the tree of its expression. A text that is no
/// expression gives the diagnostic of the stage that refused it: of the
/// tokenizer where a character is outside the alphabet, else of the parser.
pub fn parse_expression(input: &str) -> (r: Result<Node, String>)
    ensures
        is_reading_of(r, input@),
        forall|n: Node| r == Ok::<Node, String>(n) <==> #[trigger] writes_tree(input@, n),
{
    proof {
        assert forall|n: Node| expression_of(input@) == Ok::<Node, Seq<char>>(n) <==> #[trigger]
            writes_tree(input@, n) by {
            theorem_text_has_the_tree_it_writes(input@, n);
        }
    }
    match tokenizer(input) {
        Ok(tokens) => match parser(tokens.as_slice()) {
            Ok(tree) => Ok(tree),
            Err(e) => {
                let mut message = "[parser]: ".to_owned();
                let words = e.to_string();
                message.append(words.as_str());
                Err(message)
            },
        },
        Err(e) => {
            let mut message = "[tokenizer]: ".to_owned();
            let words = e.to_string();
            message.append(words.as_str());
            Err(message)
        },
    }
}

/// Evaluates the expression that a text writes.
pub fn calc(input: &str) -> (r: i32)
    requires
        evaluation(input@) is Some,
    ensures
        evaluation(input@) == Some(r as int),
{
    let tokens = tokenizer(input).unwrap();
    let tree = parser(tokens.as_slice()).unwrap();
    tree.calc()
}

} // verus!
