//! From tokens to a syntax tree, by recursive descent over the grammar
//!
//! ```text
//! Expr  := Term  { ("+" | "-") Term }     left-associative
//! Term  := Power { ("*" | "/") Power }    left-associative
//! Power := Unary [ "^" Power ]            right-associative
//! Unary := NUMBER | "(" Expr ")" | "-" Unary
//! ```
//!
//! A rule reads the tokens from a position on and gives the tree it built
//! together with the position of the first token it left unread.

use vstd::prelude::*;
use crate::ast::{BinaryOperator, Node, UnaryOperator};
use crate::derivation::{
    explains, is_tree_of, lemma_errors_are_explained, theorem_parser_finds_the_tree,
};
use crate::token::Token;

verus! {

/// Why a token sequence is no expression. Each case carries the token found
/// where another was needed, or `None` where the tokens had run out.
#[derive(Debug, Clone, Copy, PartialEq, Eq, Structural)]
pub enum ParseError {
    /// A number, an opening parenthese or a minus sign was needed.
    ExpectedPrimary(Option<Token>),
    /// The closing parenthese of a bracketed expression was needed.
    ExpectedCloseParen(Option<Token>),
    /// The end token was needed after a complete expression.
    ExpectedEnd(Option<Token>),
}

/// How a diagnostic names what was found in place of the token needed.
pub open spec fn found_text(found: Option<Token>) -> Seq<char> {
    match found {
        Some(token) => token.text(),
        None => "nothing"@,
    }
}

/// What a diagnostic says was needed where a primary expression had to start.
pub open spec fn primary_text() -> Seq<char> {
    "a number (positive or negative) or an expression wrapped inside parentheses"@
}

/// The wording shared by all diagnostics of the parser.
pub open spec fn expectation_text(wanted: Seq<char>, found: Option<Token>) -> Seq<char> {
    "Expected "@ + wanted + ", but Instead, got "@ + found_text(found)
}

impl ParseError {
    /// The wording of the error.
    pub open spec fn text(self) -> Seq<char> {
        match self {
            ParseError::ExpectedPrimary(found) => expectation_text(primary_text(), found),
            ParseError::ExpectedCloseParen(found) => expectation_text(
                Token::RightParenthese.text(),
                found,
            ),
            ParseError::ExpectedEnd(found) => expectation_text(Token::End.text(), found),
        }
    }

    /// The error in words: what was needed and what was found instead.
    pub fn to_string(&self) -> (s: String)
        ensures
            s@ == self.text(),
    {
        let (wanted, found) = match self {
            ParseError::ExpectedPrimary(found) => (
                "a number (positive or negative) or an expression wrapped inside parentheses".to_owned(),
                found,
            ),
            ParseError::ExpectedCloseParen(found) => (Token::RightParenthese.to_string(), found),
            ParseError::ExpectedEnd(found) => (Token::End.to_string(), found),
        };
        let mut s = "Expected ".to_owned();
        s.append(wanted.as_str());
        s.append(", but Instead, got ");
        match found {
            Some(token) => {
                let name = token.to_string();
                s.append(name.as_str());
            },
            None => {
                s.append("nothing");
            },
        }
        s
    }
}

/// The token at `pos`, or `None` beyond the last token.
pub open spec fn token_at(ts: Seq<Token>, pos: int) -> Option<Token> {
    if 0 <= pos < ts.len() {
        Some(ts[pos])
    } else {
        None
    }
}

/// The operator that a token written between two terms stands for.
pub open spec fn additive(token: Option<Token>) -> Option<BinaryOperator> {
    match token {
        Some(Token::Plus) => Some(BinaryOperator::Addition),
        Some(Token::Dash) => Some(BinaryOperator::Subtraction),
        _ => None,
    }
}

/// The operator that a token written between two powers stands for.
pub open spec fn multiplicative(token: Option<Token>) -> Option<BinaryOperator> {
    match token {
        Some(Token::Asterisk) => Some(BinaryOperator::Multiplication),
        Some(Token::Slash) => Some(BinaryOperator::Division),
        _ => None,
    }
}

/// The tree of a binary operation.
pub open spec fn binary(op: BinaryOperator, left: Node, right: Node) -> Node {
    Node::Binary(op, Box::new(left), Box::new(right))
}

/// The tree of a negation.
pub open spec fn negation(operand: Node) -> Node {
    Node::Unary(UnaryOperator::Negative, Box::new(operand))
}

/// What `expect` gives at `pos`: the next position where the token there is
/// the one wanted, and otherwise what stands there.
pub open spec fn expected_at(wanted: Token, ts: Seq<Token>, pos: int) -> Result<
    int,
    Option<Token>,
> {
    if token_at(ts, pos) == Some(wanted) {
        Ok(pos + 1)
    } else {
        Err(token_at(ts, pos))
    }
}

/// The rule `Unary := NUMBER | "(" Expr ")" | "-" Unary` read at `pos`.
pub open spec fn unary(ts: Seq<Token>, pos: int) -> Result<(Node, int), ParseError>
    decreases ts.len() - pos, 0nat,
{
    match token_at(ts, pos) {
        Some(Token::Number(n)) => Ok((Node::Single(n), pos + 1)),
        Some(Token::Dash) => match unary(ts, pos + 1) {
            Ok((operand, next)) => Ok((negation(operand), next)),
            Err(e) => Err(e),
        },
        Some(Token::LeftParenthese) => match expr(ts, pos + 1) {
            Ok((inner, next)) => match expected_at(Token::RightParenthese, ts, next) {
                Ok(after) => Ok((inner, after)),
                Err(found) => Err(ParseError::ExpectedCloseParen(found)),
            },
            Err(e) => Err(e),
        },
        found => Err(ParseError::ExpectedPrimary(found)),
    }
}

/// The rule `Power := Unary [ "^" Power ]` read at `pos`: the exponent is a
/// power itself, so a chain of `^` groups from the right.
///
/// The tests on `next`, here and in the rules below, never fail (see
/// `lemma_rules_advance`); they make the recursion well-founded.
pub open spec fn power(ts: Seq<Token>, pos: int) -> Result<(Node, int), ParseError>
    decreases ts.len() - pos, 1nat,
{
    match unary(ts, pos) {
        Ok((base, next)) => if pos < next && token_at(ts, next) == Some(Token::Caret) {
            match power(ts, next + 1) {
                Ok((exponent, after)) => Ok(
                    (binary(BinaryOperator::Exponentiation, base, exponent), after),
                ),
                Err(e) => Err(e),
            }
        } else {
            Ok((base, next))
        },
        Err(e) => Err(e),
    }
}

/// The repetition `{ ("*" | "/") Power }` read at `pos`, with `left` the term
/// read so far: each further power becomes the right operand of a node whose
/// left operand is all that came before.
pub open spec fn term_rest(ts: Seq<Token>, pos: int, left: Node) -> Result<(Node, int), ParseError>
    decreases ts.len() - pos, 2nat,
{
    match multiplicative(token_at(ts, pos)) {
        Some(op) => match power(ts, pos + 1) {
            Ok((right, next)) => if pos < next <= ts.len() {
                term_rest(ts, next, binary(op, left, right))
            } else {
                Ok((left, pos))
            },
            Err(e) => Err(e),
        },
        None => Ok((left, pos)),
    }
}

/// The rule `Term := Power { ("*" | "/") Power }` read at `pos`.
pub open spec fn term(ts: Seq<Token>, pos: int) -> Result<(Node, int), ParseError>
    decreases ts.len() - pos, 3nat,
{
    match power(ts, pos) {
        Ok((first, next)) => if pos < next <= ts.len() {
            term_rest(ts, next, first)
        } else {
            Ok((first, next))
        },
        Err(e) => Err(e),
    }
}

/// The repetition `{ ("+" | "-") Term }` read at `pos`, with `left` the
/// expression read so far.
pub open spec fn expr_rest(ts: Seq<Token>, pos: int, left: Node) -> Result<(Node, int), ParseError>
    decreases ts.len() - pos, 4nat,
{
    match additive(token_at(ts, pos)) {
        Some(op) => match term(ts, pos + 1) {
            Ok((right, next)) => if pos < next <= ts.len() {
                expr_rest(ts, next, binary(op, left, right))
            } else {
                Ok((left, pos))
            },
            Err(e) => Err(e),
        },
        None => Ok((left, pos)),
    }
}

/// The rule `Expr := Term { ("+" | "-") Term }` read at `pos`.
pub open spec fn expr(ts: Seq<Token>, pos: int) -> Result<(Node, int), ParseError>
    decreases ts.len() - pos, 5nat,
{
    match term(ts, pos) {
        Ok((first, next)) => if pos < next <= ts.len() {
            expr_rest(ts, next, first)
        } else {
            Ok((first, next))
        },
        Err(e) => Err(e),
    }
}

/// The tree of a whole token sequence: an expression from the first token
/// on, with the end token right behind it.
pub open spec fn tree_of(ts: Seq<Token>) -> Result<Node, ParseError> {
    match expr(ts, 0) {
        Ok((tree, next)) => match expected_at(Token::End, ts, next) {
            Ok(_) => Ok(tree),
            Err(found) => Err(ParseError::ExpectedEnd(found)),
        },
        Err(e) => Err(e),
    }
}

/// Whether what a parsing function returned is what its rule gives.
pub open spec fn agrees(
    r: Result<(Node, usize), ParseError>,
    rule: Result<(Node, int), ParseError>,
) -> bool {
    match rule {
        Ok((tree, next)) => r matches Ok((t, p)) && t == tree && p == next,
        Err(e) => r == Err::<(Node, usize), ParseError>(e),
    }
}

/// A rule that succeeds at a position within the tokens reads at least one
/// token and none beyond the last.
pub proof fn lemma_rules_advance(ts: Seq<Token>, pos: int)
    ensures
        unary(ts, pos) matches Ok((_, next)) ==> pos < next <= ts.len(),
        power(ts, pos) matches Ok((_, next)) ==> pos < next <= ts.len(),
        term(ts, pos) matches Ok((_, next)) ==> pos < next <= ts.len(),
        expr(ts, pos) matches Ok((_, next)) ==> pos < next <= ts.len(),
    decreases ts.len() - pos, 1nat,
{
    if 0 <= pos < ts.len() {
        match ts[pos] {
            Token::Dash => {
                lemma_rules_advance(ts, pos + 1);
            },
            Token::LeftParenthese => {
                lemma_rules_advance(ts, pos + 1);
            },
            _ => {},
        }
        if let Ok((_, next)) = unary(ts, pos) {
            if token_at(ts, next) == Some(Token::Caret) {
                lemma_rules_advance(ts, next + 1);
            }
        }
        if let Ok((first, next)) = power(ts, pos) {
            lemma_rest_advances(ts, next, first);
        }
        if let Ok((first, next)) = term(ts, pos) {
            lemma_rest_advances(ts, next, first);
        }
    }
}

/// A repetition that succeeds from a position within the tokens ends at or
/// after that position and within the tokens.
pub proof fn lemma_rest_advances(ts: Seq<Token>, pos: int, left: Node)
    requires
        0 <= pos <= ts.len(),
    ensures
        term_rest(ts, pos, left) matches Ok((_, next)) ==> pos <= next <= ts.len(),
        expr_rest(ts, pos, left) matches Ok((_, next)) ==> pos <= next <= ts.len(),
    decreases ts.len() - pos, 0nat,
{
    if let Some(op) = multiplicative(token_at(ts, pos)) {
        lemma_rules_advance(ts, pos + 1);
        if let Ok((right, next)) = power(ts, pos + 1) {
            lemma_rest_advances(ts, next, binary(op, left, right));
        }
    }
    if let Some(op) = additive(token_at(ts, pos)) {
        lemma_rules_advance(ts, pos + 1);
        if let Ok((right, next)) = term(ts, pos + 1) {
            lemma_rest_advances(ts, next, binary(op, left, right));
        }
    }
}

/// The token at `pos`, if there is one.
fn peek(tokens: &[Token], pos: usize) -> (r: Option<Token>)
    ensures
        r == token_at(tokens@, pos as int),
{
    if pos < tokens.len() {
        Some(tokens[pos])
    } else {
        None
    }
}

/// Steps over the token at `pos` if it is the one expected; otherwise hands
/// back what stands there.
pub fn expect(expected: Token, tokens: &[Token], pos: usize) -> (r: Result<usize, Option<Token>>)
    ensures
        match expected_at(expected, tokens@, pos as int) {
            Ok(next) => r matches Ok(p) && p == next,
            Err(found) => r == Err::<usize, Option<Token>>(found),
        },
{
    if pos < tokens.len() {
        let token = tokens[pos];
        if token == expected {
            Ok(pos + 1)
        } else {
            Err(Some(token))
        }
    } else {
        Err(None)
    }
}

/// Reads an expression at `pos`: a term, then further terms joined to what
/// came before by `+` or `-`.
pub fn parse_e(tokens: &[Token], pos: usize) -> (r: Result<(Node, usize), ParseError>)
    ensures
        agrees(r, expr(tokens@, pos as int)),
        r matches Ok((_, next)) ==> pos < next <= tokens.len(),
    decreases tokens.len() - pos, 5nat,
{
    let (mut node, mut next) = match parse_t(tokens, pos) {
        Ok(read) => read,
        Err(e) => {
            return Err(e);
        },
    };
    loop
        invariant_except_break
            expr(tokens@, pos as int) == expr_rest(tokens@, next as int, node),
        invariant
            pos < next <= tokens.len(),
        ensures
            expr(tokens@, pos as int) == Ok::<(Node, int), ParseError>((node, next as int)),
        decreases tokens.len() - next,
    {
        let op = match peek(tokens, next) {
            Some(Token::Plus) => BinaryOperator::Addition,
            Some(Token::Dash) => BinaryOperator::Subtraction,
            _ => {
                break;
            },
        };
        let (right, after) = match parse_t(tokens, next + 1) {
            Ok(read) => read,
            Err(e) => {
                return Err(e);
            },
        };
        node = Node::Binary(op, Box::new(node), Box::new(right));
        next = after;
    }
    Ok((node, next))
}

/// Reads a term at `pos`: a power, then further powers joined to what came
/// before by `*` or `/`.
pub fn parse_t(tokens: &[Token], pos: usize) -> (r: Result<(Node, usize), ParseError>)
    ensures
        agrees(r, term(tokens@, pos as int)),
        r matches Ok((_, next)) ==> pos < next <= tokens.len(),
    decreases tokens.len() - pos, 3nat,
{
    let (mut node, mut next) = match parse_f(tokens, pos) {
        Ok(read) => read,
        Err(e) => {
            return Err(e);
        },
    };
    loop
        invariant_except_break
            term(tokens@, pos as int) == term_rest(tokens@, next as int, node),
        invariant
            pos < next <= tokens.len(),
        ensures
            term(tokens@, pos as int) == Ok::<(Node, int), ParseError>((node, next as int)),
        decreases tokens.len() - next,
    {
        let op = match peek(tokens, next) {
            Some(Token::Asterisk) => BinaryOperator::Multiplication,
            Some(Token::Slash) => BinaryOperator::Division,
            _ => {
                break;
            },
        };
        let (right, after) = match parse_f(tokens, next + 1) {
            Ok(read) => read,
            Err(e) => {
                return Err(e);
            },
        };
        node = Node::Binary(op, Box::new(node), Box::new(right));
        next = after;
    }
    Ok((node, next))
}

/// Reads a power at `pos`: a unary expression and, behind a `^`, the power
/// that is its exponent.
pub fn parse_f(tokens: &[Token], pos: usize) -> (r: Result<(Node, usize), ParseError>)
    ensures
        agrees(r, power(tokens@, pos as int)),
        r matches Ok((_, next)) ==> pos < next <= tokens.len(),
    decreases tokens.len() - pos, 1nat,
{
    let (node, next) = match parse_p(tokens, pos) {
        Ok(read) => read,
        Err(e) => {
            return Err(e);
        },
    };
    if let Some(Token::Caret) = peek(tokens, next) {
        let (exponent, after) = match parse_f(tokens, next + 1) {
            Ok(read) => read,
            Err(e) => {
                return Err(e);
            },
        };
        Ok((Node::Binary(BinaryOperator::Exponentiation, Box::new(node), Box::new(exponent)), after))
    } else {
        Ok((node, next))
    }
}

/// Reads a unary expression at `pos`: a number, a negated unary expression,
/// or an expression between parentheses.
pub fn parse_p(tokens: &[Token], pos: usize) -> (r: Result<(Node, usize), ParseError>)
    ensures
        agrees(r, unary(tokens@, pos as int)),
        r matches Ok((_, next)) ==> pos < next <= tokens.len(),
    decreases tokens.len() - pos, 0nat,
{
    match peek(tokens, pos) {
        Some(Token::Number(n)) => Ok((Node::Single(n), pos + 1)),
        Some(Token::Dash) => {
            let (node, next) = match parse_p(tokens, pos + 1) {
                Ok(read) => read,
                Err(e) => {
                    return Err(e);
                },
            };
            Ok((Node::Unary(UnaryOperator::Negative, Box::new(node)), next))
        },
        Some(Token::LeftParenthese) => {
            let (node, next) = match parse_e(tokens, pos + 1) {
                Ok(read) => read,
                Err(e) => {
                    return Err(e);
                },
            };
            match expect(Token::RightParenthese, tokens, next) {
                Ok(after) => Ok((node, after)),
                Err(found) => Err(ParseError::ExpectedCloseParen(found)),
            }
        },
        found => Err(ParseError::ExpectedPrimary(found)),
    }
}

/// Builds the tree of a token sequence: one expression from the first token
/// on, followed by the end token.
///
/// The result is what the rules give. Said without the rules: the tree is
/// returned of which the tokens in front of an end token are an expression,
/// if there is one; if not, the error returned names the token at which the
/// tokens stop being one, and says what was needed there.
pub fn parser(tokens: &[Token]) -> (r: Result<Node, ParseError>)
    ensures
        r == tree_of(tokens@),
        forall|n: Node| r == Ok::<Node, ParseError>(n) <==> #[trigger] is_tree_of(n, tokens@),
        r matches Err(e) ==> explains(e, tokens@),
{
    proof {
        lemma_errors_are_explained(tokens@);
        assert forall|n: Node| tree_of(tokens@) == Ok::<Node, ParseError>(n) <==> #[trigger]
            is_tree_of(n, tokens@) by {
            theorem_parser_finds_the_tree(tokens@, n);
        }
    }
    let (node, next) = match parse_e(tokens, 0) {
        Ok(read) => read,
        Err(e) => {
            return Err(e);
        },
    };
    match expect(Token::End, tokens, next) {
        Ok(_) => Ok(node),
        Err(found) => Err(ParseError::ExpectedEnd(found)),
    }
}

/// Builds the tree of a token sequence, or says in words what was needed and
/// what was found instead.
pub fn parse(tokens: &[Token]) -> (r: Result<Node, String>)
    ensures
        match tree_of(tokens@) {
            Ok(tree) => r == Ok::<Node, String>(tree),
            Err(e) => r is Err && r->Err_0@ == e.text(),
        },
        forall|n: Node| r == Ok::<Node, String>(n) <==> #[trigger] is_tree_of(n, tokens@),
        r matches Err(message) ==> exists|e: ParseError| #[trigger]
            explains(e, tokens@) && message@ == e.text(),
{
    match parser(tokens) {
        Ok(node) => Ok(node),
        Err(e) => Err(e.to_string()),
    }
}

} // verus!
