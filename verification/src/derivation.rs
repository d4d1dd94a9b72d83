//! What it means for a run of tokens to be an expression with a given tree,
//! said without reference to how the tokens are read, and the proof that the
//! parser finds exactly these trees.
//!
//! A run of tokens is
//!
//! * a unary expression if it is one number; or an expression between a pair
//!   of parentheses; or a minus sign in front of a unary expression;
//! * a power if it is a unary expression; or a unary expression, `^`, and a
//!   power: the tree has the whole power behind `^` as its right operand;
//! * a term if it is a power; or a term, `*` or `/`, and a power: the tree
//!   has the whole term in front of the sign as its left operand;
//! * an expression if it is a term; or an expression, `+` or `-`, and a term.

use vstd::prelude::*;
use crate::ast::{BinaryOperator, Node, UnaryOperator};
use crate::grammar::{
    ParseError, additive, binary, expr, expr_rest, lemma_rest_advances, lemma_rules_advance,
    multiplicative, power, term, term_rest, token_at, tree_of, unary,
};
use crate::token::Token;

verus! {

/// `ts` is a unary expression with tree `n`.
pub open spec fn is_unary(ts: Seq<Token>, n: Node) -> bool
    decreases ts.len(), 0nat,
{
    ||| {
        &&& ts.len() == 1
        &&& ts[0] matches Token::Number(v)
        &&& n == Node::Single(v)
    }
    ||| {
        &&& ts.len() >= 2
        &&& ts[0] == Token::LeftParenthese
        &&& ts.last() == Token::RightParenthese
        &&& is_expr(ts.subrange(1, ts.len() - 1), n)
    }
    ||| {
        &&& ts.len() >= 1
        &&& ts[0] == Token::Dash
        &&& n matches Node::Unary(UnaryOperator::Negative, operand)
        &&& is_unary(ts.drop_first(), *operand)
    }
}

/// `ts` is a unary expression, `^` at position `k`, and a power; `n` joins
/// their trees.
pub open spec fn is_power_at(ts: Seq<Token>, n: Node, k: int) -> bool
    decreases ts.len(), 1nat,
{
    &&& 0 <= k < ts.len()
    &&& ts[k] == Token::Caret
    &&& n matches Node::Binary(BinaryOperator::Exponentiation, left, right)
    &&& is_unary(ts.take(k), *left)
    &&& is_power(ts.skip(k + 1), *right)
}

/// `ts` is a power with tree `n`.
pub open spec fn is_power(ts: Seq<Token>, n: Node) -> bool
    decreases ts.len(), 2nat,
{
    is_unary(ts, n) || exists|k: int| #[trigger] token_at(ts, k) is Some && is_power_at(ts, n, k)
}

/// `ts` is a term, `*` or `/` at position `k`, and a power; `n` joins their
/// trees by the operator of that sign.
pub open spec fn is_term_at(ts: Seq<Token>, n: Node, k: int) -> bool
    decreases ts.len(), 3nat,
{
    &&& 0 <= k < ts.len()
    &&& n matches Node::Binary(op, left, right)
    &&& multiplicative(Some(ts[k])) == Some(op)
    &&& is_term(ts.take(k), *left)
    &&& is_power(ts.skip(k + 1), *right)
}

/// `ts` is a term with tree `n`.
pub open spec fn is_term(ts: Seq<Token>, n: Node) -> bool
    decreases ts.len(), 4nat,
{
    is_power(ts, n) || exists|k: int| #[trigger] token_at(ts, k) is Some && is_term_at(ts, n, k)
}

/// `ts` is an expression, `+` or `-` at position `k`, and a term; `n` joins
/// their trees by the operator of that sign.
pub open spec fn is_expr_at(ts: Seq<Token>, n: Node, k: int) -> bool
    decreases ts.len(), 5nat,
{
    &&& 0 <= k < ts.len()
    &&& n matches Node::Binary(op, left, right)
    &&& additive(Some(ts[k])) == Some(op)
    &&& is_expr(ts.take(k), *left)
    &&& is_term(ts.skip(k + 1), *right)
}

/// `ts` is an expression with tree `n`.
pub open spec fn is_expr(ts: Seq<Token>, n: Node) -> bool
    decreases ts.len(), 6nat,
{
    is_term(ts, n) || exists|k: int| #[trigger] token_at(ts, k) is Some && is_expr_at(ts, n, k)
}

/// The tree that the rule `Unary` builds is the tree of the tokens it read,
/// as a unary expression.
pub proof fn lemma_unary_sound(ts: Seq<Token>, pos: int)
    ensures
        unary(ts, pos) matches Ok((n, next)) ==> pos <= next <= ts.len() && is_unary(
            ts.subrange(pos, next),
            n,
        ),
    decreases ts.len() - pos, 0nat,
{
    lemma_rules_advance(ts, pos);
    if let Ok((n, next)) = unary(ts, pos) {
        let read = ts.subrange(pos, next);
        match ts[pos] {
            Token::Dash => {
                lemma_unary_sound(ts, pos + 1);
                assert(read.drop_first() =~= ts.subrange(pos + 1, next));
            },
            Token::LeftParenthese => {
                lemma_expr_sound(ts, pos + 1);
                assert(read.subrange(1, read.len() - 1) =~= ts.subrange(pos + 1, next - 1));
            },
            _ => {},
        }
    }
}

/// The tree that the rule `Power` builds is the tree of the tokens it read,
/// as a power.
pub proof fn lemma_power_sound(ts: Seq<Token>, pos: int)
    ensures
        power(ts, pos) matches Ok((n, next)) ==> pos <= next <= ts.len() && is_power(
            ts.subrange(pos, next),
            n,
        ),
    decreases ts.len() - pos, 1nat,
{
    lemma_rules_advance(ts, pos);
    lemma_unary_sound(ts, pos);
    if let Ok((n, after)) = power(ts, pos) {
        let (base, next) = unary(ts, pos)->Ok_0;
        if token_at(ts, next) == Some(Token::Caret) {
            lemma_power_sound(ts, next + 1);
            let read = ts.subrange(pos, after);
            assert(read.take(next - pos) =~= ts.subrange(pos, next));
            assert(read.skip(next - pos + 1) =~= ts.subrange(next + 1, after));
            assert(token_at(read, next - pos) is Some);
        }
    }
}

/// Where `left` is the tree of the tokens from `start` to `pos` as a term,
/// the tree that the repetition builds from `pos` on is the tree of the
/// tokens from `start` to where it stopped.
pub proof fn lemma_term_rest_sound(ts: Seq<Token>, start: int, pos: int, left: Node)
    requires
        0 <= start <= pos <= ts.len(),
        is_term(ts.subrange(start, pos), left),
    ensures
        term_rest(ts, pos, left) matches Ok((n, next)) ==> start <= next <= ts.len() && is_term(
            ts.subrange(start, next),
            n,
        ),
        term_rest(ts, pos, left) matches Ok((_, next)) ==> pos <= next,
    decreases ts.len() - pos, 2nat,
{
    lemma_rest_advances(ts, pos, left);
    if let Some(op) = multiplicative(token_at(ts, pos)) {
        lemma_rules_advance(ts, pos + 1);
        lemma_power_sound(ts, pos + 1);
        if let Ok((right, next)) = power(ts, pos + 1) {
            let joined = binary(op, left, right);
            let read = ts.subrange(start, next);
            assert(read.take(pos - start) =~= ts.subrange(start, pos));
            assert(read.skip(pos - start + 1) =~= ts.subrange(pos + 1, next));
            assert(token_at(read, pos - start) is Some);
            lemma_term_rest_sound(ts, start, next, joined);
        }
    }
}

/// The tree that the rule `Term` builds is the tree of the tokens it read,
/// as a term.
pub proof fn lemma_term_sound(ts: Seq<Token>, pos: int)
    ensures
        term(ts, pos) matches Ok((n, next)) ==> pos <= next <= ts.len() && is_term(
            ts.subrange(pos, next),
            n,
        ),
    decreases ts.len() - pos, 3nat,
{
    lemma_rules_advance(ts, pos);
    lemma_power_sound(ts, pos);
    if let Ok((first, next)) = power(ts, pos) {
        lemma_term_rest_sound(ts, pos, next, first);
    }
}

/// Where `left` is the tree of the tokens from `start` to `pos` as an
/// expression, the tree that the repetition builds from `pos` on is the tree
/// of the tokens from `start` to where it stopped.
pub proof fn lemma_expr_rest_sound(ts: Seq<Token>, start: int, pos: int, left: Node)
    requires
        0 <= start <= pos <= ts.len(),
        is_expr(ts.subrange(start, pos), left),
    ensures
        expr_rest(ts, pos, left) matches Ok((n, next)) ==> start <= next <= ts.len() && is_expr(
            ts.subrange(start, next),
            n,
        ),
        expr_rest(ts, pos, left) matches Ok((_, next)) ==> pos <= next,
    decreases ts.len() - pos, 4nat,
{
    lemma_rest_advances(ts, pos, left);
    if let Some(op) = additive(token_at(ts, pos)) {
        lemma_rules_advance(ts, pos + 1);
        lemma_term_sound(ts, pos + 1);
        if let Ok((right, next)) = term(ts, pos + 1) {
            let joined = binary(op, left, right);
            let read = ts.subrange(start, next);
            assert(read.take(pos - start) =~= ts.subrange(start, pos));
            assert(read.skip(pos - start + 1) =~= ts.subrange(pos + 1, next));
            assert(token_at(read, pos - start) is Some);
            lemma_expr_rest_sound(ts, start, next, joined);
        }
    }
}

/// The tree that the rule `Expr` builds is the tree of the tokens it read,
/// as an expression.
pub proof fn lemma_expr_sound(ts: Seq<Token>, pos: int)
    ensures
        expr(ts, pos) matches Ok((n, next)) ==> pos <= next <= ts.len() && is_expr(
            ts.subrange(pos, next),
            n,
        ),
    decreases ts.len() - pos, 5nat,
{
    lemma_rules_advance(ts, pos);
    lemma_term_sound(ts, pos);
    if let Ok((first, next)) = term(ts, pos) {
        lemma_expr_rest_sound(ts, pos, next, first);
    }
}

/// The tokens `a` stand in `ts` from position `pos` on.
pub open spec fn stands_at(a: Seq<Token>, ts: Seq<Token>, pos: int) -> bool {
    &&& 0 <= pos
    &&& pos + a.len() <= ts.len()
    &&& forall|i: int| 0 <= i < a.len() ==> #[trigger] a[i] == ts[pos + i]
}

/// Wherever a unary expression stands, the rule `Unary` reads all of it and
/// builds its tree.
pub proof fn lemma_unary_complete(a: Seq<Token>, n: Node, ts: Seq<Token>, pos: int)
    requires
        is_unary(a, n),
        stands_at(a, ts, pos),
    ensures
        unary(ts, pos) == Ok::<(Node, int), ParseError>((n, pos + a.len())),
    decreases a.len(), 0nat,
{
    match a[0] {
        Token::LeftParenthese => {
            let inner = a.subrange(1, a.len() - 1);
            lemma_expr_complete(inner, n, ts, pos + 1);
        },
        Token::Dash => {
            let rest = a.drop_first();
            lemma_unary_complete(rest, *n->Unary_1, ts, pos + 1);
        },
        _ => {},
    }
}

/// Wherever a power stands with no `^` behind it, the rule `Power` reads all
/// of it and builds its tree.
pub proof fn lemma_power_complete(a: Seq<Token>, n: Node, ts: Seq<Token>, pos: int)
    requires
        is_power(a, n),
        stands_at(a, ts, pos),
        token_at(ts, pos + a.len()) != Some(Token::Caret),
    ensures
        power(ts, pos) == Ok::<(Node, int), ParseError>((n, pos + a.len())),
    decreases a.len(), 2nat,
{
    if is_unary(a, n) {
        lemma_unary_complete(a, n, ts, pos);
    } else {
        let k = choose|k: int| #[trigger] token_at(a, k) is Some && is_power_at(a, n, k);
        let base = a.take(k);
        let exponent = a.skip(k + 1);
        lemma_unary_complete(base, *n->Binary_1, ts, pos);
        lemma_power_complete(exponent, *n->Binary_2, ts, pos + k + 1);
    }
}

/// Wherever a term stands with no `^` behind it, the rule `Term` reads all of
/// it, builds its tree, and goes on from there with the repetition.
pub proof fn lemma_term_complete(a: Seq<Token>, n: Node, ts: Seq<Token>, pos: int)
    requires
        is_term(a, n),
        stands_at(a, ts, pos),
        token_at(ts, pos + a.len()) != Some(Token::Caret),
    ensures
        a.len() > 0,
        term(ts, pos) == term_rest(ts, pos + a.len(), n),
    decreases a.len(), 4nat,
{
    if is_power(a, n) {
        lemma_power_complete(a, n, ts, pos);
        lemma_rules_advance(ts, pos);
    } else {
        let k = choose|k: int| #[trigger] token_at(a, k) is Some && is_term_at(a, n, k);
        let front = a.take(k);
        let back = a.skip(k + 1);
        lemma_term_complete(front, *n->Binary_1, ts, pos);
        lemma_power_complete(back, *n->Binary_2, ts, pos + k + 1);
        lemma_rules_advance(ts, pos + k + 1);
    }
}

/// Wherever an expression stands with none of `^`, `*` and `/` behind it,
/// the rule `Expr` reads all of it, builds its tree, and goes on from there
/// with the repetition.
pub proof fn lemma_expr_complete(a: Seq<Token>, n: Node, ts: Seq<Token>, pos: int)
    requires
        is_expr(a, n),
        stands_at(a, ts, pos),
        token_at(ts, pos + a.len()) != Some(Token::Caret),
        multiplicative(token_at(ts, pos + a.len())) is None,
    ensures
        a.len() > 0,
        expr(ts, pos) == expr_rest(ts, pos + a.len(), n),
    decreases a.len(), 6nat,
{
    if is_term(a, n) {
        lemma_term_complete(a, n, ts, pos);
    } else {
        let k = choose|k: int| #[trigger] token_at(a, k) is Some && is_expr_at(a, n, k);
        let front = a.take(k);
        let back = a.skip(k + 1);
        lemma_expr_complete(front, *n->Binary_1, ts, pos);
        lemma_term_complete(back, *n->Binary_2, ts, pos + k + 1);
    }
}

/// The tokens in front of an end token of `ts` are an expression with the
/// tree `n`.
pub open spec fn is_tree_of(n: Node, ts: Seq<Token>) -> bool {
    exists|k: int| #[trigger] token_at(ts, k) == Some(Token::End) && is_expr(ts.take(k), n)
}

/// The parser accepts exactly the expressions, and gives each its tree: the
/// tokens have the tree `n` if and only if the tokens in front of some end
/// token are an expression with the tree `n`.
pub proof fn theorem_parser_finds_the_tree(ts: Seq<Token>, n: Node)
    ensures
        tree_of(ts) == Ok::<Node, ParseError>(n) <==> is_tree_of(n, ts),
{
    if tree_of(ts) == Ok::<Node, ParseError>(n) {
        lemma_expr_sound(ts, 0);
    }
    if is_tree_of(n, ts) {
        let k = choose|k: int| #[trigger] token_at(ts, k) == Some(Token::End) && is_expr(
            ts.take(k),
            n,
        );
        lemma_expr_complete(ts.take(k), n, ts, 0);
    }
}

/// No run of tokens is an expression in two ways: its tree is unique.
pub proof fn lemma_tree_is_unique(a: Seq<Token>, n1: Node, n2: Node)
    requires
        is_expr(a, n1),
        is_expr(a, n2),
    ensures
        n1 == n2,
{
    let ts = a.push(Token::End);
    lemma_expr_complete(a, n1, ts, 0);
    lemma_expr_complete(a, n2, ts, 0);
}

/// `ts` is an expression, whatever its tree.
pub open spec fn is_expression(ts: Seq<Token>) -> bool {
    exists|n: Node| is_expr(ts, n)
}

/// A token with which a unary expression can start.
pub open spec fn starts_unary(token: Option<Token>) -> bool {
    token matches Some(t) && (t is Number || t == Token::Dash || t == Token::LeftParenthese)
}

/// Position `k` is one at which a unary expression has to start: the first,
/// or one behind an operator sign or an opening parenthese.
pub open spec fn unary_needed_at(ts: Seq<Token>, k: int) -> bool {
    &&& 0 <= k <= ts.len()
    &&& k > 0 ==> ts[k - 1] == Token::LeftParenthese || ts[k - 1] == Token::Dash || ts[k - 1]
        == Token::Plus || ts[k - 1] == Token::Asterisk || ts[k - 1] == Token::Slash || ts[k - 1]
        == Token::Caret
}

/// An opening parenthese stands at `j`, and the tokens between it and `k`
/// are an expression.
pub open spec fn opened_at(ts: Seq<Token>, j: int, k: int) -> bool {
    &&& 0 <= j < k <= ts.len()
    &&& ts[j] == Token::LeftParenthese
    &&& is_expression(ts.subrange(j + 1, k))
}

/// What an error says of the tokens it was raised on. The token it carries
/// stands at some position `k`, or is `None` for the position behind the last
/// token, and is not what was needed there. At `k`
///
/// * a unary expression had to start, for `ExpectedPrimary`;
/// * an expression that follows an opening parenthese ends, for
///   `ExpectedCloseParen`;
/// * an expression that starts with the first token ends, for `ExpectedEnd`.
pub open spec fn explains(e: ParseError, ts: Seq<Token>) -> bool {
    match e {
        ParseError::ExpectedPrimary(found) => !starts_unary(found) && exists|k: int|
            #[trigger] unary_needed_at(ts, k) && token_at(ts, k) == found,
        ParseError::ExpectedCloseParen(found) => found != Some(Token::RightParenthese)
            && exists|j: int, k: int| #[trigger] opened_at(ts, j, k) && token_at(ts, k) == found,
        ParseError::ExpectedEnd(found) => found != Some(Token::End) && exists|k: int|
            0 <= k <= ts.len() && #[trigger] is_expression(ts.take(k)) && token_at(ts, k)
                == found,
    }
}

/// An error of a rule that was asked for where a unary expression had to
/// start says what `explains` spells out.
proof fn lemma_rules_explain(ts: Seq<Token>, pos: int)
    requires
        unary_needed_at(ts, pos),
    ensures
        unary(ts, pos) matches Err(e) ==> explains(e, ts),
        power(ts, pos) matches Err(e) ==> explains(e, ts),
        term(ts, pos) matches Err(e) ==> explains(e, ts),
        expr(ts, pos) matches Err(e) ==> explains(e, ts),
    decreases ts.len() - pos, 1nat,
{
    lemma_rules_advance(ts, pos);
    if pos < ts.len() {
        match ts[pos] {
            Token::Dash => {
                lemma_rules_explain(ts, pos + 1);
            },
            Token::LeftParenthese => {
                lemma_rules_explain(ts, pos + 1);
                lemma_rules_advance(ts, pos + 1);
                lemma_expr_sound(ts, pos + 1);
                if let Ok((inner, next)) = expr(ts, pos + 1) {
                    assert(opened_at(ts, pos, next));
                }
            },
            _ => {},
        }
    }
    if let Ok((_, next)) = unary(ts, pos) {
        if token_at(ts, next) == Some(Token::Caret) {
            lemma_rules_explain(ts, next + 1);
        }
    }
    if let Ok((first, next)) = power(ts, pos) {
        lemma_rests_explain(ts, next, first);
    }
    if let Ok((first, next)) = term(ts, pos) {
        lemma_rests_explain(ts, next, first);
    }
}

/// An error of a repetition says what `explains` spells out.
proof fn lemma_rests_explain(ts: Seq<Token>, pos: int, left: Node)
    requires
        0 <= pos <= ts.len(),
    ensures
        term_rest(ts, pos, left) matches Err(e) ==> explains(e, ts),
        expr_rest(ts, pos, left) matches Err(e) ==> explains(e, ts),
    decreases ts.len() - pos, 0nat,
{
    if let Some(op) = multiplicative(token_at(ts, pos)) {
        lemma_rules_advance(ts, pos + 1);
        lemma_rules_explain(ts, pos + 1);
        if let Ok((right, next)) = power(ts, pos + 1) {
            lemma_rests_explain(ts, next, binary(op, left, right));
        }
    }
    if let Some(op) = additive(token_at(ts, pos)) {
        lemma_rules_advance(ts, pos + 1);
        lemma_rules_explain(ts, pos + 1);
        if let Ok((right, next)) = term(ts, pos + 1) {
            lemma_rests_explain(ts, next, binary(op, left, right));
        }
    }
}

/// Every error of the parser is raised at a position of the tokens, names
/// what stands there, and has its reason in the tokens in front of it.
pub proof fn lemma_errors_are_explained(ts: Seq<Token>)
    ensures
        tree_of(ts) matches Err(e) ==> explains(e, ts),
{
    lemma_rules_explain(ts, 0);
    lemma_rules_advance(ts, 0);
    lemma_expr_sound(ts, 0);
    if let Ok((n, next)) = expr(ts, 0) {
        assert(is_expression(ts.take(next)));
    }
}

} // verus!
