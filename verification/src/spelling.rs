//! What it means for a text to spell a sequence of tokens, said without
//! reference to how the text is scanned, and the proof that the tokenizer
//! finds exactly the tokens that a text spells.
//!
//! A text spells no tokens if it is blank. It spells a token and further
//! tokens if it is a blank stretch, a way to write the first token, and a
//! text that spells the others. A number is written by a whole run of digits:
//! no digit follows the way it is written.

use vstd::prelude::*;
use crate::lexer::{
    TokenizeError, decimal_value, digits_end, is_digit, is_whitespace, lemma_digits_end_bounds,
    lemma_digits_end_reached, saturated, tokens_from, tokens_of,
};
use crate::token::Token;

verus! {

/// Every character of `s` is whitespace.
pub open spec fn is_blank(s: Seq<char>) -> bool {
    forall|i: int| 0 <= i < s.len() ==> is_whitespace(#[trigger] s[i])
}

/// The characters `x` are a way to write the token `t`: a run of digits
/// for a number, which keeps what the run writes, or the largest number
/// where that is beyond it; the one symbol of any other token. Nothing
/// writes the end token.
pub open spec fn writes(x: Seq<char>, t: Token) -> bool {
    match t {
        Token::Number(v) => {
            &&& x.len() > 0
            &&& forall|i: int| 0 <= i < x.len() ==> is_digit(#[trigger] x[i])
            &&& v == saturated(decimal_value(x))
        },
        Token::End => false,
        _ => x.len() == 1 && Token::symbol(x[0]) == Some(t),
    }
}

/// Positions `i` and `j` bound a stretch of `s` that is not empty.
pub open spec fn is_stretch(s: Seq<char>, i: int, j: int) -> bool {
    0 <= i < j <= s.len()
}

/// `s` spells `ts`, and the first of them between the positions `i` and `j`.
pub open spec fn spells_first_at(s: Seq<char>, ts: Seq<Token>, i: int, j: int) -> bool
    decreases ts.len(), 0nat,
{
    &&& ts.len() > 0
    &&& is_stretch(s, i, j)
    &&& is_blank(s.take(i))
    &&& writes(s.subrange(i, j), ts[0])
    &&& ts[0] is Number && j < s.len() ==> !is_digit(s[j])
    &&& spells(s.skip(j), ts.drop_first())
}

/// The text `s` spells the tokens `ts`.
pub open spec fn spells(s: Seq<char>, ts: Seq<Token>) -> bool
    decreases ts.len(), 1nat,
{
    if ts.len() == 0 {
        is_blank(s)
    } else {
        exists|i: int, j: int| #[trigger] is_stretch(s, i, j) && spells_first_at(s, ts, i, j)
    }
}

/// Whitespace in front of a text does not change what the text spells.
proof fn lemma_whitespace_in_front(s: Seq<char>, ts: Seq<Token>)
    requires
        s.len() > 0,
        is_whitespace(s[0]),
        spells(s.drop_first(), ts),
    ensures
        spells(s, ts),
{
    let rest = s.drop_first();
    if ts.len() == 0 {
        assert forall|i: int| 0 <= i < s.len() implies is_whitespace(#[trigger] s[i]) by {
            if i > 0 {
                assert(s[i] == rest[i - 1]);
            }
        }
    } else {
        let (i, j) = choose|i: int, j: int| #[trigger]
            is_stretch(rest, i, j) && spells_first_at(rest, ts, i, j);
        assert forall|k: int| 0 <= k < s.take(i + 1).len() implies is_whitespace(
            #[trigger] s.take(i + 1)[k],
        ) by {
            if k > 0 {
                assert(s.take(i + 1)[k] == rest.take(i)[k - 1]);
            }
        }
        assert(s.subrange(i + 1, j + 1) =~= rest.subrange(i, j));
        assert(s.skip(j + 1) =~= rest.skip(j));
        assert(spells_first_at(s, ts, i + 1, j + 1));
    }
}

/// The tokens that the scan finds from `p` on are spelled by the text from
/// `p` on.
proof fn lemma_scan_sound(s: Seq<char>, p: int)
    requires
        0 <= p <= s.len(),
    ensures
        tokens_from(s, p) matches Ok(tokens) ==> tokens.len() > 0 && spells(
            s.skip(p),
            tokens.drop_last(),
        ),
    decreases s.len() - p,
{
    let here = s.skip(p);
    if p < s.len() {
        if let Ok(tokens) = tokens_from(s, p) {
            if is_whitespace(s[p]) {
                lemma_scan_sound(s, p + 1);
                assert(here.drop_first() =~= s.skip(p + 1));
                lemma_whitespace_in_front(here, tokens.drop_last());
            } else {
                lemma_digits_end_bounds(s, p + 1);
                let q = if is_digit(s[p]) {
                    digits_end(s, p)
                } else {
                    p + 1
                };
                lemma_scan_sound(s, q);
                let rest = tokens_from(s, q)->Ok_0;
                let ts = tokens.drop_last();
                assert(ts.drop_first() =~= rest.drop_last());
                assert(here.skip(q - p) =~= s.skip(q));
                assert(here.subrange(0, q - p) =~= s.subrange(p, q));
                assert(spells_first_at(here, ts, 0, q - p));
            }
        }
    }
}

/// The scan passes over a blank stretch.
proof fn lemma_blank_is_skipped(s: Seq<char>, p: int, q: int)
    requires
        0 <= p <= q <= s.len(),
        forall|k: int| p <= k < q ==> is_whitespace(#[trigger] s[k]),
    ensures
        tokens_from(s, p) == tokens_from(s, q),
    decreases q - p,
{
    if p < q {
        lemma_blank_is_skipped(s, p + 1, q);
    }
}

/// The scan from `p` on finds the tokens that the text from `p` on spells.
proof fn lemma_scan_complete(s: Seq<char>, p: int, ts: Seq<Token>)
    requires
        0 <= p <= s.len(),
        spells(s.skip(p), ts),
    ensures
        tokens_from(s, p) == Ok::<Seq<Token>, TokenizeError>(ts.push(Token::End)),
    decreases ts.len(),
{
    let here = s.skip(p);
    if ts.len() == 0 {
        assert forall|k: int| p <= k < s.len() implies is_whitespace(#[trigger] s[k]) by {
            assert(s[k] == here[k - p]);
        }
        lemma_blank_is_skipped(s, p, s.len() as int);
        assert(ts.push(Token::End) =~= seq![Token::End]);
    } else {
        let (i, j) = choose|i: int, j: int| #[trigger]
            is_stretch(here, i, j) && spells_first_at(here, ts, i, j);
        assert forall|k: int| p <= k < p + i implies is_whitespace(#[trigger] s[k]) by {
            assert(s[k] == here.take(i)[k - p]);
        }
        lemma_blank_is_skipped(s, p, p + i);
        let written = here.subrange(i, j);
        assert(written =~= s.subrange(p + i, p + j));
        assert(here.skip(j) =~= s.skip(p + j));
        lemma_scan_complete(s, p + j, ts.drop_first());
        if ts[0] is Number {
            assert forall|k: int| p + i <= k < p + j implies is_digit(#[trigger] s[k]) by {
                assert(s[k] == written[k - (p + i)]);
            }
            lemma_digits_end_reached(s, p + i, p + j);
        }
        assert(seq![ts[0]] + ts.drop_first().push(Token::End) =~= ts.push(Token::End));
    }
}

/// The tokenizer finds exactly the tokens that the text spells: a text has
/// the tokens `ts` and the end token behind them if and only if it spells
/// `ts`. With `lemma_tokens_end_once`, this names the tokens of every text
/// that has tokens.
pub proof fn theorem_tokenizer_finds_the_tokens(s: Seq<char>, ts: Seq<Token>)
    ensures
        tokens_of(s) == Ok::<Seq<Token>, TokenizeError>(ts.push(Token::End)) <==> spells(s, ts),
{
    assert(s.skip(0) =~= s);
    if spells(s, ts) {
        lemma_scan_complete(s, 0, ts);
    }
    if tokens_of(s) == Ok::<Seq<Token>, TokenizeError>(ts.push(Token::End)) {
        lemma_scan_sound(s, 0);
        assert(ts.push(Token::End).drop_last() =~= ts);
    }
}

} // verus!
