//! From text to tokens: whitespace is skipped, a maximal run of decimal digits
//! becomes one number, each symbol becomes its token, and any other character
//! stops the scan.
//!
//! A number token holds a `u64`. A run of digits that writes more than the
//! largest `u64` becomes the token of that largest number: the scan does not
//! fail on it.

use vstd::prelude::*;
use crate::spelling::{spells, theorem_tokenizer_finds_the_tokens};
use crate::text::{chars_of, decimal, digit_char};
use crate::token::Token;

verus! {

/// Why a text could not be turned into tokens.
#[derive(Debug, Clone, Copy, PartialEq, Eq, Structural)]
pub enum TokenizeError {
    /// The text holds a character that is neither whitespace, nor a decimal
    /// digit, nor one of the symbols.
    UnexpectedCharacter(char),
}

impl TokenizeError {
    /// The wording of the error.
    pub open spec fn text(self) -> Seq<char> {
        match self {
            TokenizeError::UnexpectedCharacter(c) => "Unexpected character: "@.push(c),
        }
    }

    /// The error in words, naming the offending character.
    pub fn to_string(&self) -> (s: String)
        ensures
            s@ == self.text(),
    {
        match self {
            TokenizeError::UnexpectedCharacter(c) => {
                let mut s = "Unexpected character: ".to_owned();
                s.push(*c);
                s
            },
        }
    }
}

/// The characters with the Unicode property White_Space.
pub open spec fn is_whitespace(c: char) -> bool {
    let u = c as u32;
    ||| 0x09 <= u <= 0x0D
    ||| u == 0x20
    ||| u == 0x85
    ||| u == 0xA0
    ||| u == 0x1680
    ||| 0x2000 <= u <= 0x200A
    ||| u == 0x2028
    ||| u == 0x2029
    ||| u == 0x202F
    ||| u == 0x205F
    ||| u == 0x3000
}

/// The ten decimal digits `0` to `9`.
pub open spec fn is_digit(c: char) -> bool {
    '0' <= c <= '9'
}

/// The characters a text may hold: whitespace, digits and symbols.
pub open spec fn in_alphabet(c: char) -> bool {
    is_whitespace(c) || is_digit(c) || Token::symbol(c) is Some
}

/// The number that a decimal digit stands for.
pub open spec fn digit_value(c: char) -> nat
    recommends
        is_digit(c),
{
    (c as u32 - '0' as u32) as nat
}

/// The number that a run of decimal digits writes, however long the run.
pub open spec fn decimal_value(digits: Seq<char>) -> nat
    decreases digits.len(),
{
    if digits.len() == 0 {
        0
    } else {
        decimal_value(digits.drop_last()) * 10 + digit_value(digits.last())
    }
}

/// Where the run of digits that starts at `i` ends: the first position from
/// `i` on that holds no digit, or the length of `s`.
pub open spec fn digits_end(s: Seq<char>, i: int) -> int
    decreases s.len() - i,
{
    if 0 <= i < s.len() && is_digit(s[i]) {
        digits_end(s, i + 1)
    } else {
        i
    }
}

/// The value a number token keeps for a run that writes `n`: `n` itself, or
/// the largest value a token can hold where `n` is beyond it.
pub open spec fn saturated(n: nat) -> u64 {
    if n > u64::MAX {
        u64::MAX
    } else {
        n as u64
    }
}

/// `first` in front of the tokens of the rest, unless the rest fails.
pub open spec fn followed_by(first: Token, rest: Result<Seq<Token>, TokenizeError>) -> Result<
    Seq<Token>,
    TokenizeError,
> {
    match rest {
        Ok(tokens) => Ok(seq![first] + tokens),
        Err(e) => Err(e),
    }
}

/// The tokens of `s` from position `i` on, closed by `End`; or the first
/// character from `i` on that is outside the alphabet.
pub open spec fn tokens_from(s: Seq<char>, i: int) -> Result<Seq<Token>, TokenizeError>
    decreases s.len() - i,
{
    if i < 0 || i >= s.len() {
        Ok(seq![Token::End])
    } else if is_whitespace(s[i]) {
        tokens_from(s, i + 1)
    } else if is_digit(s[i]) {
        let end = digits_end(s, i);
        proof {
            lemma_digits_end_bounds(s, i + 1);
        }
        followed_by(
            Token::Number(saturated(decimal_value(s.subrange(i, end)))),
            tokens_from(s, end),
        )
    } else {
        match Token::symbol(s[i]) {
            Some(token) => followed_by(token, tokens_from(s, i + 1)),
            None => Err(TokenizeError::UnexpectedCharacter(s[i])),
        }
    }
}

/// The tokens of a whole text.
pub open spec fn tokens_of(s: Seq<char>) -> Result<Seq<Token>, TokenizeError> {
    tokens_from(s, 0)
}

/// A token sequence that ends in the end token and holds no other.
pub open spec fn ends_once(tokens: Seq<Token>) -> bool {
    &&& tokens.len() > 0
    &&& tokens.last() == Token::End
    &&& forall|k: int| 0 <= k < tokens.len() - 1 ==> tokens[k] != Token::End
}

/// The character at `k` is outside the alphabet, and every character in
/// front of it, from `i` on, is inside.
pub open spec fn stops_at(s: Seq<char>, i: int, k: int) -> bool {
    &&& i <= k < s.len()
    &&& !in_alphabet(s[k])
    &&& forall|j: int| i <= j < k ==> in_alphabet(#[trigger] s[j])
}

/// A run of digits ends at or after its start and within the text, every
/// position in between holds a digit, and the position at its end does not.
pub proof fn lemma_digits_end_bounds(s: Seq<char>, i: int)
    requires
        0 <= i <= s.len(),
    ensures
        i <= digits_end(s, i) <= s.len(),
        forall|k: int| i <= k < digits_end(s, i) ==> is_digit(#[trigger] s[k]),
        digits_end(s, i) < s.len() ==> !is_digit(s[digits_end(s, i)]),
    decreases s.len() - i,
{
    if i < s.len() && is_digit(s[i]) {
        lemma_digits_end_bounds(s, i + 1);
    }
}

/// No character belongs to two of the classes: whitespace, digits, symbols.
pub proof fn lemma_classes_are_disjoint(c: char)
    ensures
        !(is_whitespace(c) && is_digit(c)),
        !(is_whitespace(c) && Token::symbol(c) is Some),
        !(is_digit(c) && Token::symbol(c) is Some),
{
}

/// The tokens from any position on end in the end token and hold no other.
proof fn lemma_tokens_from_end_once(s: Seq<char>, i: int)
    ensures
        tokens_from(s, i) matches Ok(tokens) ==> ends_once(tokens),
    decreases s.len() - i,
{
    if 0 <= i < s.len() {
        if is_whitespace(s[i]) {
            lemma_tokens_from_end_once(s, i + 1);
        } else if is_digit(s[i]) {
            lemma_digits_end_bounds(s, i + 1);
            lemma_tokens_from_end_once(s, digits_end(s, i));
        } else if Token::symbol(s[i]) is Some {
            lemma_tokens_from_end_once(s, i + 1);
        }
    }
}

/// The tokens of a text end in the end token and hold no other.
pub proof fn lemma_tokens_end_once(s: Seq<char>)
    ensures
        tokens_of(s) matches Ok(tokens) ==> ends_once(tokens),
{
    lemma_tokens_from_end_once(s, 0);
}

/// From any position on, the scan succeeds if all characters are in the
/// alphabet, and fails with the first that is not.
proof fn lemma_scan_from_stops_at_first_foreign(s: Seq<char>, i: int)
    requires
        0 <= i <= s.len(),
    ensures
        match tokens_from(s, i) {
            Ok(_) => forall|k: int| i <= k < s.len() ==> in_alphabet(#[trigger] s[k]),
            Err(e) => exists|k: int| #[trigger]
                stops_at(s, i, k) && e == TokenizeError::UnexpectedCharacter(s[k]),
        },
    decreases s.len() - i,
{
    if i < s.len() {
        let next = if is_digit(s[i]) && !is_whitespace(s[i]) {
            digits_end(s, i)
        } else {
            i + 1
        };
        lemma_digits_end_bounds(s, i + 1);
        lemma_digits_end_bounds(s, i);
        if in_alphabet(s[i]) {
            lemma_scan_from_stops_at_first_foreign(s, next);
            if let Err(e) = tokens_from(s, next) {
                let k = choose|k: int| #[trigger]
                    stops_at(s, next, k) && e == TokenizeError::UnexpectedCharacter(s[k]);
                assert(stops_at(s, i, k));
            }
        } else {
            assert(stops_at(s, i, i));
        }
    }
}

/// A text has tokens if each of its characters is whitespace, a digit or a
/// symbol, and only then; a text without tokens has as its error the first
/// of its characters that is none of these.
pub proof fn lemma_scan_stops_at_first_foreign(s: Seq<char>)
    ensures
        tokens_of(s) is Ok <==> forall|k: int| 0 <= k < s.len() ==> in_alphabet(#[trigger] s[k]),
        tokens_of(s) matches Err(e) ==> exists|k: int| #[trigger]
            stops_at(s, 0, k) && e == TokenizeError::UnexpectedCharacter(s[k]),
{
    lemma_scan_from_stops_at_first_foreign(s, 0);
}

/// Appending a digit to a run of digits multiplies what the run writes by
/// ten and adds the digit.
pub proof fn lemma_decimal_value_push(digits: Seq<char>, c: char)
    ensures
        decimal_value(digits.push(c)) == decimal_value(digits) * 10 + digit_value(c),
{
    assert(digits.push(c).drop_last() =~= digits);
}

/// The numeral of a number is made of digits and writes that number.
pub proof fn lemma_numeral_writes_number(n: nat)
    ensures
        decimal(n).len() > 0,
        forall|k: int| 0 <= k < decimal(n).len() ==> is_digit(#[trigger] decimal(n)[k]),
        decimal_value(decimal(n)) == n,
    decreases n,
{
    if n < 10 {
        lemma_decimal_value_push(Seq::empty(), digit_char(n));
    } else {
        lemma_numeral_writes_number(n / 10);
        lemma_decimal_value_push(decimal(n / 10), digit_char(n % 10));
    }
}

/// The numeral that names a number token is read back as that token.
pub proof fn lemma_numeral_reads_back(n: u64)
    ensures
        tokens_of(decimal(n as nat)) == Ok::<Seq<Token>, TokenizeError>(
            seq![Token::Number(n), Token::End],
        ),
{
    let s = decimal(n as nat);
    lemma_numeral_writes_number(n as nat);
    lemma_digits_end_reached(s, 0, s.len() as int);
    assert(s.subrange(0, s.len() as int) =~= s);
    assert(tokens_from(s, s.len() as int) == Ok::<Seq<Token>, TokenizeError>(seq![Token::End]));
    assert(seq![Token::Number(n)] + seq![Token::End] =~= seq![Token::Number(n), Token::End]);
}

/// A position that only digits separate from the start of a run, and that
/// holds no digit itself, is where the run ends.
pub proof fn lemma_digits_end_reached(s: Seq<char>, start: int, i: int)
    requires
        0 <= start <= i <= s.len(),
        forall|k: int| start <= k < i ==> is_digit(#[trigger] s[k]),
        i < s.len() ==> !is_digit(s[i]),
    ensures
        digits_end(s, start) == i,
    decreases i - start,
{
    if start < i {
        lemma_digits_end_reached(s, start + 1, i);
    }
}

/// Whether `c` is a whitespace character.
pub fn is_whitespace_char(c: char) -> (b: bool)
    ensures
        b == is_whitespace(c),
{
    let u: u32 = c as u32;
    (0x09 <= u && u <= 0x0D) || u == 0x20 || u == 0x85 || u == 0xA0 || u == 0x1680 || (0x2000 <= u
        && u <= 0x200A) || u == 0x2028 || u == 0x2029 || u == 0x202F || u == 0x205F || u == 0x3000
}

/// Whether `c` is a decimal digit.
pub fn is_digit_char(c: char) -> (b: bool)
    ensures
        b == is_digit(c),
{
    '0' <= c && c <= '9'
}

/// Reads the run of digits that starts at `start`: its value as a number
/// token keeps it, and the position at which the run ends.
fn read_number(chars: &Vec<char>, start: usize) -> (r: (u64, usize))
    requires
        start < chars.len(),
        is_digit(chars@[start as int]),
    ensures
        r.1 == digits_end(chars@, start as int),
        start < r.1 <= chars.len(),
        r.0 == saturated(decimal_value(chars@.subrange(start as int, r.1 as int))),
{
    let mut value: u64 = 0;
    let mut i: usize = start;
    while i < chars.len() && is_digit_char(chars[i])
        invariant
            start <= i <= chars.len(),
            forall|k: int| start <= k < i ==> is_digit(#[trigger] chars@[k]),
            value == saturated(decimal_value(chars@.subrange(start as int, i as int))),
        decreases chars.len() - i,
    {
        let digit: u64 = (chars[i] as u32 - '0' as u32) as u64;
        proof {
            let run = chars@.subrange(start as int, i + 1);
            assert(run.drop_last() =~= chars@.subrange(start as int, i as int));
        }
        value = match value.checked_mul(10) {
            Some(tens) => match tens.checked_add(digit) {
                Some(next) => next,
                None => u64::MAX,
            },
            None => u64::MAX,
        };
        i += 1;
    }
    proof {
        lemma_digits_end_reached(chars@, start as int, i as int);
    }
    (value, i)
}

/// Breaks a text into its tokens, closed by `End`. The scan fails at the
/// first character that is neither whitespace, nor a digit, nor a symbol.
///
/// The result is what the scan gives. Said without the scan: the tokens
/// returned are those that the text spells, and the end token behind them,
/// if all characters of the text are in the alphabet; if not, the error
/// returned names the first that is not.
pub fn tokenizer(input: &str) -> (r: Result<Vec<Token>, TokenizeError>)
    ensures
        match tokens_of(input@) {
            Ok(tokens) => r is Ok && r->Ok_0@ == tokens,
            Err(e) => r == Err::<Vec<Token>, TokenizeError>(e),
        },
        r matches Ok(tokens) ==> ends_once(tokens@) && spells(input@, tokens@.drop_last()),
        r is Ok <==> forall|k: int| 0 <= k < input@.len() ==> in_alphabet(#[trigger] input@[k]),
        r matches Err(e) ==> exists|k: int| #[trigger]
            stops_at(input@, 0, k) && e == TokenizeError::UnexpectedCharacter(input@[k]),
{
    proof {
        lemma_tokens_end_once(input@);
        lemma_scan_stops_at_first_foreign(input@);
        if let Ok(tokens) = tokens_of(input@) {
            assert(tokens.drop_last().push(Token::End) =~= tokens);
            theorem_tokenizer_finds_the_tokens(input@, tokens.drop_last());
        }
    }
    let chars = chars_of(input);
    let mut tokens: Vec<Token> = Vec::new();
    let mut i: usize = 0;
    while i < chars.len()
        invariant
            i <= chars.len(),
            chars@ == input@,
            match tokens_from(chars@, i as int) {
                Ok(rest) => tokens_of(chars@) == Ok::<Seq<Token>, TokenizeError>(tokens@ + rest),
                Err(e) => tokens_of(chars@) == Err::<Seq<Token>, TokenizeError>(e),
            },
        decreases chars.len() - i,
    {
        let ch = chars[i];
        if is_whitespace_char(ch) {
            i += 1;
        } else if is_digit_char(ch) {
            let ghost before = tokens@;
            let (value, end) = read_number(&chars, i);
            tokens.push(Token::Number(value));
            proof {
                match tokens_from(chars@, end as int) {
                    Ok(rest) => {
                        assert(before + (seq![Token::Number(value)] + rest) =~= tokens@ + rest);
                    },
                    Err(e) => {},
                }
            }
            i = end;
        } else {
            match Token::new(ch) {
                Ok(token) => {
                    let ghost before = tokens@;
                    tokens.push(token);
                    proof {
                        match tokens_from(chars@, i + 1) {
                            Ok(rest) => {
                                assert(before + (seq![token] + rest) =~= tokens@ + rest);
                            },
                            Err(e) => {},
                        }
                    }
                    i += 1;
                },
                Err(_) => {
                    proof {
                        lemma_scan_stops_at_first_foreign(input@);
                    }
                    return Err(TokenizeError::UnexpectedCharacter(ch));
                },
            }
        }
    }
    let ghost before = tokens@;
    tokens.push(Token::End);
    Ok(tokens)
}

/// Breaks a text into its tokens, closed by `End`, or says in words which
/// character stopped the scan.
pub fn tokenize(input: &str) -> (r: Result<Vec<Token>, String>)
    ensures
        match tokens_of(input@) {
            Ok(tokens) => r is Ok && r->Ok_0@ == tokens,
            Err(e) => r is Err && r->Err_0@ == e.text(),
        },
        r matches Ok(tokens) ==> ends_once(tokens@) && spells(input@, tokens@.drop_last()),
        r is Ok <==> forall|k: int| 0 <= k < input@.len() ==> in_alphabet(#[trigger] input@[k]),
        r matches Err(message) ==> exists|k: int| #[trigger]
            stops_at(input@, 0, k) && message@ == TokenizeError::UnexpectedCharacter(
                input@[k],
            ).text(),
{
    match tokenizer(input) {
        Ok(tokens) => Ok(tokens),
        Err(e) => Err(e.to_string()),
    }
}

} // verus!
