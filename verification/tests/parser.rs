use calculator::ast::{BinaryOperator, Node, UnaryOperator};
use calculator::grammar::{expect, parse, parse_e, parse_f, parse_p, parse_t, parser, ParseError};
use calculator::token::Token;

#[test]
fn parses_p() {
    let tokens = vec![Token::Number(3), Token::End];
    assert_eq!(
        parse(&tokens),
        Ok(Node::Single(3)),
        "Parses P (single digits)"
    );

    let tokens = vec![Token::Dash, Token::Number(3), Token::End];
    assert_eq!(
        parse(&tokens),
        Ok(Node::Unary(
            UnaryOperator::Negative,
            Box::new(Node::Single(3))
        )),
        "Parses P (negative numbers)"
    );

    let tokens = vec![
        Token::LeftParenthese,
        Token::Number(3),
        Token::RightParenthese,
        Token::End,
    ];
    assert_eq!(
        parse(&tokens),
        Ok(Node::Single(3)),
        "Parses P (expressions wrapped with parentheses)"
    );
}

#[test]
fn parses_f() {
    let tokens = vec![
        Token::Number(3),
        Token::Caret,
        Token::Number(2),
        Token::End,
    ];
    assert_eq!(
        parse(&tokens),
        Ok(Node::Binary(
            BinaryOperator::Exponentiation,
            Box::new(Node::Single(3)),
            Box::new(Node::Single(2))
        )),
        "Parses F (operands are single digits)"
    );

    let tokens = vec![
        Token::Number(3),
        Token::Caret,
        Token::Number(2),
        Token::Caret,
        Token::Number(2),
        Token::End,
    ];
    assert_eq!(
        parse(&tokens),
        Ok(Node::Binary(
            BinaryOperator::Exponentiation,
            Box::new(Node::Single(3)),
            Box::new(Node::Binary(
                BinaryOperator::Exponentiation,
                Box::new(Node::Single(2)),
                Box::new(Node::Single(2))
            )),
        )),
        "Parses F (operands are F too)"
    );
}

#[test]
fn parses_t() {
    let tokens = vec![
        Token::Number(2),
        Token::Asterisk,
        Token::Number(5),
        Token::Slash,
        Token::Number(3),
        Token::End,
    ];

    assert_eq!(
        parse(&tokens),
        Ok(Node::Binary(
            BinaryOperator::Division,
            Box::new(Node::Binary(
                BinaryOperator::Multiplication,
                Box::new(Node::Single(2)),
                Box::new(Node::Single(5)),
            )),
            Box::new(Node::Single(3)),
        )),
        "Parses T (operands aren't single nodes)"
    );
}

#[test]
fn parses_e() {
    let tokens = vec![
        Token::Number(2),
        Token::Plus,
        Token::Number(5),
        Token::Dash,
        Token::Number(3),
        Token::End,
    ];

    assert_eq!(
        parse(&tokens),
        Ok(Node::Binary(
            BinaryOperator::Subtraction,
            Box::new(Node::Binary(
                BinaryOperator::Addition,
                Box::new(Node::Single(2)),
                Box::new(Node::Single(5)),
            )),
            Box::new(Node::Single(3)),
        )),
        "Parses E (operands aren't single nodes)"
    );
}

#[test]
fn parses_a_full_example() {
    // -3 + (7 * 2) ^ 2
    let tokens = vec![
        Token::Dash,
        Token::Number(3),
        Token::Plus,
        Token::LeftParenthese,
        Token::Number(7),
        Token::Asterisk,
        Token::Number(2),
        Token::RightParenthese,
        Token::Caret,
        Token::Number(2),
        Token::End,
    ];
    let ast = Node::Binary(
        BinaryOperator::Addition,
        Box::new(Node::Unary(
            UnaryOperator::Negative,
            Box::new(Node::Single(3)),
        )),
        Box::new(Node::Binary(
            BinaryOperator::Exponentiation,
            Box::new(Node::Binary(
                BinaryOperator::Multiplication,
                Box::new(Node::Single(7)),
                Box::new(Node::Single(2)),
            )),
            Box::new(Node::Single(2)),
        )),
    );

    assert_eq!(parse(&tokens), Ok(ast));
}

#[test]
fn parser_throws_meaningful_errors() {
    let tokens = vec![
        Token::Number(2),
        Token::Plus,
        Token::Number(5),
        Token::Dash,
        Token::Number(3),
    ];

    assert_eq!(
        parse(&tokens),
        Err(String::from(
            "Expected the end token, but Instead, got nothing"
        ))
    );

    let tokens = vec![
        Token::Number(2),
        Token::Plus,
        Token::Number(5),
        Token::Dash,
        Token::Asterisk,
        Token::Number(3),
    ];

    assert_eq!(
        parse(&tokens),
        Err(String::from(
            "Expected a number (positive or negative) or an expression wrapped inside parentheses, but Instead, got '*'"
        )),
    );

    let tokens = vec![
        Token::Number(2),
        Token::Plus,
        Token::Number(5),
        Token::Dash,
        Token::LeftParenthese,
        Token::Number(3),
        Token::Dash,
        Token::Number(2),
        Token::End,
    ];

    assert_eq!(
        parse(&tokens),
        Err(String::from(
            "Expected a closing parenthese ')', but Instead, got the end token"
        )),
    );
}

#[test]
fn parser_tests() {
    let tokens = vec![Token::Number(3), Token::End];
    assert_eq!(
        parser(&tokens),
        Ok(Node::Single(3)),
        "Parses P (single digits)"
    );

    let tokens = vec![Token::Dash, Token::Number(3), Token::End];
    assert_eq!(
        parser(&tokens),
        Ok(Node::Unary(
            UnaryOperator::Negative,
            Box::new(Node::Single(3))
        )),
        "Parses P (negative numbers)"
    );

    let tokens = vec![
        Token::LeftParenthese,
        Token::Number(3),
        Token::RightParenthese,
        Token::End,
    ];
    assert_eq!(
        parser(&tokens),
        Ok(Node::Single(3)),
        "Parses P (expressions wrapped with parentheses)"
    );

    let tokens = vec![Token::Number(3), Token::Caret, Token::Number(2), Token::End];
    assert_eq!(
        parser(&tokens),
        Ok(Node::Binary(
            BinaryOperator::Exponentiation,
            Box::new(Node::Single(3)),
            Box::new(Node::Single(2))
        )),
        "Parses F (operands are single digits)"
    );

    let tokens = vec![
        Token::Number(3),
        Token::Caret,
        Token::Number(2),
        Token::Caret,
        Token::Number(2),
        Token::End,
    ];
    assert_eq!(
        parser(&tokens),
        Ok(Node::Binary(
            BinaryOperator::Exponentiation,
            Box::new(Node::Single(3)),
            Box::new(Node::Binary(
                BinaryOperator::Exponentiation,
                Box::new(Node::Single(2)),
                Box::new(Node::Single(2))
            )),
        )),
        "Parses F (operands are F too)"
    );

    let tokens = vec![
        Token::Number(2),
        Token::Asterisk,
        Token::Number(5),
        Token::Slash,
        Token::Number(3),
        Token::End,
    ];

    assert_eq!(
        parser(&tokens),
        Ok(Node::Binary(
            BinaryOperator::Division,
            Box::new(Node::Binary(
                BinaryOperator::Multiplication,
                Box::new(Node::Single(2)),
                Box::new(Node::Single(5)),
            )),
            Box::new(Node::Single(3)),
        )),
        "Parses T (operands aren't single nodes)"
    );

    let tokens = vec![
        Token::Number(2),
        Token::Plus,
        Token::Number(5),
        Token::Dash,
        Token::Number(3),
        Token::End,
    ];

    assert_eq!(
        parser(&tokens),
        Ok(Node::Binary(
            BinaryOperator::Subtraction,
            Box::new(Node::Binary(
                BinaryOperator::Addition,
                Box::new(Node::Single(2)),
                Box::new(Node::Single(5)),
            )),
            Box::new(Node::Single(3)),
        )),
        "Parses E (operands aren't single nodes)"
    );

    // -3 + (7 * 2) ^ 2
    let tokens = vec![
        Token::Dash,
        Token::Number(3),
        Token::Plus,
        Token::LeftParenthese,
        Token::Number(7),
        Token::Asterisk,
        Token::Number(2),
        Token::RightParenthese,
        Token::Caret,
        Token::Number(2),
        Token::End,
    ];
    let ast = Node::Binary(
        BinaryOperator::Addition,
        Box::new(Node::Unary(
            UnaryOperator::Negative,
            Box::new(Node::Single(3)),
        )),
        Box::new(Node::Binary(
            BinaryOperator::Exponentiation,
            Box::new(Node::Binary(
                BinaryOperator::Multiplication,
                Box::new(Node::Single(7)),
                Box::new(Node::Single(2)),
            )),
            Box::new(Node::Single(2)),
        )),
    );

    assert_eq!(parser(&tokens), Ok(ast), "Parses a full example");
}

fn number(n: u64) -> Box<Node> {
    Box::new(Node::Single(n))
}

#[test]
fn each_error_carries_what_was_found() {
    assert_eq!(parser(&[]), Err(ParseError::ExpectedPrimary(None)));
    assert_eq!(
        parser(&[Token::End]),
        Err(ParseError::ExpectedPrimary(Some(Token::End)))
    );
    assert_eq!(
        parser(&[Token::Number(1), Token::Plus]),
        Err(ParseError::ExpectedPrimary(None))
    );
    assert_eq!(
        parser(&[Token::Dash, Token::RightParenthese, Token::End]),
        Err(ParseError::ExpectedPrimary(Some(Token::RightParenthese)))
    );
    assert_eq!(
        parser(&[Token::LeftParenthese, Token::Number(1)]),
        Err(ParseError::ExpectedCloseParen(None))
    );
    assert_eq!(
        parser(&[
            Token::LeftParenthese,
            Token::Number(1),
            Token::Number(2),
            Token::RightParenthese,
            Token::End
        ]),
        Err(ParseError::ExpectedCloseParen(Some(Token::Number(2))))
    );
    assert_eq!(
        parser(&[Token::Number(1), Token::Number(2), Token::End]),
        Err(ParseError::ExpectedEnd(Some(Token::Number(2))))
    );
    assert_eq!(
        parser(&[Token::Number(1), Token::RightParenthese, Token::End]),
        Err(ParseError::ExpectedEnd(Some(Token::RightParenthese)))
    );
    assert_eq!(parser(&[Token::Number(1)]), Err(ParseError::ExpectedEnd(None)));
}

#[test]
fn errors_are_worded_from_what_was_needed_and_found() {
    assert_eq!(
        ParseError::ExpectedPrimary(None).to_string(),
        "Expected a number (positive or negative) or an expression wrapped inside parentheses, but Instead, got nothing"
    );
    assert_eq!(
        ParseError::ExpectedPrimary(Some(Token::Caret)).to_string(),
        "Expected a number (positive or negative) or an expression wrapped inside parentheses, but Instead, got '^'"
    );
    assert_eq!(
        ParseError::ExpectedCloseParen(Some(Token::Number(42))).to_string(),
        "Expected a closing parenthese ')', but Instead, got 42"
    );
    assert_eq!(
        ParseError::ExpectedCloseParen(None).to_string(),
        "Expected a closing parenthese ')', but Instead, got nothing"
    );
    assert_eq!(
        ParseError::ExpectedEnd(Some(Token::LeftParenthese)).to_string(),
        "Expected the end token, but Instead, got an opening parenthese '('"
    );
    assert_eq!(
        ParseError::ExpectedEnd(Some(Token::RightParenthese)).to_string(),
        "Expected the end token, but Instead, got a closing parenthese ')'"
    );
}

#[test]
fn parse_words_the_error_of_parser() {
    let inputs: Vec<Vec<Token>> = vec![
        vec![],
        vec![Token::Number(1), Token::End],
        vec![Token::Number(1)],
        vec![Token::LeftParenthese, Token::Number(1), Token::End],
        vec![Token::Slash, Token::End],
    ];
    for tokens in inputs {
        match (parse(&tokens), parser(&tokens)) {
            (Ok(a), Ok(b)) => assert_eq!(a, b),
            (Err(message), Err(e)) => assert_eq!(message, e.to_string()),
            (a, b) => panic!("{:?} and {:?} differ", a, b),
        }
    }
}

#[test]
fn what_follows_the_end_token_is_not_read() {
    assert_eq!(
        parser(&[Token::Number(1), Token::End, Token::Plus]),
        Ok(Node::Single(1))
    );
}

#[test]
fn negation_nests_and_binds_tighter_than_power_on_its_left() {
    let tokens = vec![Token::Dash, Token::Dash, Token::Number(3), Token::End];
    assert_eq!(
        parser(&tokens),
        Ok(Node::Unary(
            UnaryOperator::Negative,
            Box::new(Node::Unary(UnaryOperator::Negative, number(3)))
        ))
    );
    let tokens = vec![
        Token::Dash,
        Token::Number(2),
        Token::Caret,
        Token::Dash,
        Token::Number(3),
        Token::End,
    ];
    assert_eq!(
        parser(&tokens),
        Ok(Node::Binary(
            BinaryOperator::Exponentiation,
            Box::new(Node::Unary(UnaryOperator::Negative, number(2))),
            Box::new(Node::Unary(UnaryOperator::Negative, number(3))),
        ))
    );
}

#[test]
fn multiplication_binds_tighter_than_addition_on_both_sides() {
    // 1 * 2 + 3 * 4
    let tokens = vec![
        Token::Number(1),
        Token::Asterisk,
        Token::Number(2),
        Token::Plus,
        Token::Number(3),
        Token::Asterisk,
        Token::Number(4),
        Token::End,
    ];
    assert_eq!(
        parser(&tokens),
        Ok(Node::Binary(
            BinaryOperator::Addition,
            Box::new(Node::Binary(
                BinaryOperator::Multiplication,
                number(1),
                number(2)
            )),
            Box::new(Node::Binary(
                BinaryOperator::Multiplication,
                number(3),
                number(4)
            )),
        ))
    );
}

#[test]
fn each_rule_gives_the_tree_and_where_it_stopped() {
    // 2 * 3 ^ 4 + 5 )
    let tokens = vec![
        Token::Number(2),
        Token::Asterisk,
        Token::Number(3),
        Token::Caret,
        Token::Number(4),
        Token::Plus,
        Token::Number(5),
        Token::RightParenthese,
    ];
    assert_eq!(parse_p(&tokens, 0), Ok((Node::Single(2), 1)));
    assert_eq!(parse_f(&tokens, 0), Ok((Node::Single(2), 1)));
    assert_eq!(
        parse_f(&tokens, 2),
        Ok((
            Node::Binary(BinaryOperator::Exponentiation, number(3), number(4)),
            5
        ))
    );
    let product = Node::Binary(
        BinaryOperator::Multiplication,
        number(2),
        Box::new(Node::Binary(
            BinaryOperator::Exponentiation,
            number(3),
            number(4),
        )),
    );
    assert_eq!(
        parse_t(&tokens, 0),
        Ok((
            Node::Binary(
                BinaryOperator::Multiplication,
                number(2),
                Box::new(Node::Binary(
                    BinaryOperator::Exponentiation,
                    number(3),
                    number(4)
                )),
            ),
            5
        ))
    );
    assert_eq!(
        parse_e(&tokens, 0),
        Ok((
            Node::Binary(BinaryOperator::Addition, Box::new(product), number(5)),
            7
        ))
    );
    assert_eq!(parse_e(&tokens, 6), Ok((Node::Single(5), 7)));
    assert_eq!(
        parse_p(&tokens, 7),
        Err(ParseError::ExpectedPrimary(Some(Token::RightParenthese)))
    );
    assert_eq!(parse_p(&tokens, 8), Err(ParseError::ExpectedPrimary(None)));
    assert_eq!(parse_e(&tokens, 100), Err(ParseError::ExpectedPrimary(None)));
}

#[test]
fn expect_steps_over_the_token_it_is_given() {
    let tokens = vec![Token::Number(1), Token::RightParenthese];
    assert_eq!(expect(Token::RightParenthese, &tokens, 1), Ok(2));
    assert_eq!(
        expect(Token::RightParenthese, &tokens, 0),
        Err(Some(Token::Number(1)))
    );
    assert_eq!(expect(Token::Number(1), &tokens, 0), Ok(1));
    assert_eq!(
        expect(Token::Number(2), &tokens, 0),
        Err(Some(Token::Number(1)))
    );
    assert_eq!(expect(Token::End, &tokens, 2), Err(None));
    assert_eq!(expect(Token::End, &tokens, 9), Err(None));
}
