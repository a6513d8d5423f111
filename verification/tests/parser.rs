use board_games::expr::Expr;
use board_games::parser::ParseError;
use board_games::token::{Token, TokenStream};

fn boxed_int(v: i32) -> Box<Expr> {
    Box::new(Expr::Int(v))
}

#[test]
fn parse_expr() {
    let mut tokens = TokenStream::new(vec![Token::Int(1), Token::Plus, Token::Int(2)]);
    let expr = Expr::parse(&mut tokens).unwrap();
    assert_eq!(expr, Expr::Add { left: boxed_int(1), right: boxed_int(2) });

    let mut tokens = TokenStream::new(vec![Token::Int(4), Token::Minus, Token::Int(7)]);
    let expr = Expr::parse(&mut tokens).unwrap();
    assert_eq!(expr, Expr::Sub { left: boxed_int(4), right: boxed_int(7) });

    // (1 + 2) - 3
    let mut tokens = TokenStream::new(vec![
        Token::LeftParen,
        Token::Int(1),
        Token::Plus,
        Token::Int(2),
        Token::RightParen,
        Token::Minus,
        Token::Int(3),
    ]);
    let expr = Expr::parse(&mut tokens).unwrap();
    assert_eq!(
        expr,
        Expr::Sub {
            left: Box::new(Expr::Add { left: boxed_int(1), right: boxed_int(2) }),
            right: boxed_int(3),
        }
    );

    // 1 + (2 - 3)
    let mut tokens = TokenStream::new(vec![
        Token::Int(1),
        Token::Plus,
        Token::LeftParen,
        Token::Int(2),
        Token::Minus,
        Token::Int(3),
        Token::RightParen,
    ]);
    let expr = Expr::parse(&mut tokens).unwrap();
    assert_eq!(
        expr,
        Expr::Add {
            left: boxed_int(1),
            right: Box::new(Expr::Sub { left: boxed_int(2), right: boxed_int(3) }),
        }
    );
}

#[test]
fn unexpected_token_plus() {
    let mut tokens = TokenStream::new(vec![Token::Plus, Token::Int(1)]);
    let err = Expr::parse(&mut tokens).unwrap_err();
    assert_eq!(err, ParseError::UnexpectedToken { found: Token::Plus });
}

#[test]
fn unexpected_token_minus() {
    let mut tokens = TokenStream::new(vec![Token::Minus, Token::Int(1)]);
    let err = Expr::parse(&mut tokens).unwrap_err();
    assert_eq!(err, ParseError::UnexpectedToken { found: Token::Minus });
}

#[test]
fn unexpected_token_int() {
    // An integer where the operator should be
    let mut tokens = TokenStream::new(vec![Token::Int(1), Token::Int(2)]);
    let err = Expr::parse(&mut tokens).unwrap_err();
    assert_eq!(err, ParseError::UnexpectedToken { found: Token::Int(2) });
}

#[test]
fn unexpected_eoi() {
    let mut tokens = TokenStream::new(vec![]);
    let err = Expr::parse(&mut tokens).unwrap_err();
    assert_eq!(err, ParseError::UnexpectedEndOfInput);

    // Input that ends after the left atom
    let mut tokens = TokenStream::new(vec![Token::Int(1)]);
    let err = Expr::parse(&mut tokens).unwrap_err();
    assert_eq!(err, ParseError::UnexpectedEndOfInput);

    // Input that ends after the operator
    let mut tokens = TokenStream::new(vec![Token::Int(1), Token::Plus]);
    let err = Expr::parse(&mut tokens).unwrap_err();
    assert_eq!(err, ParseError::UnexpectedEndOfInput);
}

#[test]
fn unexpected_tokens_after_expr() {
    // The parser reads one expression and leaves the rest in the stream.
    let mut tokens = TokenStream::new(vec![
        Token::Int(1),
        Token::Plus,
        Token::Int(2),
        Token::Int(3),
    ]);
    let expr = Expr::parse(&mut tokens).unwrap();
    assert_eq!(expr, Expr::Add { left: boxed_int(1), right: boxed_int(2) });
    assert_eq!(tokens.next(), Ok(Token::Int(3)));
    assert_eq!(tokens.next(), Err(ParseError::UnexpectedEndOfInput));
}

#[test]
fn unclosed_parens() {
    let mut tokens = TokenStream::new(vec![
        Token::LeftParen,
        Token::Int(1),
        Token::Plus,
        Token::Int(2),
    ]);
    let err = Expr::parse(&mut tokens).unwrap_err();
    assert_eq!(err, ParseError::UnexpectedEndOfInput);
}

#[test]
fn errors_leave_consumed_tokens_consumed() {
    // The parser does not restore the stream on failure: the tokens read up
    // to and including the offending one stay consumed.
    let mut tokens = TokenStream::new(vec![Token::Int(1), Token::RightParen, Token::Int(2)]);
    let err = Expr::parse(&mut tokens).unwrap_err();
    assert_eq!(err, ParseError::UnexpectedToken { found: Token::RightParen });
    // Int(1) and the offending ')' are gone; Int(2) is still there.
    assert_eq!(tokens.next(), Ok(Token::Int(2)));
    assert_eq!(tokens.next(), Err(ParseError::UnexpectedEndOfInput));
}

#[test]
fn too_many_right_parens() {
    let mut tokens = TokenStream::new(vec![
        Token::LeftParen,
        Token::Int(1),
        Token::Plus,
        Token::Int(2),
        Token::RightParen,
        Token::RightParen,
    ]);
    let err = Expr::parse(&mut tokens).unwrap_err();
    assert_eq!(err, ParseError::UnexpectedToken { found: Token::RightParen });
}
