use logic_expr::tokens::{tokenize, Token};


#[test]
fn tokenize_returns_err_for_empty_str() {
    let res = tokenize("");
    assert_eq!(res.is_err(), true);
}

#[test]
fn tokenize_parses_identifiers() {
    let res = tokenize("abc");
    assert_eq!(res.is_err(), false);
    let tokens = res.unwrap();
    assert_eq!(tokens, vec![Token::Variable(0, String::from("abc"))])
}

#[test]
fn tokenize_parses_two_letter_tokens() {
    let res = tokenize("=>");
    assert_eq!(res.is_err(), false);
    let tokens = res.unwrap();
    assert_eq!(tokens, vec![Token::Operator(0, String::from("=>"))]);
}

#[test]
fn tokenize_parses_one_letter_tokens() {
    let res = tokenize("0");
    assert_eq!(res.is_err(), false);
    let tokens = res.unwrap();
    assert_eq!(tokens, vec![Token::Value(0, false)]);

    let res = tokenize("1");
    assert_eq!(res.is_err(), false);
    let tokens = res.unwrap();
    assert_eq!(tokens, vec![Token::Value(0, true)]);

    let res = tokenize("&");
    assert_eq!(res.is_err(), false);
    let tokens = res.unwrap();
    assert_eq!(tokens, vec![Token::Operator(0, String::from("&"))]);

    let res = tokenize("|");
    assert_eq!(res.is_err(), false);
    let tokens = res.unwrap();
    assert_eq!(tokens, vec![Token::Operator(0, String::from("|"))]);

    let res = tokenize("=");
    assert_eq!(res.is_err(), false);
    let tokens = res.unwrap();
    assert_eq!(tokens, vec![Token::Operator(0, String::from("="))]);

    let res = tokenize("^");
    assert_eq!(res.is_err(), false);
    let tokens = res.unwrap();
    assert_eq!(tokens, vec![Token::Operator(0, String::from("^"))]);

    let res = tokenize("(");
    assert_eq!(res.is_err(), false);
    let tokens = res.unwrap();
    assert_eq!(tokens, vec![Token::OpenParanthesis(0)]);

    let res = tokenize(")");
    assert_eq!(res.is_err(), false);
    let tokens = res.unwrap();
    assert_eq!(tokens, vec![Token::CloseParanthesis(0)]);
}

#[test]
fn tokenize_returns_err_for_unknown_characters() {
    let res = tokenize("#");
    assert_eq!(res.is_err(), true);
}

#[test]
fn tokenize_parses_multiple_tokens() {
    let res = tokenize("a&b^def");
    assert_eq!(res.is_err(), false);
    let tokens = res.unwrap();
    assert_eq!(tokens, vec![Token::Variable(0, String::from("a")),
                            Token::Operator(1, String::from("&")),
                            Token::Variable(2, String::from("b")),
                            Token::Operator(3, String::from("^")),
                            Token::Variable(4, String::from("def")), ]);
}

#[test]
fn tokenize_ignores_whitespace() {
    let res = tokenize(" a | b = a & b ");
    assert_eq!(res.is_err(), false);
    let tokens = res.unwrap();
    assert_eq!(tokens, vec![Token::Variable(1, String::from("a")),
                            Token::Operator(3, String::from("|")),
                            Token::Variable(5, String::from("b")),
                            Token::Operator(7, String::from("=")),
                            Token::Variable(9, String::from("a")),
                            Token::Operator(11, String::from("&")),
                            Token::Variable(13, String::from("b"))]);
}
