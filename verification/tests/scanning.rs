use logic_expr::tokens::{
    are_well_positioned, token_len, token_name, token_pos, tokenize, Token,
};

fn var(pos: usize, name: &str) -> Token {
    Token::Variable(pos, String::from(name))
}

fn op(pos: usize, name: &str) -> Token {
    Token::Operator(pos, String::from(name))
}

#[test]
fn empty_text_is_no_input_at_offset_zero() {
    let err = tokenize("").err().unwrap();
    assert_eq!(err.message, "no input.");
    assert_eq!(err.pos, 0);
    assert_eq!(err.len, 0);
}

#[test]
fn white_space_only_is_no_input_at_the_end() {
    let err = tokenize("  \t ").err().unwrap();
    assert_eq!(err.message, "no input.");
    assert_eq!(err.pos, 4);
    assert_eq!(err.len, 0);
}

#[test]
fn invalid_character_is_reported_with_a_span_of_one() {
    let err = tokenize("#").err().unwrap();
    assert_eq!(err.message, "Invalid character '#'");
    assert_eq!(err.pos, 0);
    assert_eq!(err.len, 1);

    let err = tokenize("a & $b").err().unwrap();
    assert_eq!(err.message, "Invalid character '$'");
    assert_eq!(err.pos, 4);
    assert_eq!(err.len, 1);
}

#[test]
fn first_invalid_character_wins() {
    let err = tokenize("a ? b # c").err().unwrap();
    assert_eq!(err.message, "Invalid character '?'");
    assert_eq!(err.pos, 2);
    assert_eq!(err.len, 1);
}

#[test]
fn invalid_character_comes_before_no_input() {
    let err = tokenize("  %").err().unwrap();
    assert_eq!(err.message, "Invalid character '%'");
    assert_eq!(err.pos, 2);
    assert_eq!(err.len, 1);
}

#[test]
fn greater_than_is_valid_only_after_equals() {
    let err = tokenize(">").err().unwrap();
    assert_eq!(err.message, "Invalid character '>'");
    assert_eq!(err.pos, 0);

    let err = tokenize("a>b").err().unwrap();
    assert_eq!(err.pos, 1);
    assert_eq!(err.len, 1);

    let err = tokenize("a=>>b").err().unwrap();
    assert_eq!(err.pos, 3);

    assert_eq!(tokenize("a=>b").unwrap(), vec![var(0, "a"), op(1, "=>"), var(3, "b")]);
}

#[test]
fn implication_is_matched_before_equality() {
    assert_eq!(tokenize("==>").unwrap(), vec![op(0, "="), op(1, "=>")]);
    assert_eq!(tokenize("=>=").unwrap(), vec![op(0, "=>"), op(2, "=")]);
    assert_eq!(tokenize("= >").err().unwrap().pos, 2);
}

#[test]
fn letters_and_digits_are_different_tokens() {
    assert_eq!(
        tokenize("a1b0").unwrap(),
        vec![var(0, "a"), Token::Value(1, true), var(2, "b"), Token::Value(3, false)]
    );
}

#[test]
fn names_keep_their_case_and_run_as_long_as_letters_follow() {
    assert_eq!(tokenize("AbC dEf").unwrap(), vec![var(0, "AbC"), var(4, "dEf")]);
}

#[test]
fn tabs_are_skipped_like_spaces() {
    assert_eq!(
        tokenize("\ta\t|\tb").unwrap(),
        vec![var(1, "a"), op(3, "|"), var(5, "b")]
    );
}

#[test]
fn other_white_space_is_invalid() {
    let err = tokenize("a\nb").err().unwrap();
    assert_eq!(err.pos, 1);
    assert_eq!(err.len, 1);
}

#[test]
fn letters_beyond_ascii_are_letters_and_offsets_count_characters() {
    assert_eq!(
        tokenize("é|ßü").unwrap(),
        vec![var(0, "é"), op(1, "|"), var(2, "ßü")]
    );
    let tokens = tokenize("ä & b").unwrap();
    assert_eq!(tokens, vec![var(0, "ä"), op(2, "&"), var(4, "b")]);
    assert_eq!(token_len(&tokens[0]), 1);
}

#[test]
fn symbols_beyond_ascii_are_invalid() {
    let err = tokenize("a€").err().unwrap();
    assert_eq!(err.message, "Invalid character '€'");
    assert_eq!(err.pos, 1);
    assert_eq!(err.len, 1);
}

#[test]
fn every_kind_of_token_is_found() {
    assert_eq!(
        tokenize("!(a&b|c^d=0=>1)").unwrap(),
        vec![
            op(0, "!"),
            Token::OpenParanthesis(1),
            var(2, "a"),
            op(3, "&"),
            var(4, "b"),
            op(5, "|"),
            var(6, "c"),
            op(7, "^"),
            var(8, "d"),
            op(9, "="),
            Token::Value(10, false),
            op(11, "=>"),
            Token::Value(13, true),
            Token::CloseParanthesis(14),
        ]
    );
}

#[test]
fn token_accessors_give_offset_length_and_name() {
    let tokens = vec![
        Token::Value(3, true),
        Token::Value(4, false),
        var(5, "abc"),
        op(9, "=>"),
        op(12, "&"),
        Token::OpenParanthesis(14),
        Token::CloseParanthesis(15),
    ];
    let pos: Vec<usize> = tokens.iter().map(token_pos).collect();
    let len: Vec<usize> = tokens.iter().map(token_len).collect();
    let name: Vec<&str> = tokens.iter().map(token_name).collect();
    assert_eq!(pos, vec![3, 4, 5, 9, 12, 14, 15]);
    assert_eq!(len, vec![1, 1, 3, 2, 1, 1, 1]);
    assert_eq!(name, vec!["1", "0", "abc", "=>", "&", "(", ")"]);
}

#[test]
fn tokens_are_equal_when_kind_offset_and_payload_agree() {
    assert_eq!(Token::Value(1, true), Token::Value(1, true));
    assert_ne!(Token::Value(1, true), Token::Value(1, false));
    assert_ne!(Token::Value(1, true), Token::Value(2, true));
    assert_eq!(var(0, "a"), var(0, "a"));
    assert_ne!(var(0, "a"), var(0, "b"));
    assert_ne!(var(0, "a"), var(1, "a"));
    assert_ne!(var(0, "a"), op(0, "a"));
    assert_eq!(op(2, "=>"), op(2, "=>"));
    assert_ne!(op(2, "=>"), op(2, "="));
    assert_eq!(Token::OpenParanthesis(7), Token::OpenParanthesis(7));
    assert_ne!(Token::OpenParanthesis(7), Token::OpenParanthesis(8));
    assert_ne!(Token::OpenParanthesis(7), Token::CloseParanthesis(7));
    assert_eq!(Token::CloseParanthesis(7), Token::CloseParanthesis(7));
    assert_ne!(Token::CloseParanthesis(7), Token::Value(7, true));
}

#[test]
fn tokens_of_a_text_are_well_positioned() {
    assert!(are_well_positioned(&tokenize("a & (bc | !d) => 1").unwrap()));
    assert!(are_well_positioned(&tokenize("ab&c").unwrap()));
    assert!(are_well_positioned(&[]));
}

#[test]
fn tokens_that_overlap_or_go_back_are_not_well_positioned() {
    assert!(are_well_positioned(&[var(0, "ab"), op(2, "&")]));
    assert!(!are_well_positioned(&[var(0, "ab"), op(1, "&")]));
    assert!(!are_well_positioned(&[var(3, "a"), var(0, "b")]));
    assert!(!are_well_positioned(&[var(0, "a"), var(5, "b"), var(2, "c")]));
}

#[test]
fn token_that_ends_beyond_a_machine_word_is_not_well_positioned() {
    assert!(are_well_positioned(&[var(usize::MAX - 1, "a")]));
    assert!(!are_well_positioned(&[var(usize::MAX, "a")]));
    assert!(!are_well_positioned(&[op(usize::MAX - 1, "=>")]));
}
