use logic_expr::parser::{
    find_top_level_operator, parse, parse_operator_expression, parse_paranthesis_expression,
    parse_single_token_expression,
};
use logic_expr::tokens::tokenize;


#[test]
fn find_top_level_operator_returns_none_if_no_operator() {
    let tokens = tokenize("a b").unwrap_or_else(|_| vec![]);
    assert_eq!(find_top_level_operator(&tokens), None)
}

#[test]
fn find_top_level_operator_returns_none_if_operators_in_paranthesis() {
    let tokens = tokenize("(a &  b)").unwrap_or_else(|_| vec![]);
    assert_eq!(find_top_level_operator(&tokens), None)
}

#[test]
fn find_top_level_operator_returns_first_matching_operator() {
    let tokens = tokenize("a & b & c").unwrap_or_else(|_| vec![]);
    assert_eq!(find_top_level_operator(&tokens), Some(1))
}

#[test]
fn find_top_level_operator_returns_operator_with_highest_precedence() {
    let tokens = tokenize("!a & b ^ c | d = e => f").unwrap_or_else(|_| vec![]);
    assert_eq!(find_top_level_operator(&tokens), Some(8));

    let tokens = tokenize("!a & b ^ c | e => f").unwrap_or_else(|_| vec![]);
    assert_eq!(find_top_level_operator(&tokens), Some(8));

    let tokens = tokenize("!a & b ^ c | e").unwrap_or_else(|_| vec![]);
    assert_eq!(find_top_level_operator(&tokens), Some(4));

    let tokens = tokenize("!a & b | e").unwrap_or_else(|_| vec![]);
    assert_eq!(find_top_level_operator(&tokens), Some(4));

    let tokens = tokenize("!a & b").unwrap_or_else(|_| vec![]);
    assert_eq!(find_top_level_operator(&tokens), Some(2));

    let tokens = tokenize("!a").unwrap_or_else(|_| vec![]);
    assert_eq!(find_top_level_operator(&tokens), Some(0));
}

#[test]
fn parse_single_token_expression_return_ok_for_value_or_variable_token() {
    let tokens = tokenize("0 1 a bc").unwrap_or_else(|_| vec![]);

    let result = parse_single_token_expression(tokens.get(0).unwrap());
    assert_eq!(result.is_err(), false);
    assert_eq!(result.unwrap().to_dump_string(), "Value(0)");

    let result = parse_single_token_expression(tokens.get(1).unwrap());
    assert_eq!(result.is_err(), false);
    assert_eq!(result.unwrap().to_dump_string(), "Value(1)");

    let result = parse_single_token_expression(tokens.get(2).unwrap());
    assert_eq!(result.is_err(), false);
    assert_eq!(result.unwrap().to_dump_string(), "Variable(a)");

    let result = parse_single_token_expression(tokens.get(3).unwrap());
    assert_eq!(result.is_err(), false);
    assert_eq!(result.unwrap().to_dump_string(), "Variable(bc)");
}

#[test]
fn parse_single_token_expression_return_err_for_operators() {
    let tokens = tokenize("& ! ( )").unwrap_or_else(|_| vec![]);

    let result = parse_single_token_expression(tokens.get(0).unwrap());
    assert_eq!(result.is_err(), true);
    assert_eq!(result.err().unwrap().message, "value or variable expected");

    let result = parse_single_token_expression(tokens.get(1).unwrap());
    assert_eq!(result.is_err(), true);
    assert_eq!(result.err().unwrap().message, "value or variable expected");

    let result = parse_single_token_expression(tokens.get(2).unwrap());
    assert_eq!(result.is_err(), true);
    assert_eq!(result.err().unwrap().message, "value or variable expected");

    let result = parse_single_token_expression(tokens.get(3).unwrap());
    assert_eq!(result.is_err(), true);
    assert_eq!(result.err().unwrap().message, "value or variable expected");
}

#[test]
fn parse_operator_expression_return_err_if_rhs_not_found() {
    let tokens = tokenize("!").unwrap_or_else(|_| vec![]);
    let result = parse_operator_expression(&tokens, 0);
    assert_eq!(result.is_err(), true);
    assert_eq!(result.err().unwrap().message, "missing right hand side operand");

    let tokens = tokenize("A&").unwrap_or_else(|_| vec![]);
    let result = parse_operator_expression(&tokens, 1);
    assert_eq!(result.is_err(), true);
    assert_eq!(result.err().unwrap().message, "missing right hand side operand");
}

#[test]
fn parse_operator_expression_return_err_if_rhs_invalid() {
    let tokens = tokenize("!|").unwrap_or_else(|_| vec![]);
    let result = parse_operator_expression(&tokens, 0);
    assert_eq!(result.is_err(), true);
    assert_eq!(result.err().unwrap().message, "value or variable expected");

    let tokens = tokenize("A&|").unwrap_or_else(|_| vec![]);
    let result = parse_operator_expression(&tokens, 1);
    assert_eq!(result.is_err(), true);
    assert_eq!(result.err().unwrap().message, "value or variable expected");
}

#[test]
fn parse_operator_expression_return_err_if_lhs_not_found() {
    let tokens = tokenize("&a").unwrap_or_else(|_| vec![]);
    let result = parse_operator_expression(&tokens, 0);
    assert_eq!(result.is_err(), true);
    assert_eq!(result.err().unwrap().message, "missing left hand side operand");
}

#[test]
fn parse_operator_expression_return_err_if_lhs_not_expected() {
    let tokens = tokenize("a!b").unwrap_or_else(|_| vec![]);
    let result = parse_operator_expression(&tokens, 1);
    assert_eq!(result.is_err(), true);
    assert_eq!(result.err().unwrap().message, "unexpected left hand side operand");
}

#[test]
fn parse_operator_expression_return_ok_for_correct_expressions() {
    let tokens = tokenize("!a a|b a&b a^b a=>b a=b").unwrap_or_else(|_| vec![]);

    let result = parse_operator_expression(&tokens[..2], 0);
    assert_eq!(result.is_err(), false);
    assert_eq!(result.unwrap().to_dump_string(), "Neg(Variable(a))");

    let result = parse_operator_expression(&tokens[2..5], 1);
    assert_eq!(result.is_err(), false);
    assert_eq!(result.unwrap().to_dump_string(), "Or(Variable(a),Variable(b))");

    let result = parse_operator_expression(&tokens[5..8], 1);
    assert_eq!(result.is_err(), false);
    assert_eq!(result.unwrap().to_dump_string(), "And(Variable(a),Variable(b))");

    let result = parse_operator_expression(&tokens[8..11], 1);
    assert_eq!(result.is_err(), false);
    assert_eq!(result.unwrap().to_dump_string(), "Xor(Variable(a),Variable(b))");

    let result = parse_operator_expression(&tokens[11..14], 1);
    assert_eq!(result.is_err(), false);
    assert_eq!(result.unwrap().to_dump_string(), "Imp(Variable(a),Variable(b))");

    let result = parse_operator_expression(&tokens[14..], 1);
    assert_eq!(result.is_err(), false);
    assert_eq!(result.unwrap().to_dump_string(), "Eq(Variable(a),Variable(b))");
}

#[test]
fn parse_paranthesis_expression_return_err_if_not_starting_with_paranthesis_open() {
    let tokens = tokenize("a&b").unwrap_or_else(|_| vec![]);
    let result = parse_paranthesis_expression(&tokens);
    assert_eq!(result.is_err(), true);
    assert_eq!(result.err().unwrap().message, "operator expected");
}

#[test]
fn parse_paranthesis_expression_return_err_if_missing_paranthesis_close() {
    let tokens = tokenize("(a").unwrap_or_else(|_| vec![]);
    let result = parse_paranthesis_expression(&tokens);
    assert_eq!(result.is_err(), true);
    assert_eq!(result.err().unwrap().message, "\")\" expected");
}

#[test]
fn parse_paranthesis_expression_return_err_if_unblanced_paranthesis() {
    let tokens = tokenize("(a))").unwrap_or_else(|_| vec![]);
    let result = parse_paranthesis_expression(&tokens);
    assert_eq!(result.is_err(), true);
    assert_eq!(result.err().unwrap().message, "operator expected");
}

#[test]
fn parse_paranthesis_expression_return_err_if_more_than_one_paranthesis() {
    let tokens = tokenize("(a)(b)").unwrap_or_else(|_| vec![]);
    let result = parse_paranthesis_expression(&tokens);
    assert_eq!(result.is_err(), true);
    assert_eq!(result.err().unwrap().message, "operator expected");
}

#[test]
fn parse_paranthesis_expression_return_ok_for_complex_expressions_with_paranthesis() {
    let tokens = tokenize("((a|b)&c)").unwrap_or_else(|_| vec![]);
    let result = parse_paranthesis_expression(&tokens);
    assert_eq!(result.is_err(), false);
    assert_eq!(result.unwrap().to_dump_string(), "And(Or(Variable(a),Variable(b)),Variable(c))");
}

#[test]
fn parse_parses_complex_expressions() {
    let tokens = tokenize("(a|b&c) = ((a|b)&c)").unwrap_or_else(|_| vec![]);
    let result = parse(&tokens);
    assert_eq!(result.is_err(), false);
    assert_eq!(result.unwrap().to_dump_string(), "Eq(Or(Variable(a),And(Variable(b),Variable(c))),And(Or(Variable(a),Variable(b)),Variable(c)))");
}
