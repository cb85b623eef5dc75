use logic_expr::expression::{EvaluationContext, Expression};
use logic_expr::names::NameSet;
use logic_expr::parser::{
    find_top_level_operator, parse, parse_expr, parse_operator_expression,
    parse_paranthesis_expression,
};
use logic_expr::tokens::{tokenize, ParseError, Token};

fn dump(text: &str) -> String {
    parse_expr(text).unwrap().to_dump_string()
}

fn failure(text: &str) -> ParseError {
    match parse_expr(text) {
        Ok(tree) => panic!("{} was read as {}", text, tree.to_dump_string()),
        Err(err) => err,
    }
}

#[test]
fn no_tokens_are_missing_input() {
    let err = parse(&[]).err().unwrap();
    assert_eq!(err.message, "missing input");
    assert_eq!(err.pos, 0);
    assert_eq!(err.len, 0);
}

#[test]
fn empty_parentheses_are_missing_input() {
    let err = failure("()");
    assert_eq!(err.message, "missing input");
    assert_eq!(err.pos, 0);
    assert_eq!(err.len, 0);
}

#[test]
fn lone_operator_or_parenthesis_is_no_operand() {
    let err = failure(" =>");
    assert_eq!(err.message, "value or variable expected");
    assert_eq!(err.pos, 1);
    assert_eq!(err.len, 2);

    let err = failure("  (");
    assert_eq!(err.message, "value or variable expected");
    assert_eq!(err.pos, 2);
    assert_eq!(err.len, 1);
}

#[test]
fn missing_right_operand_points_just_past_the_operator() {
    let err = failure("a &");
    assert_eq!(err.message, "missing right hand side operand");
    assert_eq!(err.pos, 3);
    assert_eq!(err.len, 0);

    let err = failure("a =>");
    assert_eq!(err.message, "missing right hand side operand");
    assert_eq!(err.pos, 4);
    assert_eq!(err.len, 0);
}

#[test]
fn missing_left_operand_points_at_the_operator() {
    let err = failure(" | a");
    assert_eq!(err.message, "missing left hand side operand");
    assert_eq!(err.pos, 1);
    assert_eq!(err.len, 0);
}

#[test]
fn negation_with_a_left_operand_spans_that_operand() {
    let err = failure("a!b");
    assert_eq!(err.message, "unexpected left hand side operand");
    assert_eq!(err.pos, 0);
    assert_eq!(err.len, 1);

    let err = failure("  (ab|c) ! d");
    assert_eq!(err.message, "unexpected left hand side operand");
    assert_eq!(err.pos, 2);
    assert_eq!(err.len, 6);
}

#[test]
fn two_operands_in_a_row_want_an_operator() {
    let err = failure("a bc");
    assert_eq!(err.message, "operator expected");
    assert_eq!(err.pos, 2);
    assert_eq!(err.len, 2);
}

#[test]
fn group_closed_before_the_end_wants_an_operator() {
    let tokens = tokenize("(a))b").unwrap();
    let err = parse_paranthesis_expression(&tokens).err().unwrap();
    assert_eq!(err.message, "operator expected");
    assert_eq!(err.pos, 4);
    assert_eq!(err.len, 1);
}

#[test]
fn open_parenthesis_wants_its_closing_one() {
    let err = failure("(a");
    assert_eq!(err.message, "\")\" expected");
    assert_eq!(err.pos, 2);
    assert_eq!(err.len, 0);

    let err = failure("((a | bc)");
    assert_eq!(err.message, "\")\" expected");
    assert_eq!(err.pos, 9);
    assert_eq!(err.len, 0);

    let tokens = tokenize("(").unwrap();
    let err = parse_paranthesis_expression(&tokens).err().unwrap();
    assert_eq!(err.message, "\")\" expected");
    assert_eq!(err.pos, 1);
    assert_eq!(err.len, 0);
}

#[test]
fn unknown_operator_is_named_in_the_error() {
    let tokens = vec![
        Token::Variable(0, String::from("a")),
        Token::Operator(2, String::from("<=")),
        Token::Variable(5, String::from("b")),
    ];
    let err = parse(&tokens).err().unwrap();
    assert_eq!(err.message, "unknown operator '<='");
    assert_eq!(err.pos, 2);
    assert_eq!(err.len, 2);

    let tokens = vec![
        Token::Operator(0, String::from("~")),
        Token::Variable(1, String::from("b")),
    ];
    let err = parse(&tokens).err().unwrap();
    assert_eq!(err.message, "unknown operator '~'");
    assert_eq!(err.pos, 0);
    assert_eq!(err.len, 1);
}

#[test]
fn unknown_operator_binds_as_loosely_as_equality() {
    let tokens = vec![
        Token::Variable(0, String::from("a")),
        Token::Operator(1, String::from("&")),
        Token::Variable(2, String::from("b")),
        Token::Operator(3, String::from("?")),
        Token::Variable(4, String::from("c")),
    ];
    assert_eq!(find_top_level_operator(&tokens), Some(3));
    let err = parse(&tokens).err().unwrap();
    assert_eq!(err.message, "unknown operator '?'");
    assert_eq!(err.pos, 3);
    assert_eq!(err.len, 1);
}

#[test]
fn operator_at_a_place_that_holds_none_is_unknown() {
    let tokens = tokenize("a b c").unwrap();
    let err = parse_operator_expression(&tokens, 1).err().unwrap();
    assert_eq!(err.message, "unknown operator 'b'");
    assert_eq!(err.pos, 2);
    assert_eq!(err.len, 1);
}

#[test]
fn error_in_the_left_operand_comes_first() {
    let err = failure("(a & b | c");
    assert_eq!(err.message, "\")\" expected");
    let err = failure("a & | b &");
    assert_eq!(err.message, "missing right hand side operand");
    assert_eq!(err.pos, 3);
    let err = failure("& a | b &");
    assert_eq!(err.message, "missing left hand side operand");
    assert_eq!(err.pos, 0);
}

#[test]
fn tokenizer_errors_pass_through() {
    let err = failure("a & #");
    assert_eq!(err.message, "Invalid character '#'");
    assert_eq!(err.pos, 4);
    assert_eq!(err.len, 1);
    let err = failure(" ");
    assert_eq!(err.message, "no input.");
    assert_eq!(err.pos, 1);
}

#[test]
fn negation_binds_tighter_than_and() {
    assert_eq!(dump("!a & b"), "And(Neg(Variable(a)),Variable(b))");
    assert_eq!(dump("a & !b"), "And(Variable(a),Neg(Variable(b)))");
}

#[test]
fn and_binds_tighter_than_or_and_xor() {
    assert_eq!(dump("a | b & c"), "Or(Variable(a),And(Variable(b),Variable(c)))");
    assert_eq!(dump("a & b | c"), "Or(And(Variable(a),Variable(b)),Variable(c))");
    assert_eq!(dump("a ^ b & c"), "Xor(Variable(a),And(Variable(b),Variable(c)))");
    assert_eq!(dump("a & b ^ c"), "Xor(And(Variable(a),Variable(b)),Variable(c))");
}

#[test]
fn or_and_xor_bind_tighter_than_equality_and_implication() {
    assert_eq!(dump("a = b | c"), "Eq(Variable(a),Or(Variable(b),Variable(c)))");
    assert_eq!(dump("a ^ b => c"), "Imp(Xor(Variable(a),Variable(b)),Variable(c))");
}

#[test]
fn first_of_equally_loose_operators_is_applied_last() {
    assert_eq!(dump("a | b ^ c"), "Or(Variable(a),Xor(Variable(b),Variable(c)))");
    assert_eq!(dump("a ^ b | c"), "Xor(Variable(a),Or(Variable(b),Variable(c)))");
    assert_eq!(dump("a => b => c"), "Imp(Variable(a),Imp(Variable(b),Variable(c)))");
    assert_eq!(dump("a = b => c"), "Eq(Variable(a),Imp(Variable(b),Variable(c)))");
    assert_eq!(dump("a => b = c"), "Imp(Variable(a),Eq(Variable(b),Variable(c)))");
    assert_eq!(dump("a & b & c"), "And(Variable(a),And(Variable(b),Variable(c)))");
}

#[test]
fn all_operators_in_one_expression() {
    assert_eq!(
        dump("!a & b ^ c | d = e => f"),
        "Eq(Xor(And(Neg(Variable(a)),Variable(b)),Or(Variable(c),Variable(d))),\
         Imp(Variable(e),Variable(f)))"
    );
}

#[test]
fn double_negation_nests() {
    assert_eq!(dump("!!a"), "Neg(Neg(Variable(a)))");
    assert_eq!(dump("!(!1)"), "Neg(Neg(Value(1)))");
}

#[test]
fn parentheses_decide_the_grouping() {
    assert_eq!(dump("(a | b) & c"), "And(Or(Variable(a),Variable(b)),Variable(c))");
    assert_eq!(dump("!(a & b)"), "Neg(And(Variable(a),Variable(b)))");
    assert_eq!(dump("(a => b) => c"), "Imp(Imp(Variable(a),Variable(b)),Variable(c))");
}

#[test]
fn redundant_parentheses_change_nothing() {
    assert_eq!(dump("a&b"), dump("(a&b)"));
    assert_eq!(dump("a&b"), dump("((a&b))"));
    assert_eq!(dump("a&b"), dump("(a)&(b)"));
    assert_eq!(dump("a | b & c"), dump("a | (b & c)"));
    assert_eq!(dump("a | b & c"), dump("(a | ((b) & c))"));
    assert_eq!(dump("!a"), dump("!(a)"));
    assert_eq!(dump("1"), dump("(1)"));
}

#[test]
fn single_negation_dumps_and_prints() {
    let tree = parse_expr("!a").unwrap();
    assert_eq!(tree.to_dump_string(), "Neg(Variable(a))");
    assert_eq!(tree.to_string(), "!a");
}

#[test]
fn text_is_printed_with_the_parentheses_it_needs() {
    let printed = |text: &str| parse_expr(text).unwrap().to_string();
    assert_eq!(printed("a&b|c"), "a & b | c");
    assert_eq!(printed("(a|b)&c"), "(a | b) & c");
    assert_eq!(printed("a|(b&c)"), "a | b & c");
    assert_eq!(printed("a|b|c"), "a | (b | c)");
    assert_eq!(printed("(a|b)|c"), "(a | b) | c");
    assert_eq!(printed("a^b|c"), "a ^ (b | c)");
    assert_eq!(printed("!(a)"), "!a");
    assert_eq!(printed("!!a"), "!(!a)");
    assert_eq!(printed("!(a=>b)"), "!(a => b)");
    assert_eq!(printed("(a=b)=>!c&1"), "(a = b) => !c & 1");
    assert_eq!(printed("((0))"), "0");
}

fn assignments(tree: &Expression, names: &[&str]) -> Vec<bool> {
    let mut set = NameSet::new();
    for name in names {
        set.insert(String::from(*name));
    }
    let mut ctxt = EvaluationContext::new(set);
    let mut results = vec![];
    for mask in 0..(1u128 << names.len()) {
        ctxt.set_not_presets(mask);
        results.push(tree.eval(&ctxt));
    }
    results
}

#[test]
fn printing_and_reading_again_gives_the_same_tree() {
    let texts = [
        "a",
        "1",
        "!a",
        "a|b|c",
        "(a|b)|c",
        "a=>b=>c",
        "(a=>b)=>c",
        "!a & b ^ c | d = e => f",
        "!(a & (b ^ c)) | !!d = (e => f)",
        "(a|b&c) = ((a|b)&c)",
        "((a = b) = c) ^ 0",
    ];
    for text in texts {
        let tree = parse_expr(text).unwrap();
        let again = parse_expr(&tree.to_string()).unwrap();
        assert_eq!(again.to_dump_string(), tree.to_dump_string());
        assert_eq!(again.to_string(), tree.to_string());
        let names = ["a", "b", "c", "d", "e", "f"];
        assert_eq!(assignments(&again, &names), assignments(&tree, &names));
    }
}

#[test]
fn split_is_forced_where_the_caller_says() {
    let tokens = tokenize("a|b&c").unwrap();
    let natural = parse_operator_expression(&tokens, 1).unwrap();
    assert_eq!(natural.to_dump_string(), "Or(Variable(a),And(Variable(b),Variable(c)))");
    let forced = parse_operator_expression(&tokens, 3).unwrap();
    assert_eq!(forced.to_dump_string(), "And(Or(Variable(a),Variable(b)),Variable(c))");
}

#[test]
fn operators_inside_parentheses_are_not_split_at() {
    let tokens = tokenize("(a=b)&(c|d)").unwrap();
    assert_eq!(find_top_level_operator(&tokens), Some(5));
    let tokens = tokenize("a)&(b").unwrap();
    assert_eq!(find_top_level_operator(&tokens), None);
    let tokens = tokenize(")a(&b").unwrap();
    assert_eq!(find_top_level_operator(&tokens), Some(3));
}
