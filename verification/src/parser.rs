//! Reading tokens as an expression, by operator precedence.

use crate::alphabet::same_text;
use crate::expression::{
    BinaryExpression, BinaryOperator, Expression, Formula, UnaryExpression, UnaryOperator, Value,
    Variable,
};
use crate::tokens::{
    token_len, token_name, token_pos, tokenize, tokenize_spec, views, well_positioned, ParseError,
    ParseErrorView, Token, TokenView,
};
use vstd::prelude::*;
use vstd::slice::slice_subrange;

verus! {

/// `name` is the one character `c`.
pub open spec fn spells(name: Seq<char>, c: char) -> bool {
    name.len() == 1 && name[0] == c
}

/// How tightly the operator written `name` binds when an expression is
/// split: `!` tightest, then `&`, then `|` and `^`, then `=` and `=>`. A
/// name that is no operator binds as loosely as `=` does, so that the parser
/// comes to it and reports it.
pub open spec fn rank(name: Seq<char>) -> nat {
    if spells(name, '!') {
        3
    } else if spells(name, '&') {
        2
    } else if spells(name, '|') || spells(name, '^') {
        1
    } else {
        0
    }
}

/// The binary operator written `name`, if there is one.
pub open spec fn binary_operator(name: Seq<char>) -> Option<BinaryOperator> {
    if spells(name, '|') {
        Some(BinaryOperator::OR)
    } else if spells(name, '&') {
        Some(BinaryOperator::AND)
    } else if spells(name, '^') {
        Some(BinaryOperator::XOR)
    } else if spells(name, '=') {
        Some(BinaryOperator::EQ)
    } else if name.len() == 2 && name[0] == '=' && name[1] == '>' {
        Some(BinaryOperator::IMP)
    } else {
        None
    }
}

/// What a token adds to the depth of parentheses.
pub open spec fn nesting(token: TokenView) -> int {
    match token {
        TokenView::Open { .. } => 1,
        TokenView::Close { .. } => -1,
        _ => 0,
    }
}

/// The depth of parentheses after the first `i` tokens: how many were
/// opened, less how many were closed.
pub open spec fn depth(tokens: Seq<TokenView>, i: int) -> int
    decreases i,
{
    if i <= 0 {
        0
    } else {
        depth(tokens, i - 1) + nesting(tokens[i - 1])
    }
}

/// Token `i` is an operator outside all parentheses.
pub open spec fn is_top_level_operator(tokens: Seq<TokenView>, i: int) -> bool {
    &&& 0 <= i < tokens.len()
    &&& tokens[i] is Operator
    &&& depth(tokens, i) == 0
}

/// Token `i` is where the expression is split: the first of the operators
/// outside all parentheses that bind most loosely.
pub open spec fn is_split(tokens: Seq<TokenView>, i: int) -> bool {
    &&& is_top_level_operator(tokens, i)
    &&& forall|j: int| #[trigger]
        is_top_level_operator(tokens, j) ==> rank(tokens[i].name()) <= rank(tokens[j].name())
    &&& forall|j: int| #[trigger]
        is_top_level_operator(tokens, j) && j < i ==> rank(tokens[i].name()) < rank(
            tokens[j].name(),
        )
}

/// Where the expression is split, if it holds an operator outside all
/// parentheses.
pub open spec fn split_point(tokens: Seq<TokenView>) -> Option<int> {
    if exists|i: int| is_split(tokens, i) {
        Some(choose|i: int| is_split(tokens, i))
    } else {
        None
    }
}

/// An expression is split at one place at most.
pub proof fn lemma_split_unique(tokens: Seq<TokenView>, i: int, j: int)
    requires
        is_split(tokens, i),
        is_split(tokens, j),
    ensures
        i == j,
{
}

/// Token `i`, with tokens after it, closes more parentheses than were
/// opened.
pub open spec fn closes_early(tokens: Seq<TokenView>, i: int) -> bool {
    0 <= i && i + 1 < tokens.len() && depth(tokens, i + 1) < 0
}

/// The first token from `i` on that closes early; the number of tokens where
/// none does.
pub open spec fn first_early_close(tokens: Seq<TokenView>, i: int) -> int
    decreases tokens.len() - i,
{
    if i < 0 || i + 1 >= tokens.len() {
        tokens.len() as int
    } else if closes_early(tokens, i) {
        i
    } else {
        first_early_close(tokens, i + 1)
    }
}

/// The error for no tokens at all.
pub open spec fn missing_input() -> ParseErrorView {
    ParseErrorView { message: "missing input"@, pos: 0, len: 0 }
}

/// The error for a single token that is neither a value nor a variable;
/// it spans the token.
pub open spec fn operand_expected(token: TokenView) -> ParseErrorView {
    ParseErrorView { message: "value or variable expected"@, pos: token.pos(), len: token.len() }
}

/// The error for a token that stands where an operator should; it spans
/// the token.
pub open spec fn operator_expected(token: TokenView) -> ParseErrorView {
    ParseErrorView { message: "operator expected"@, pos: token.pos(), len: token.len() }
}

/// The error for a parenthesis that is left open; it points at `pos`.
pub open spec fn closing_expected(pos: int) -> ParseErrorView {
    ParseErrorView { message: "\")\" expected"@, pos, len: 0 }
}

/// The error for an operator without tokens after it; it points just past
/// the operator.
pub open spec fn missing_right(operator: TokenView) -> ParseErrorView {
    ParseErrorView { message: "missing right hand side operand"@, pos: operator.end(), len: 0 }
}

/// The error for a binary operator without tokens before it; it points at
/// the operator.
pub open spec fn missing_left(operator: TokenView) -> ParseErrorView {
    ParseErrorView { message: "missing left hand side operand"@, pos: operator.pos(), len: 0 }
}

/// The error for `!` with tokens before it; it spans those tokens, from
/// the `first` to the `last`.
pub open spec fn unexpected_left(first: TokenView, last: TokenView) -> ParseErrorView {
    ParseErrorView {
        message: "unexpected left hand side operand"@,
        pos: first.pos(),
        len: last.end() - first.pos(),
    }
}

/// The error for a token that is split at and is no operator; it spans the
/// token.
pub open spec fn unknown_operator(operator: TokenView) -> ParseErrorView {
    ParseErrorView {
        message: "unknown operator '"@ + operator.name() + "'"@,
        pos: operator.pos(),
        len: operator.len(),
    }
}

/// What a single token is as an expression.
pub open spec fn parse_single_spec(token: TokenView) -> Result<Formula, ParseErrorView> {
    match token {
        TokenView::Value { value, .. } => Ok(Formula::Value(value)),
        TokenView::Variable { name, .. } => Ok(Formula::Variable(name)),
        _ => Err(operand_expected(token)),
    }
}

/// What the operator at `op_pos` makes of its operands, `left` if it has
/// tokens before it and `right`.
pub open spec fn combine_spec(
    tokens: Seq<TokenView>,
    op_pos: int,
    left: Option<Formula>,
    right: Formula,
) -> Result<Formula, ParseErrorView> {
    let operator = tokens[op_pos];
    let name = operator.name();
    match left {
        Some(left) => if spells(name, '!') {
            Err(unexpected_left(tokens[0], tokens[op_pos - 1]))
        } else {
            match binary_operator(name) {
                Some(op) => Ok(Formula::Binary(op, Box::new(left), Box::new(right))),
                None => Err(unknown_operator(operator)),
            }
        },
        None => if spells(name, '!') {
            Ok(Formula::Unary(UnaryOperator::NEG, Box::new(right)))
        } else if binary_operator(name) is Some {
            Err(missing_left(operator))
        } else {
            Err(unknown_operator(operator))
        },
    }
}

/// What the tokens are as an expression: the tree, or the first error.
pub open spec fn parse_spec(tokens: Seq<TokenView>) -> Result<Formula, ParseErrorView>
    decreases tokens.len(), 1nat,
{
    if tokens.len() == 0 {
        Err(missing_input())
    } else if tokens.len() == 1 {
        parse_single_spec(tokens[0])
    } else {
        match split_point(tokens) {
            Some(op_pos) => parse_operator_spec(tokens, op_pos),
            None => parse_group_spec(tokens),
        }
    }
}

/// What the tokens are as an expression whose outermost operator is the
/// token at `op_pos`. An error in the left operand comes before one in the
/// right operand, and both before an error of the operator itself.
pub open spec fn parse_operator_spec(tokens: Seq<TokenView>, op_pos: int) -> Result<
    Formula,
    ParseErrorView,
>
    decreases tokens.len(), 0nat,
    when 0 <= op_pos < tokens.len()
{
    let left = if op_pos > 0 {
        Some(parse_spec(tokens.subrange(0, op_pos)))
    } else {
        None
    };
    let right = if op_pos < tokens.len() - 1 {
        Some(parse_spec(tokens.subrange(op_pos + 1, tokens.len() as int)))
    } else {
        None
    };
    match (left, right) {
        (Some(Err(e)), _) => Err(e),
        (_, Some(Err(e))) => Err(e),
        (_, None) => Err(missing_right(tokens[op_pos])),
        (Some(Ok(left)), Some(Ok(right))) => combine_spec(tokens, op_pos, Some(left), right),
        (None, Some(Ok(right))) => combine_spec(tokens, op_pos, None, right),
    }
}

/// What the tokens are as an expression in parentheses: the expression
/// between the first and the last token, unless the first token opens no
/// parenthesis, one of the tokens closes early, or a parenthesis is left
/// open.
pub open spec fn parse_group_spec(tokens: Seq<TokenView>) -> Result<Formula, ParseErrorView>
    recommends
        tokens.len() >= 1,
        tokens[0] is Open || tokens.len() >= 2,
    decreases tokens.len(), 0nat,
{
    if tokens.len() == 0 || !(tokens[0] is Open) {
        Err(operator_expected(tokens[1]))
    } else if first_early_close(tokens, 0) < tokens.len() {
        Err(operator_expected(tokens[first_early_close(tokens, 0) + 1]))
    } else if depth(tokens, tokens.len() as int) > 0 {
        Err(closing_expected(tokens.last().end()))
    } else {
        proof {
            reveal_with_fuel(depth, 2);
        }
        parse_spec(tokens.subrange(1, tokens.len() - 1))
    }
}

/// What the text is as an expression: the tree, or the first error of
/// splitting it into tokens or of reading them.
pub open spec fn parse_text(text: Seq<char>) -> Result<Formula, ParseErrorView> {
    match tokenize_spec(text) {
        Ok(tokens) => parse_spec(tokens),
        Err(e) => Err(e),
    }
}

/// The mathematical value of what a parsing function returns.
pub open spec fn outcome(r: Result<Box<Expression>, ParseError>) -> Result<
    Formula,
    ParseErrorView,
> {
    match r {
        Ok(tree) => Ok(tree@),
        Err(e) => Err(e@),
    }
}

/// The values of a part of a token sequence are that part of its values.
proof fn lemma_views_subrange(tokens: Seq<Token>, from: int, to: int)
    requires
        0 <= from <= to <= tokens.len(),
    ensures
        views(tokens.subrange(from, to)) == views(tokens).subrange(from, to),
{
    assert(views(tokens.subrange(from, to)) =~= views(tokens).subrange(from, to));
}

/// A part of a well-positioned token sequence is well positioned.
proof fn lemma_well_positioned_subrange(tokens: Seq<TokenView>, from: int, to: int)
    requires
        0 <= from <= to <= tokens.len(),
        well_positioned(tokens),
    ensures
        well_positioned(tokens.subrange(from, to)),
{
    let part = tokens.subrange(from, to);
    assert forall|i: int| 0 <= i < part.len() implies 0 <= (#[trigger] part[i]).pos()
        && part[i].end() <= usize::MAX by {
        assert(part[i] == tokens[from + i]);
    }
    assert forall|i: int, j: int| 0 <= i < j < part.len() implies (#[trigger] part[i]).end() <= (
    #[trigger] part[j]).pos() by {
        assert(part[i] == tokens[from + i]);
        assert(part[j] == tokens[from + j]);
    }
}

/// From `i` up to `j` no token closes early, and `j` does or ends the
/// search: then `j` is the first early close from `i` on.
proof fn lemma_first_early_close(tokens: Seq<TokenView>, i: int, j: int)
    requires
        0 <= i <= j,
        forall|k: int| i <= k < j ==> !closes_early(tokens, k),
        closes_early(tokens, j) || j == tokens.len(),
    ensures
        first_early_close(tokens, i) == j,
    decreases j - i,
{
    if i < j {
        lemma_first_early_close(tokens, i + 1, j);
    }
}

/// A name is an operator as a string literal holds it exactly when it is
/// spelled like the operator.
proof fn lemma_operator_literals(name: Seq<char>)
    ensures
        (name == "!"@) == spells(name, '!'),
        (name == "&"@) == spells(name, '&'),
        (name == "|"@) == spells(name, '|'),
        (name == "^"@) == spells(name, '^'),
        (name == "="@) == spells(name, '='),
        (name == "=>"@) == (name.len() == 2 && name[0] == '=' && name[1] == '>'),
{
    reveal_strlit("!");
    reveal_strlit("&");
    reveal_strlit("|");
    reveal_strlit("^");
    reveal_strlit("=");
    reveal_strlit("=>");
    if spells(name, '!') {
        assert(name =~= "!"@);
    }
    if spells(name, '&') {
        assert(name =~= "&"@);
    }
    if spells(name, '|') {
        assert(name =~= "|"@);
    }
    if spells(name, '^') {
        assert(name =~= "^"@);
    }
    if spells(name, '=') {
        assert(name =~= "="@);
    }
    if name.len() == 2 && name[0] == '=' && name[1] == '>' {
        assert(name =~= "=>"@);
    }
}

/// How tightly the operator written `operator` binds when an expression is
/// split.
fn get_precedence(operator: &str) -> (r: usize)
    ensures
        r == rank(operator@),
{
    proof {
        lemma_operator_literals(operator@);
    }
    if same_text(operator, "!") {
        3
    } else if same_text(operator, "&") {
        2
    } else if same_text(operator, "|") || same_text(operator, "^") {
        1
    } else {
        0
    }
}

/// Whether the operator `new` is to replace `current` as the place to split
/// at: where there is no operator yet, or one that binds tighter.
fn has_higher_precedence(current: Option<(usize, &Token)>, new: &Token) -> (r: bool)
    ensures
        r == match current {
            Some((_, current)) => current@ is Operator ==> new@ is Operator && rank(
                current@.name(),
            ) > rank(new@.name()),
            None => true,
        },
{
    match current {
        Some((_, Token::Operator(_, cname))) => match new {
            Token::Operator(_, nname) => get_precedence(cname.as_str()) > get_precedence(
                nname.as_str(),
            ),
            _ => false,
        },
        _ => true,
    }
}

/// Finds where the expression is split: the first of the operators outside
/// all parentheses that bind most loosely.
pub fn find_top_level_operator(tokens: &[Token]) -> (r: Option<usize>)
    ensures
        match r {
            Some(i) => is_split(views(tokens@), i as int),
            None => forall|j: int| !is_top_level_operator(views(tokens@), j),
        },
        split_point(views(tokens@)) == match r {
            Some(i) => Some(i as int),
            None => None,
        },
{
    let ghost ts = views(tokens@);
    let mut opens: usize = 0;
    let mut closes: usize = 0;
    let mut result: Option<(usize, &Token)> = None;
    for i in 0..tokens.len()
        invariant
            ts == views(tokens@),
            opens <= i,
            closes <= i,
            opens - closes == depth(ts, i as int),
            match result {
                Some((at, token)) => {
                    &&& at < i
                    &&& *token == tokens@[at as int]
                    &&& is_top_level_operator(ts, at as int)
                    &&& forall|j: int| #[trigger]
                        is_top_level_operator(ts, j) && j < i ==> rank(ts[at as int].name())
                            <= rank(ts[j].name())
                    &&& forall|j: int| #[trigger]
                        is_top_level_operator(ts, j) && j < at ==> rank(ts[at as int].name())
                            < rank(ts[j].name())
                },
                None => forall|j: int| j < i ==> !is_top_level_operator(ts, j),
            },
    {
        let current = &tokens[i];
        assert(ts[i as int] == current@);
        match current {
            Token::Operator(_, _) => if opens == closes {
                if has_higher_precedence(result, current) {
                    result = Some((i, current));
                }
            },
            Token::OpenParanthesis(_) => opens += 1,
            Token::CloseParanthesis(_) => closes += 1,
            _ => {},
        }
    }
    match result {
        Some((pos, _)) => {
            proof {
                assert(is_split(ts, pos as int));
                lemma_split_unique(ts, pos as int, split_point(ts).unwrap());
            }
            Some(pos)
        },
        None => None,
    }
}

/// Reads a single token as an expression: a value or a variable.
pub fn parse_single_token_expression(token: &Token) -> (r: Result<Box<Expression>, ParseError>)
    ensures
        outcome(r) == parse_single_spec(token@),
{
    match token {
        Token::Value(_, value) => Ok(Box::new(Expression::Value(Value::new(*value)))),
        Token::Variable(_, name) => Ok(
            Box::new(Expression::Variable(Variable::new(name.as_str()))),
        ),
        _ => Err(
            ParseError {
                pos: token_pos(token),
                len: token_len(token),
                message: String::from_str("value or variable expected"),
            },
        ),
    }
}

/// The tree of a binary operator with its operands.
fn binary(op: BinaryOperator, left: Box<Expression>, right: Box<Expression>) -> (r: Box<
    Expression,
>)
    ensures
        r@ == Formula::Binary(op, Box::new(left@), Box::new(right@)),
{
    Box::new(Expression::Binary(BinaryExpression::new(op, left, right)))
}

/// Reads the tokens as an expression whose outermost operator is the token
/// at `op_pos`: the tokens before it are its left operand, the tokens after
/// it its right operand.
pub fn parse_operator_expression(tokens: &[Token], op_pos: usize) -> (r: Result<
    Box<Expression>,
    ParseError,
>)
    requires
        op_pos < tokens@.len(),
        well_positioned(views(tokens@)),
    ensures
        outcome(r) == parse_operator_spec(views(tokens@), op_pos as int),
    decreases tokens@.len(), 0nat,
{
    let ghost ts = views(tokens@);
    let token = &tokens[op_pos];
    assert(ts[op_pos as int] == token@);
    let left = if op_pos > 0 {
        proof {
            lemma_views_subrange(tokens@, 0, op_pos as int);
            lemma_well_positioned_subrange(ts, 0, op_pos as int);
        }
        match parse(slice_subrange(tokens, 0, op_pos)) {
            Ok(expr) => Some(expr),
            Err(err) => return Err(err),
        }
    } else {
        None
    };
    let right = if op_pos < tokens.len() - 1 {
        proof {
            lemma_views_subrange(tokens@, op_pos + 1, tokens@.len() as int);
            lemma_well_positioned_subrange(ts, op_pos + 1, tokens@.len() as int);
        }
        match parse(slice_subrange(tokens, op_pos + 1, tokens.len())) {
            Ok(expr) => Some(expr),
            Err(err) => return Err(err),
        }
    } else {
        None
    };
    let right = match right {
        Some(right) => right,
        None => {
            return Err(
                ParseError {
                    pos: token_pos(token) + token_len(token),
                    len: 0,
                    message: String::from_str("missing right hand side operand"),
                },
            );
        },
    };
    let name = token_name(token);
    proof {
        lemma_operator_literals(name@);
    }
    match left {
        Some(left) => {
            if same_text(name, "!") {
                let first = &tokens[0];
                let last = &tokens[op_pos - 1];
                assert(ts[0] == first@);
                assert(ts[op_pos - 1] == last@);
                Err(
                    ParseError {
                        pos: token_pos(first),
                        len: token_pos(last) + token_len(last) - token_pos(first),
                        message: String::from_str("unexpected left hand side operand"),
                    },
                )
            } else if same_text(name, "|") {
                Ok(binary(BinaryOperator::OR, left, right))
            } else if same_text(name, "&") {
                Ok(binary(BinaryOperator::AND, left, right))
            } else if same_text(name, "^") {
                Ok(binary(BinaryOperator::XOR, left, right))
            } else if same_text(name, "=") {
                Ok(binary(BinaryOperator::EQ, left, right))
            } else if same_text(name, "=>") {
                Ok(binary(BinaryOperator::IMP, left, right))
            } else {
                Err(
                    ParseError {
                        pos: token_pos(token),
                        len: token_len(token),
                        message: String::from_str("unknown operator '").concat(name).concat("'"),
                    },
                )
            }
        },
        None => {
            if same_text(name, "!") {
                Ok(Box::new(Expression::Unary(UnaryExpression::new(UnaryOperator::NEG, right))))
            } else if same_text(name, "|") || same_text(name, "&") || same_text(name, "^")
                || same_text(name, "=") || same_text(name, "=>") {
                Err(
                    ParseError {
                        pos: token_pos(token),
                        len: 0,
                        message: String::from_str("missing left hand side operand"),
                    },
                )
            } else {
                Err(
                    ParseError {
                        pos: token_pos(token),
                        len: token_len(token),
                        message: String::from_str("unknown operator '").concat(name).concat("'"),
                    },
                )
            }
        },
    }
}

/// Reads the tokens as an expression in parentheses.
pub fn parse_paranthesis_expression(tokens: &[Token]) -> (r: Result<Box<Expression>, ParseError>)
    requires
        tokens@.len() >= 1,
        views(tokens@)[0] is Open || tokens@.len() >= 2,
        well_positioned(views(tokens@)),
    ensures
        outcome(r) == parse_group_spec(views(tokens@)),
    decreases tokens@.len(), 0nat,
{
    let ghost ts = views(tokens@);
    assert(ts[0] == tokens@[0]@);
    match tokens[0] {
        Token::OpenParanthesis(_) => (),
        _ => {
            let second = &tokens[1];
            assert(ts[1] == second@);
            return Err(
                ParseError {
                    pos: token_pos(second),
                    len: token_len(second),
                    message: String::from_str("operator expected"),
                },
            );
        },
    }
    let mut opens: usize = 0;
    let mut closes: usize = 0;
    for i in 0..tokens.len()
        invariant
            ts == views(tokens@),
            well_positioned(ts),
            opens <= i,
            closes <= i,
            opens - closes == depth(ts, i as int),
            ts.len() >= 1,
            ts[0] is Open,
            forall|k: int| 0 <= k < i ==> !closes_early(ts, k),
    {
        assert(ts[i as int] == tokens@[i as int]@);
        assert(depth(ts, i + 1) == depth(ts, i as int) + nesting(ts[i as int]));
        assert(depth(ts, i as int) >= 0) by {
            if i > 0 {
                assert(!closes_early(ts, i - 1));
            }
        }
        match &tokens[i] {
            Token::OpenParanthesis(_) => opens += 1,
            Token::CloseParanthesis(_) => {
                closes += 1;
                if closes > opens && i + 1 < tokens.len() {
                    let next = &tokens[i + 1];
                    proof {
                        assert(ts[i + 1] == next@);
                        assert(closes_early(ts, i as int));
                        lemma_first_early_close(ts, 0, i as int);
                    }
                    return Err(
                        ParseError {
                            pos: token_pos(next),
                            len: token_len(next),
                            message: String::from_str("operator expected"),
                        },
                    );
                }
            },
            _ => {},
        }
    }
    proof {
        lemma_first_early_close(ts, 0, ts.len() as int);
    }
    if opens > closes {
        let last = &tokens[tokens.len() - 1];
        assert(ts.last() == last@);
        return Err(
            ParseError {
                pos: token_pos(last) + token_len(last),
                len: 0,
                message: String::from_str("\")\" expected"),
            },
        );
    }
    proof {
        reveal_with_fuel(depth, 2);
        lemma_views_subrange(tokens@, 1, tokens@.len() - 1);
        lemma_well_positioned_subrange(ts, 1, tokens@.len() - 1);
    }
    parse(slice_subrange(tokens, 1, tokens.len() - 1))
}

/// Reads the tokens as an expression.
pub fn parse(tokens: &[Token]) -> (r: Result<Box<Expression>, ParseError>)
    requires
        well_positioned(views(tokens@)),
    ensures
        outcome(r) == parse_spec(views(tokens@)),
    decreases tokens@.len(), 1nat,
{
    let ghost ts = views(tokens@);
    if tokens.len() == 0 {
        Err(ParseError { pos: 0, len: 0, message: String::from_str("missing input") })
    } else if tokens.len() == 1 {
        assert(ts[0] == tokens@[0]@);
        parse_single_token_expression(&tokens[0])
    } else {
        match find_top_level_operator(tokens) {
            Some(pos) => parse_operator_expression(tokens, pos),
            None => {
                assert(ts[0] == tokens@[0]@);
                parse_paranthesis_expression(tokens)
            },
        }
    }
}

/// Reads the text of an expression.
pub fn parse_expr(str: &str) -> (r: Result<Box<Expression>, ParseError>)
    ensures
        outcome(r) == parse_text(str@),
{
    match tokenize(str) {
        Ok(tokens) => match parse(tokens.as_slice()) {
            Err(err) => Err(err),
            Ok(expr) => Ok(expr),
        },
        Err(err) => Err(err),
    }
}

} // verus!
