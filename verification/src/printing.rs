//! Printing an expression and reading it again.

use crate::alphabet::{all_letters, is_letter};
use crate::expression::{BinaryOperator, Formula, UnaryOperator};
use crate::grouping::{
    balanced, binds_at_least, lemma_depth_within, lemma_loosest_operator_splits,
    lemma_negation_applies_last, lemma_nothing_outside, lemma_parsed_is_balanced,
    lemma_redundant_parentheses,
};
use crate::parser::{
    binary_operator, depth, is_top_level_operator, parse_group_spec, parse_operator_spec,
    parse_spec, parse_text, rank, split_point,
};
use crate::tokens::{
    lemma_first_invalid, lemma_no_token_starts, lemma_tokens_named_by_letters, lemma_word_end,
    named_by_letters, starts_token, token_at, tokenize_spec, tokens_before, tokens_of, valid_at,
    word_end, ParseErrorView, TokenView,
};
use vstd::prelude::*;

verus! {

/// The tokens of the text of `formula`, where the text starts at offset
/// `at`.
pub open spec fn text_tokens(formula: Formula, at: int) -> Seq<TokenView>
    decreases formula, 0nat,
{
    match formula {
        Formula::Value(value) => seq![TokenView::Value { pos: at, value }],
        Formula::Variable(name) => seq![TokenView::Variable { pos: at, name }],
        Formula::Unary(UnaryOperator::NEG, arg) => seq![
            TokenView::Operator { pos: at, name: seq!['!'] },
        ] + operand_tokens(*arg, 3, at + 1),
        Formula::Binary(op, left, right) => {
            let symbol_at = at + left.operand_text(op.rank()).len() + 1;
            operand_tokens(*left, op.rank(), at) + seq![
                TokenView::Operator { pos: symbol_at, name: op.symbol() },
            ] + operand_tokens(*right, op.rank(), symbol_at + op.symbol().len() + 1)
        },
    }
}

/// The tokens of the text of `formula` as an operand of an operator of
/// precedence `parent`, where the text starts at offset `at`.
pub open spec fn operand_tokens(formula: Formula, parent: nat, at: int) -> Seq<TokenView>
    decreases formula, 1nat,
{
    if formula.precedence() > parent {
        text_tokens(formula, at)
    } else {
        seq![TokenView::Open { pos: at }] + text_tokens(formula, at + 1) + seq![
            TokenView::Close { pos: at + 1 + formula.text().len() },
        ]
    }
}

/// Where `text` stands in `whole` at offset `at`, a part of `text` stands
/// in `whole` too.
proof fn lemma_part_of_window(
    whole: Seq<char>,
    text: Seq<char>,
    at: int,
    part: Seq<char>,
    offset: int,
)
    requires
        0 <= at,
        at + text.len() <= whole.len(),
        whole.subrange(at, at + text.len()) == text,
        0 <= offset,
        offset + part.len() <= text.len(),
        text.subrange(offset, offset + part.len()) == part,
    ensures
        whole.subrange(at + offset, at + offset + part.len()) == part,
{
    assert forall|i: int| 0 <= i < part.len() implies whole[at + offset + i] == part[i] by {
        assert(text[offset + i] == whole.subrange(at, at + text.len())[offset + i]);
        assert(part[i] == text.subrange(offset, offset + part.len())[i]);
    }
    assert(whole.subrange(at + offset, at + offset + part.len()) =~= part);
}

/// A name between characters that are no letters is one token.
proof fn lemma_name_window(whole: Seq<char>, name: Seq<char>, at: int)
    requires
        name.len() > 0,
        all_letters(name),
        0 <= at,
        at + name.len() <= whole.len(),
        whole.subrange(at, at + name.len()) == name,
        at > 0 ==> !is_letter(whole[at - 1]),
        at + name.len() < whole.len() ==> !is_letter(whole[at + name.len()]),
    ensures
        tokens_before(whole, at + name.len()) == tokens_before(whole, at).push(
            TokenView::Variable { pos: at, name },
        ),
        forall|i: int| at <= i < at + name.len() ==> valid_at(whole, i),
{
    let n = name.len() as int;
    assert forall|k: int| at <= k < at + n implies is_letter(whole[k]) by {
        assert(whole.subrange(at, at + n)[k - at] == whole[k]);
        assert(is_letter(name[k - at]));
    }
    lemma_word_end(whole, at, at + n);
    assert(word_end(whole, at + n) == at + n);
    assert forall|k: int| at + 1 <= k < at + n implies !starts_token(whole, k) by {
        assert(is_letter(whole[k - 1]));
    }
    lemma_no_token_starts(whole, at + 1, at + n);
    assert(starts_token(whole, at));
    assert(token_at(whole, at) == TokenView::Variable { pos: at, name });
}

/// A binary operator between two spaces is one token.
proof fn lemma_symbol_window(whole: Seq<char>, op: BinaryOperator, at: int)
    requires
        0 <= at,
        at + op.symbol().len() + 2 <= whole.len(),
        whole.subrange(at, at + op.symbol().len() + 2) == seq![' '] + op.symbol() + seq![' '],
    ensures
        tokens_before(whole, at + op.symbol().len() + 2) == tokens_before(whole, at).push(
            TokenView::Operator { pos: at + 1, name: op.symbol() },
        ),
        forall|i: int| at <= i < at + op.symbol().len() + 2 ==> valid_at(whole, i),
{
    let symbol = op.symbol();
    let m = symbol.len() as int;
    let text = seq![' '] + symbol + seq![' '];
    assert forall|i: int| 0 <= i < m + 2 implies whole[at + i] == text[i] by {
        assert(whole.subrange(at, at + m + 2)[i] == whole[at + i]);
    }
    assert(whole[at] == text[0]);
    assert(whole[at + 1] == text[1]);
    assert(whole[at + 2] == text[2]);
    assert(!starts_token(whole, at));
    assert(starts_token(whole, at + 1));
    assert(tokens_before(whole, at + 1) == tokens_before(whole, at));
    assert(tokens_before(whole, at + 2) == tokens_before(whole, at + 1).push(
        token_at(whole, at + 1),
    ));
    if m == 2 {
        assert(whole[at + 3] == text[3]);
        assert(token_at(whole, at + 1).name() =~= symbol);
        assert(!starts_token(whole, at + 2));
        assert(!starts_token(whole, at + 3));
        assert(tokens_before(whole, at + 3) == tokens_before(whole, at + 2));
        assert(tokens_before(whole, at + 4) == tokens_before(whole, at + 3));
    } else {
        assert(token_at(whole, at + 1).name() =~= symbol);
        assert(!starts_token(whole, at + 2));
        assert(tokens_before(whole, at + 3) == tokens_before(whole, at + 2));
    }
}

/// The text of a formula with a binary operator is the text of its left
/// operand, the operator between two spaces, and the text of its right
/// operand.
proof fn lemma_binary_text(op: BinaryOperator, left: Formula, right: Formula)
    ensures
        ({
            let text = Formula::Binary(op, Box::new(left), Box::new(right)).text();
            let first = left.operand_text(op.rank());
            let second = right.operand_text(op.rank());
            let middle = seq![' '] + op.symbol() + seq![' '];
            let a = first.len() as int;
            let m = middle.len() as int;
            &&& text.len() == a + m + second.len()
            &&& m == op.symbol().len() + 2
            &&& text.subrange(0, a) == first
            &&& text.subrange(a, a + m) == middle
            &&& text.subrange(a + m, a + m + second.len() as int) == second
        }),
{
    let text = Formula::Binary(op, Box::new(left), Box::new(right)).text();
    let first = left.operand_text(op.rank());
    let second = right.operand_text(op.rank());
    let middle = seq![' '] + op.symbol() + seq![' '];
    let a = first.len() as int;
    let m = middle.len() as int;
    assert(text =~= first + middle + second);
    assert(text.subrange(0, a) =~= first);
    assert(text.subrange(a, a + m) =~= middle);
    assert(text.subrange(a + m, a + m + second.len() as int) =~= second);
}

/// Where the tokens of three windows that follow each other are known, the
/// tokens of the three together are known.
proof fn lemma_three_windows(
    whole: Seq<char>,
    at: int,
    first_end: int,
    middle_end: int,
    end: int,
    first: Seq<TokenView>,
    middle: TokenView,
    second: Seq<TokenView>,
)
    requires
        tokens_before(whole, first_end) == tokens_before(whole, at) + first,
        tokens_before(whole, middle_end) == tokens_before(whole, first_end).push(middle),
        tokens_before(whole, end) == tokens_before(whole, middle_end) + second,
    ensures
        tokens_before(whole, end) == tokens_before(whole, at) + (first + seq![middle] + second),
{
    assert(tokens_before(whole, end) =~= tokens_before(whole, at) + (first + seq![middle]
        + second));
}

/// A value in a longer text is one token.
proof fn lemma_value_window(whole: Seq<char>, value: bool, at: int)
    requires
        0 <= at < whole.len(),
        whole[at] == Formula::Value(value).text()[0],
    ensures
        tokens_before(whole, at + 1) == tokens_before(whole, at) + text_tokens(
            Formula::Value(value),
            at,
        ),
        valid_at(whole, at),
{
    assert(tokens_before(whole, at + 1) =~= tokens_before(whole, at) + text_tokens(
        Formula::Value(value),
        at,
    ));
}

/// A negation in a longer text: `!` is a token, and the tokens of the
/// operand follow.
proof fn lemma_negation_window(whole: Seq<char>, arg: Formula, at: int)
    requires
        0 <= at,
        at + 1 + arg.operand_text(3).len() <= whole.len(),
        whole[at] == '!',
        tokens_before(whole, at + 1 + arg.operand_text(3).len()) == tokens_before(whole, at + 1)
            + operand_tokens(arg, 3, at + 1),
    ensures
        tokens_before(whole, at + 1 + arg.operand_text(3).len()) == tokens_before(whole, at)
            + text_tokens(Formula::Unary(UnaryOperator::NEG, Box::new(arg)), at),
        valid_at(whole, at),
{
    let operator = TokenView::Operator { pos: at, name: seq!['!'] };
    assert(token_at(whole, at) == operator);
    assert(tokens_before(whole, at + 1) == tokens_before(whole, at).push(operator));
    lemma_three_windows(
        whole,
        at,
        at,
        at + 1,
        at + 1 + arg.operand_text(3).len(),
        Seq::empty(),
        operator,
        operand_tokens(arg, 3, at + 1),
    );
    assert(Seq::<TokenView>::empty() + seq![operator] + operand_tokens(arg, 3, at + 1)
        =~= text_tokens(Formula::Unary(UnaryOperator::NEG, Box::new(arg)), at));
}

/// Where the text of a negation stands in a longer text, `!` stands there
/// with the text of the operand after it.
proof fn lemma_negation_parts(whole: Seq<char>, arg: Formula, at: int)
    requires
        0 <= at,
        at + Formula::Unary(UnaryOperator::NEG, Box::new(arg)).text().len() <= whole.len(),
        whole.subrange(at, at + Formula::Unary(UnaryOperator::NEG, Box::new(arg)).text().len())
            == Formula::Unary(UnaryOperator::NEG, Box::new(arg)).text(),
    ensures
        Formula::Unary(UnaryOperator::NEG, Box::new(arg)).text().len() == 1 + arg.operand_text(
            3,
        ).len(),
        whole[at] == '!',
        whole.subrange(at + 1, at + 1 + arg.operand_text(3).len()) == arg.operand_text(3),
{
    let text = Formula::Unary(UnaryOperator::NEG, Box::new(arg)).text();
    let operand = arg.operand_text(3);
    assert(text == seq!['!'] + operand);
    assert(whole.subrange(at, at + text.len())[0] == whole[at]);
    assert(text.subrange(1, 1 + operand.len() as int) =~= operand);
    lemma_part_of_window(whole, text, at, operand, 1);
}

/// The tokens of a formula with a binary operator in a longer text are the
/// tokens of its left operand, the operator, and the tokens of its right
/// operand.
proof fn lemma_binary_window(
    whole: Seq<char>,
    op: BinaryOperator,
    left: Formula,
    right: Formula,
    at: int,
)
    requires
        ({
            let a = left.operand_text(op.rank()).len() as int;
            let m = op.symbol().len() + 2;
            let b = right.operand_text(op.rank()).len() as int;
            &&& tokens_before(whole, at + a) == tokens_before(whole, at) + operand_tokens(
                left,
                op.rank(),
                at,
            )
            &&& tokens_before(whole, at + a + m) == tokens_before(whole, at + a).push(
                TokenView::Operator { pos: at + a + 1, name: op.symbol() },
            )
            &&& tokens_before(whole, at + a + m + b) == tokens_before(whole, at + a + m)
                + operand_tokens(right, op.rank(), at + a + m)
        }),
    ensures
        ({
            let formula = Formula::Binary(op, Box::new(left), Box::new(right));
            tokens_before(whole, at + formula.text().len()) == tokens_before(whole, at)
                + text_tokens(formula, at)
        }),
{
    let a = left.operand_text(op.rank()).len() as int;
    let m = op.symbol().len() + 2;
    let b = right.operand_text(op.rank()).len() as int;
    lemma_binary_text(op, left, right);
    lemma_three_windows(
        whole,
        at,
        at + a,
        at + a + m,
        at + a + m + b,
        operand_tokens(left, op.rank(), at),
        TokenView::Operator { pos: at + a + 1, name: op.symbol() },
        operand_tokens(right, op.rank(), at + a + m),
    );
}

/// Where the text of a formula stands in a longer text, between characters
/// that are no letters, the tokens that start within it are the tokens of
/// the formula, and each of its characters belongs to one.
proof fn lemma_text_window(whole: Seq<char>, formula: Formula, at: int)
    requires
        formula.well_named(),
        0 <= at,
        at + formula.text().len() <= whole.len(),
        whole.subrange(at, at + formula.text().len()) == formula.text(),
        at > 0 ==> !is_letter(whole[at - 1]),
        at + formula.text().len() < whole.len() ==> !is_letter(
            whole[at + formula.text().len()],
        ),
    ensures
        tokens_before(whole, at + formula.text().len()) == tokens_before(whole, at) + text_tokens(
            formula,
            at,
        ),
        forall|i: int| at <= i < at + formula.text().len() ==> valid_at(whole, i),
    decreases formula, 0nat,
{
    match formula {
        Formula::Value(value) => {
            assert(whole.subrange(at, at + formula.text().len())[0] == whole[at]);
            lemma_value_window(whole, value, at);
        },
        Formula::Variable(name) => {
            lemma_name_window(whole, name, at);
            assert(tokens_before(whole, at).push(TokenView::Variable { pos: at, name })
                =~= tokens_before(whole, at) + text_tokens(formula, at));
        },
        Formula::Unary(UnaryOperator::NEG, arg) => {
            lemma_negation_parts(whole, *arg, at);
            lemma_operand_window(whole, *arg, 3, at + 1);
            lemma_negation_window(whole, *arg, at);
        },
        Formula::Binary(op, left, right) => {
            lemma_binary_parts(whole, op, *left, *right, at);
            let a = left.operand_text(op.rank()).len() as int;
            let m = op.symbol().len() + 2;
            lemma_operand_window(whole, *left, op.rank(), at);
            lemma_symbol_window(whole, op, at + a);
            lemma_operand_window(whole, *right, op.rank(), at + a + m);
            lemma_binary_window(whole, op, *left, *right, at);
        },
    }
}

/// Where the text of a formula with a binary operator stands in a longer
/// text, the texts of its operands stand there too, with the operator
/// between two spaces between them.
proof fn lemma_binary_parts(
    whole: Seq<char>,
    op: BinaryOperator,
    left: Formula,
    right: Formula,
    at: int,
)
    requires
        0 <= at,
        at + Formula::Binary(op, Box::new(left), Box::new(right)).text().len() <= whole.len(),
        whole.subrange(
            at,
            at + Formula::Binary(op, Box::new(left), Box::new(right)).text().len(),
        ) == Formula::Binary(op, Box::new(left), Box::new(right)).text(),
    ensures
        ({
            let first = left.operand_text(op.rank());
            let second = right.operand_text(op.rank());
            let middle = seq![' '] + op.symbol() + seq![' '];
            let a = first.len() as int;
            let m = op.symbol().len() + 2;
            &&& Formula::Binary(op, Box::new(left), Box::new(right)).text().len() == a + m
                + second.len()
            &&& whole.subrange(at, at + a) == first
            &&& whole.subrange(at + a, at + a + m) == middle
            &&& whole.subrange(at + a + m, at + a + m + second.len()) == second
            &&& whole[at + a] == ' '
            &&& whole[at + a + m - 1] == ' '
        }),
{
    let text = Formula::Binary(op, Box::new(left), Box::new(right)).text();
    let first = left.operand_text(op.rank());
    let second = right.operand_text(op.rank());
    let middle = seq![' '] + op.symbol() + seq![' '];
    let a = first.len() as int;
    let m = middle.len() as int;
    lemma_binary_text(op, left, right);
    lemma_part_of_window(whole, text, at, first, 0);
    lemma_part_of_window(whole, text, at, middle, a);
    lemma_part_of_window(whole, text, at, second, a + m);
    assert(whole.subrange(at + a, at + a + m)[0] == whole[at + a]);
    assert(whole.subrange(at + a, at + a + m)[m - 1] == whole[at + a + m - 1]);
}

/// The same for the text of a formula as an operand, which may stand in
/// parentheses.
proof fn lemma_operand_window(whole: Seq<char>, formula: Formula, parent: nat, at: int)
    requires
        formula.well_named(),
        0 <= at,
        at + formula.operand_text(parent).len() <= whole.len(),
        whole.subrange(at, at + formula.operand_text(parent).len()) == formula.operand_text(
            parent,
        ),
        at > 0 ==> !is_letter(whole[at - 1]),
        at + formula.operand_text(parent).len() < whole.len() ==> !is_letter(
            whole[at + formula.operand_text(parent).len()],
        ),
    ensures
        tokens_before(whole, at + formula.operand_text(parent).len()) == tokens_before(whole, at)
            + operand_tokens(formula, parent, at),
        forall|i: int| at <= i < at + formula.operand_text(parent).len() ==> valid_at(whole, i),
    decreases formula, 1nat,
{
    if formula.precedence() > parent {
        lemma_text_window(whole, formula, at);
    } else {
        let text = formula.operand_text(parent);
        let inner = formula.text();
        let n = inner.len() as int;
        assert(text == seq!['('] + inner + seq![')']);
        assert forall|i: int| 0 <= i < text.len() implies whole[at + i] == text[i] by {
            assert(whole.subrange(at, at + text.len())[i] == whole[at + i]);
        }
        assert(whole[at] == text[0]);
        assert(whole[at + (n + 1)] == text[n + 1]);
        assert(text.subrange(1, 1 + n) =~= inner);
        lemma_part_of_window(whole, text, at, inner, 1);
        lemma_text_window(whole, formula, at + 1);
        assert(tokens_before(whole, at + 1) == tokens_before(whole, at).push(token_at(whole, at)));
        assert(tokens_before(whole, at + n + 2) == tokens_before(whole, at + n + 1).push(
            token_at(whole, at + n + 1),
        ));
        assert(tokens_before(whole, at + n + 2) =~= tokens_before(whole, at) + operand_tokens(
            formula,
            parent,
            at,
        ));
    }
}

/// Every operator of `left`, of `right` and the operator between them
/// binds at least as tightly as `least`: then so does every operator of the
/// whole.
proof fn lemma_binds_together(
    left: Seq<TokenView>,
    operator: TokenView,
    right: Seq<TokenView>,
    least: nat,
)
    requires
        operator is Operator,
        rank(operator.name()) >= least,
        left.len() > 0 ==> balanced(left),
        binds_at_least(left, least),
        binds_at_least(right, least),
    ensures
        binds_at_least(left + seq![operator] + right, least),
{
    let tokens = left + seq![operator] + right;
    let at = left.len() as int;
    let n = tokens.len() as int;
    assert(tokens.subrange(0, at) =~= left);
    assert(tokens.subrange(at + 1, n) =~= right);
    lemma_depth_within(tokens, 0, at, at);
    assert(depth(tokens, at) == 0);
    assert(tokens[at] == operator);
    assert(depth(tokens, at + 1) == 0);
    assert forall|j: int| #[trigger] is_top_level_operator(tokens, j) implies rank(
        tokens[j].name(),
    ) >= least by {
        if j < at {
            lemma_depth_within(tokens, 0, at, j);
            assert(left[j] == tokens[j]);
            assert(is_top_level_operator(left, j));
        } else if j > at {
            lemma_depth_within(tokens, at + 1, n, j - at - 1);
            assert(right[j - at - 1] == tokens[j]);
            assert(is_top_level_operator(right, j - at - 1));
        }
    }
}

/// The tokens of the text of a formula parse to the formula, and each of
/// their operators outside parentheses binds at least as tightly as the
/// formula's outermost operator.
proof fn lemma_text_tokens_parse(formula: Formula, at: int)
    ensures
        parse_spec(text_tokens(formula, at)) == Ok::<Formula, ParseErrorView>(formula),
        binds_at_least(text_tokens(formula, at), formula.precedence()),
    decreases formula, 0nat,
{
    let tokens = text_tokens(formula, at);
    match formula {
        Formula::Value(_) => {},
        Formula::Variable(_) => {},
        Formula::Unary(UnaryOperator::NEG, arg) => {
            let operator = TokenView::Operator { pos: at, name: seq!['!'] };
            let right = operand_tokens(*arg, 3, at + 1);
            lemma_operand_tokens_parse(*arg, 3, at + 1);
            assert(binds_at_least(right, 3)) by {
                assert forall|j: int| #[trigger] is_top_level_operator(right, j) implies rank(
                    right[j].name(),
                ) >= 3 by {}
            }
            lemma_negation_applies_last(operator, right);
            lemma_binds_together(Seq::empty(), operator, right, 3);
            assert(Seq::<TokenView>::empty() + seq![operator] + right =~= tokens);
        },
        Formula::Binary(op, left, right) => {
            let symbol_at = at + left.operand_text(op.rank()).len() + 1;
            let operator = TokenView::Operator { pos: symbol_at, name: op.symbol() };
            let before = operand_tokens(*left, op.rank(), at);
            let after = operand_tokens(*right, op.rank(), symbol_at + op.symbol().len() + 1);
            lemma_operand_tokens_parse(*left, op.rank(), at);
            lemma_operand_tokens_parse(*right, op.rank(), symbol_at + op.symbol().len() + 1);
            lemma_symbols(op);
            assert(binds_at_least(after, op.rank())) by {
                assert forall|j: int| #[trigger] is_top_level_operator(after, j) implies rank(
                    after[j].name(),
                ) >= op.rank() by {}
            }
            assert(binds_at_least(before, op.rank())) by {
                assert forall|j: int| #[trigger] is_top_level_operator(before, j) implies rank(
                    before[j].name(),
                ) >= op.rank() by {}
            }
            lemma_loosest_operator_splits(before, operator, after);
            lemma_parsed_is_balanced(before);
            lemma_binds_together(before, operator, after, op.rank());
        },
    }
}

/// The same for the tokens of a formula as an operand: they parse to the
/// formula, and bind tighter than the operator that the operand stands
/// under.
proof fn lemma_operand_tokens_parse(formula: Formula, parent: nat, at: int)
    ensures
        parse_spec(operand_tokens(formula, parent, at)) == Ok::<Formula, ParseErrorView>(formula),
        binds_at_least(operand_tokens(formula, parent, at), parent + 1),
    decreases formula, 1nat,
{
    if formula.precedence() > parent {
        lemma_text_tokens_parse(formula, at);
        let tokens = text_tokens(formula, at);
        assert forall|j: int| #[trigger] is_top_level_operator(tokens, j) implies rank(
            tokens[j].name(),
        ) >= parent + 1 by {}
    } else {
        let inner = text_tokens(formula, at + 1);
        let open = TokenView::Open { pos: at };
        let close = TokenView::Close { pos: at + 1 + formula.text().len() };
        lemma_text_tokens_parse(formula, at + 1);
        lemma_redundant_parentheses(inner, open, close);
        lemma_parsed_is_balanced(inner);
        lemma_nothing_outside(inner, open, close);
    }
}

/// Each operator is written as the parser reads it, and binds in a printed
/// formula as it binds in the parser.
pub proof fn lemma_symbols(op: BinaryOperator)
    ensures
        binary_operator(op.symbol()) == Some(op),
        rank(op.symbol()) == op.rank(),
{
}

/// Printing an expression and reading the text again gives the expression
/// back: the tokens of its text parse to the same tree, which has the same
/// truth value under every assignment of its variables.
pub proof fn lemma_print_then_parse(formula: Formula)
    requires
        formula.well_named(),
    ensures
        tokenize_spec(formula.text()) == Ok::<Seq<TokenView>, ParseErrorView>(
            text_tokens(formula, 0),
        ),
        parse_text(formula.text()) == Ok::<Formula, ParseErrorView>(formula),
        forall|values: Map<Seq<char>, bool>|
            (#[trigger] parse_text(formula.text())->Ok_0.eval(values)) == formula.eval(values),
{
    let text = formula.text();
    assert(text.subrange(0, text.len() as int) =~= text);
    lemma_text_window(text, formula, 0);
    lemma_text_tokens_parse(formula, 0);
    lemma_first_invalid(text, 0, text.len() as int);
    assert(tokens_of(text) =~= text_tokens(formula, 0));
}

/// Where the variables among the tokens are named by letters, so are the
/// variables of the tree that the tokens parse to.
pub proof fn lemma_parsed_is_well_named(tokens: Seq<TokenView>)
    requires
        parse_spec(tokens) is Ok,
        forall|i: int| 0 <= i < tokens.len() ==> named_by_letters(#[trigger] tokens[i]),
    ensures
        parse_spec(tokens)->Ok_0.well_named(),
    decreases tokens.len(),
{
    let n = tokens.len() as int;
    if n == 1 {
        assert(named_by_letters(tokens[0]));
    } else {
        match split_point(tokens) {
            Some(at) => {
                assert(parse_operator_spec(tokens, at) is Ok);
                let left = tokens.subrange(0, at);
                let right = tokens.subrange(at + 1, n);
                assert(at < n - 1);
                if at > 0 {
                    assert forall|i: int| 0 <= i < left.len() implies named_by_letters(
                        #[trigger] left[i],
                    ) by {
                        assert(left[i] == tokens[i]);
                    }
                    lemma_parsed_is_well_named(left);
                }
                assert forall|i: int| 0 <= i < right.len() implies named_by_letters(
                    #[trigger] right[i],
                ) by {
                    assert(right[i] == tokens[at + 1 + i]);
                }
                lemma_parsed_is_well_named(right);
            },
            None => {
                assert(parse_group_spec(tokens) is Ok);
                reveal_with_fuel(depth, 2);
                let inner = tokens.subrange(1, n - 1);
                assert forall|i: int| 0 <= i < inner.len() implies named_by_letters(
                    #[trigger] inner[i],
                ) by {
                    assert(inner[i] == tokens[1 + i]);
                }
                lemma_parsed_is_well_named(inner);
            },
        }
    }
}

/// Printing and reading again changes nothing: where a text parses to a
/// tree, the text that the tree is printed as parses to the same tree, which
/// has the same truth value under every assignment of its variables.
pub proof fn lemma_round_trip(text: Seq<char>)
    requires
        parse_text(text) is Ok,
    ensures
        parse_text(parse_text(text)->Ok_0.text()) == parse_text(text),
        forall|values: Map<Seq<char>, bool>|
            (#[trigger] parse_text(parse_text(text)->Ok_0.text())->Ok_0.eval(values))
                == parse_text(text)->Ok_0.eval(values),
{
    lemma_tokens_named_by_letters(text, text.len() as int);
    lemma_parsed_is_well_named(tokens_of(text));
    lemma_print_then_parse(parse_text(text)->Ok_0);
}

} // verus!
