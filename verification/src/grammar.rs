//! The grammar of expressions, and that the parser reads exactly what it
//! writes.

use crate::expression::BinaryOperator;
use crate::grouping::{
    alike, all_alike, balanced, lemma_depth_within, lemma_no_early_close,
    lemma_offsets_do_not_matter, lemma_parsed_is_balanced,
};
use crate::parser::{
    binary_operator, closes_early, depth, is_split, is_top_level_operator, lemma_split_unique,
    nesting, parse_group_spec, parse_operator_spec, parse_spec, parse_text, rank, spells,
    split_point,
};
use crate::printing::lemma_symbols;
use crate::tokens::{tokenize_spec, TokenView};
use vstd::prelude::*;

verus! {

/// An expression as it is written down: a value, a variable, a negation,
/// two expressions with a binary operator between them, or an expression in
/// parentheses.
pub enum Writing {
    Value(bool),
    Variable(Seq<char>),
    Negation(Box<Writing>),
    Binary(BinaryOperator, Box<Writing>, Box<Writing>),
    Group(Box<Writing>),
}

impl Writing {
    /// The tokens of the expression as it is written, with no regard to
    /// offsets.
    pub open spec fn tokens(self) -> Seq<TokenView>
        decreases self,
    {
        match self {
            Writing::Value(value) => seq![TokenView::Value { pos: 0, value }],
            Writing::Variable(name) => seq![TokenView::Variable { pos: 0, name }],
            Writing::Negation(operand) => seq![TokenView::Operator { pos: 0, name: seq!['!'] }]
                + operand.tokens(),
            Writing::Binary(op, left, right) => left.tokens() + seq![
                TokenView::Operator { pos: 0, name: op.symbol() },
            ] + right.tokens(),
            Writing::Group(inner) => seq![TokenView::Open { pos: 0 }] + inner.tokens() + seq![
                TokenView::Close { pos: 0 },
            ],
        }
    }
}

/// The tokens stand for an expression that the grammar writes: they are
/// the tokens of a writing, at whatever offsets.
pub open spec fn is_written(tokens: Seq<TokenView>) -> bool {
    exists|writing: Writing| all_alike(#[trigger] writing.tokens(), tokens)
}

/// A writing has a token, and its parentheses are balanced.
proof fn lemma_writing_is_balanced(writing: Writing)
    ensures
        writing.tokens().len() >= 1,
        balanced(writing.tokens()),
    decreases writing,
{
    let tokens = writing.tokens();
    let n = tokens.len() as int;
    match writing {
        Writing::Value(_) => {
            reveal_with_fuel(depth, 2);
        },
        Writing::Variable(_) => {
            reveal_with_fuel(depth, 2);
        },
        Writing::Negation(operand) => {
            lemma_writing_is_balanced(*operand);
            assert(tokens.subrange(1, n) =~= operand.tokens());
            assert(depth(tokens, 1) == 0) by {
                reveal_with_fuel(depth, 2);
            }
            assert forall|i: int| 0 <= i <= n implies depth(tokens, i) >= 0 by {
                if i >= 1 {
                    lemma_depth_within(tokens, 1, n, i - 1);
                }
            }
            lemma_depth_within(tokens, 1, n, n - 1);
        },
        Writing::Binary(op, left, right) => {
            lemma_writing_is_balanced(*left);
            lemma_writing_is_balanced(*right);
            let at = left.tokens().len() as int;
            assert(tokens.subrange(0, at) =~= left.tokens());
            assert(tokens.subrange(at + 1, n) =~= right.tokens());
            lemma_depth_within(tokens, 0, at, at);
            assert(depth(tokens, at + 1) == depth(tokens, at));
            assert forall|i: int| 0 <= i <= n implies depth(tokens, i) >= 0 by {
                if i <= at {
                    lemma_depth_within(tokens, 0, at, i);
                } else {
                    lemma_depth_within(tokens, at + 1, n, i - at - 1);
                }
            }
            lemma_depth_within(tokens, at + 1, n, n - at - 1);
        },
        Writing::Group(inner) => {
            lemma_writing_is_balanced(*inner);
            assert(tokens.subrange(1, n - 1) =~= inner.tokens());
            assert(depth(tokens, 1) == 1) by {
                reveal_with_fuel(depth, 2);
            }
            lemma_depth_within(tokens, 1, n - 1, n - 2);
            assert(depth(tokens, n) == depth(tokens, n - 1) - 1);
            assert forall|i: int| 0 <= i <= n implies depth(tokens, i) >= 0 by {
                if 1 <= i <= n - 1 {
                    lemma_depth_within(tokens, 1, n - 1, i - 1);
                }
            }
        },
    }
}

/// Each operator among the tokens of a writing is `!` or a binary operator.
proof fn lemma_writing_operators(writing: Writing, i: int)
    requires
        0 <= i < writing.tokens().len(),
        writing.tokens()[i] is Operator,
    ensures
        spells(writing.tokens()[i].name(), '!') || binary_operator(writing.tokens()[i].name())
            is Some,
    decreases writing,
{
    let tokens = writing.tokens();
    match writing {
        Writing::Value(_) => {},
        Writing::Variable(_) => {},
        Writing::Negation(operand) => {
            if i >= 1 {
                assert(tokens[i] == operand.tokens()[i - 1]);
                lemma_writing_operators(*operand, i - 1);
            }
        },
        Writing::Binary(op, left, right) => {
            let at = left.tokens().len() as int;
            if i < at {
                assert(tokens[i] == left.tokens()[i]);
                lemma_writing_operators(*left, i);
            } else if i == at {
                lemma_symbols(op);
            } else {
                assert(tokens[i] == right.tokens()[i - at - 1]);
                lemma_writing_operators(*right, i - at - 1);
            }
        },
        Writing::Group(inner) => {
            if 1 <= i < tokens.len() - 1 {
                assert(tokens[i] == inner.tokens()[i - 1]);
                lemma_writing_operators(*inner, i - 1);
            }
        },
    }
}

/// What stands to the left and to the right of a binary operator outside
/// all parentheses of a writing are writings themselves.
proof fn lemma_regroup(writing: Writing, at: int) -> (parts: (Writing, Writing))
    requires
        is_top_level_operator(writing.tokens(), at),
        binary_operator(writing.tokens()[at].name()) is Some,
    ensures
        parts.0.tokens() == writing.tokens().subrange(0, at),
        parts.1.tokens() == writing.tokens().subrange(at + 1, writing.tokens().len() as int),
    decreases writing,
{
    let tokens = writing.tokens();
    let n = tokens.len() as int;
    match writing {
        Writing::Value(_) => (writing, writing),
        Writing::Variable(_) => (writing, writing),
        Writing::Negation(operand) => {
            assert(spells(tokens[0].name(), '!'));
            assert(at >= 1);
            assert(tokens.subrange(1, n) =~= operand.tokens());
            assert(depth(tokens, 1) == 0) by {
                reveal_with_fuel(depth, 2);
            }
            lemma_depth_within(tokens, 1, n, at - 1);
            assert(tokens[at] == operand.tokens()[at - 1]);
            let below = lemma_regroup(*operand, at - 1);
            let left = Writing::Negation(Box::new(below.0));
            assert(left.tokens() =~= tokens.subrange(0, at));
            assert(below.1.tokens() =~= tokens.subrange(at + 1, n));
            (left, below.1)
        },
        Writing::Binary(op, left, right) => {
            let middle = left.tokens().len() as int;
            assert(tokens.subrange(0, middle) =~= left.tokens());
            assert(tokens.subrange(middle + 1, n) =~= right.tokens());
            if at == middle {
                (*left, *right)
            } else if at < middle {
                lemma_depth_within(tokens, 0, middle, at);
                assert(tokens[at] == left.tokens()[at]);
                let below = lemma_regroup(*left, at);
                let rest = Writing::Binary(op, Box::new(below.1), right);
                assert(below.0.tokens() =~= tokens.subrange(0, at));
                assert(rest.tokens() =~= tokens.subrange(at + 1, n));
                (below.0, rest)
            } else {
                lemma_writing_is_balanced(*left);
                lemma_depth_within(tokens, 0, middle, middle);
                assert(depth(tokens, middle + 1) == 0);
                lemma_depth_within(tokens, middle + 1, n, at - middle - 1);
                assert(tokens[at] == right.tokens()[at - middle - 1]);
                let below = lemma_regroup(*right, at - middle - 1);
                let rest = Writing::Binary(op, left, Box::new(below.0));
                assert(rest.tokens() =~= tokens.subrange(0, at));
                assert(below.1.tokens() =~= tokens.subrange(at + 1, n));
                (rest, below.1)
            }
        },
        Writing::Group(inner) => {
            lemma_writing_is_balanced(*inner);
            assert(tokens.subrange(1, n - 1) =~= inner.tokens());
            assert(depth(tokens, 1) == 1) by {
                reveal_with_fuel(depth, 2);
            }
            if 1 <= at < n - 1 {
                lemma_depth_within(tokens, 1, n - 1, at - 1);
            }
            (writing, writing)
        },
    }
}

/// Among the operators outside all parentheses there is a first one that
/// binds most loosely.
proof fn lemma_split_exists(tokens: Seq<TokenView>, n: int) -> (at: int)
    requires
        0 <= n <= tokens.len(),
        exists|j: int| j < n && is_top_level_operator(tokens, j),
    ensures
        at < n,
        is_top_level_operator(tokens, at),
        forall|j: int| #[trigger]
            is_top_level_operator(tokens, j) && j < n ==> rank(tokens[at].name()) <= rank(
                tokens[j].name(),
            ),
        forall|j: int| #[trigger]
            is_top_level_operator(tokens, j) && j < at ==> rank(tokens[at].name()) < rank(
                tokens[j].name(),
            ),
    decreases n,
{
    if exists|j: int| j < n - 1 && is_top_level_operator(tokens, j) {
        let before = lemma_split_exists(tokens, n - 1);
        if is_top_level_operator(tokens, n - 1) && rank(tokens[n - 1].name()) < rank(
            tokens[before].name(),
        ) {
            n - 1
        } else {
            before
        }
    } else {
        n - 1
    }
}

/// Every expression that the grammar writes parses to a tree.
pub proof fn lemma_writing_parses(writing: Writing)
    ensures
        parse_spec(writing.tokens()) is Ok,
    decreases writing.tokens().len(),
{
    let tokens = writing.tokens();
    let n = tokens.len() as int;
    lemma_writing_is_balanced(writing);
    if n == 1 {
        match writing {
            Writing::Value(_) => {},
            Writing::Variable(_) => {},
            Writing::Negation(operand) => {
                lemma_writing_is_balanced(*operand);
            },
            Writing::Binary(_, left, right) => {
                lemma_writing_is_balanced(*left);
            },
            Writing::Group(inner) => {
                lemma_writing_is_balanced(*inner);
            },
        }
    } else if exists|j: int| j < n && is_top_level_operator(tokens, j) {
        let at = lemma_split_exists(tokens, n);
        assert(is_split(tokens, at));
        lemma_split_unique(tokens, at, choose|i: int| is_split(tokens, i));
        assert(split_point(tokens) == Some(at));
        lemma_writing_operators(writing, at);
        if binary_operator(tokens[at].name()) is Some {
            let parts = lemma_regroup(writing, at);
            lemma_writing_is_balanced(parts.0);
            lemma_writing_is_balanced(parts.1);
            lemma_writing_parses(parts.0);
            lemma_writing_parses(parts.1);
            assert(!spells(tokens[at].name(), '!'));
            assert(parse_operator_spec(tokens, at) is Ok);
        } else {
            match writing {
                Writing::Negation(operand) => {
                    assert(is_top_level_operator(tokens, 0)) by {
                        reveal_with_fuel(depth, 1);
                    }
                    assert(at == 0);
                    assert(tokens.subrange(1, n) =~= operand.tokens());
                    lemma_writing_parses(*operand);
                    assert(parse_operator_spec(tokens, at) is Ok);
                },
                Writing::Binary(op, left, right) => {
                    let middle = left.tokens().len() as int;
                    lemma_writing_is_balanced(*left);
                    assert(tokens.subrange(0, middle) =~= left.tokens());
                    lemma_depth_within(tokens, 0, middle, middle);
                    assert(is_top_level_operator(tokens, middle));
                    lemma_symbols(op);
                    assert(rank(tokens[at].name()) == 3);
                    assert(false);
                },
                _ => {
                    assert(false) by {
                        lemma_no_operator_outside(writing, at);
                    }
                },
            }
        }
    } else {
        assert forall|i: int| !is_split(tokens, i) by {
            if is_split(tokens, i) {
                assert(is_top_level_operator(tokens, i));
            }
        }
        assert(split_point(tokens) is None);
        match writing {
            Writing::Group(inner) => {
                lemma_writing_is_balanced(*inner);
                assert(tokens.subrange(1, n - 1) =~= inner.tokens());
                assert(depth(tokens, 1) == 1) by {
                    reveal_with_fuel(depth, 2);
                }
                assert forall|k: int| 0 <= k < n implies !closes_early(tokens, k) by {
                    if 1 <= k + 1 <= n - 1 {
                        lemma_depth_within(tokens, 1, n - 1, k);
                    }
                }
                lemma_no_early_close(tokens, 0);
                lemma_writing_parses(*inner);
                assert(parse_group_spec(tokens) is Ok);
            },
            Writing::Negation(operand) => {
                assert(is_top_level_operator(tokens, 0)) by {
                    reveal_with_fuel(depth, 1);
                }
            },
            Writing::Binary(op, left, right) => {
                let middle = left.tokens().len() as int;
                lemma_writing_is_balanced(*left);
                assert(tokens.subrange(0, middle) =~= left.tokens());
                lemma_depth_within(tokens, 0, middle, middle);
                assert(is_top_level_operator(tokens, middle));
            },
            _ => {},
        }
    }
}

/// A value, a variable and an expression in parentheses have no operator
/// outside all parentheses.
proof fn lemma_no_operator_outside(writing: Writing, at: int)
    requires
        writing is Value || writing is Variable || writing is Group,
    ensures
        !is_top_level_operator(writing.tokens(), at),
{
    let tokens = writing.tokens();
    let n = tokens.len() as int;
    match writing {
        Writing::Group(inner) => {
            lemma_writing_is_balanced(*inner);
            assert(tokens.subrange(1, n - 1) =~= inner.tokens());
            assert(depth(tokens, 1) == 1) by {
                reveal_with_fuel(depth, 2);
            }
            if 1 <= at < n - 1 {
                lemma_depth_within(tokens, 1, n - 1, at - 1);
            }
        },
        _ => {},
    }
}

/// Tokens are those of two writings with a binary operator between them
/// where their parts are.
proof fn lemma_binary_is_written(
    tokens: Seq<TokenView>,
    at: int,
    op: BinaryOperator,
    left: Writing,
    right: Writing,
)
    requires
        0 < at < tokens.len() - 1,
        tokens[at] is Operator,
        tokens[at].name() == op.symbol(),
        all_alike(left.tokens(), tokens.subrange(0, at)),
        all_alike(right.tokens(), tokens.subrange(at + 1, tokens.len() as int)),
    ensures
        all_alike(Writing::Binary(op, Box::new(left), Box::new(right)).tokens(), tokens),
{
    let both = Writing::Binary(op, Box::new(left), Box::new(right)).tokens();
    let n = tokens.len() as int;
    assert forall|i: int| 0 <= i < n implies alike(#[trigger] both[i], tokens[i]) by {
        if i < at {
            assert(both[i] == left.tokens()[i]);
            assert(tokens.subrange(0, at)[i] == tokens[i]);
        } else if i > at {
            assert(both[i] == right.tokens()[i - at - 1]);
            assert(tokens.subrange(at + 1, n)[i - at - 1] == tokens[i]);
        }
    }
}

/// Tokens are those of a negation where `!` comes first and a writing
/// follows.
proof fn lemma_negation_is_written(tokens: Seq<TokenView>, operand: Writing)
    requires
        tokens.len() >= 1,
        tokens[0] is Operator,
        tokens[0].name() == seq!['!'],
        all_alike(operand.tokens(), tokens.subrange(1, tokens.len() as int)),
    ensures
        all_alike(Writing::Negation(Box::new(operand)).tokens(), tokens),
{
    let negation = Writing::Negation(Box::new(operand)).tokens();
    let n = tokens.len() as int;
    assert forall|i: int| 0 <= i < n implies alike(#[trigger] negation[i], tokens[i]) by {
        if i > 0 {
            assert(negation[i] == operand.tokens()[i - 1]);
            assert(tokens.subrange(1, n)[i - 1] == tokens[i]);
        }
    }
}

/// Tokens are those of a group where a writing stands between an opening
/// and a closing parenthesis.
proof fn lemma_group_is_written(tokens: Seq<TokenView>, inner: Writing)
    requires
        tokens.len() >= 2,
        tokens[0] is Open,
        tokens.last() is Close,
        all_alike(inner.tokens(), tokens.subrange(1, tokens.len() - 1)),
    ensures
        all_alike(Writing::Group(Box::new(inner)).tokens(), tokens),
{
    let group = Writing::Group(Box::new(inner)).tokens();
    let n = tokens.len() as int;
    assert forall|i: int| 0 <= i < n implies alike(#[trigger] group[i], tokens[i]) by {
        if 1 <= i < n - 1 {
            assert(group[i] == inner.tokens()[i - 1]);
            assert(tokens.subrange(1, n - 1)[i - 1] == tokens[i]);
        }
    }
}

/// Tokens that parse to a tree are tokens that the grammar writes.
pub proof fn lemma_parsed_is_written(tokens: Seq<TokenView>) -> (writing: Writing)
    requires
        parse_spec(tokens) is Ok,
    ensures
        all_alike(writing.tokens(), tokens),
        is_written(tokens),
    decreases tokens.len(),
{
    let n = tokens.len() as int;
    if n == 1 {
        match tokens[0] {
            TokenView::Value { value, .. } => Writing::Value(value),
            TokenView::Variable { name, .. } => Writing::Variable(name),
            _ => Writing::Value(true),
        }
    } else {
        match split_point(tokens) {
            Some(at) => {
                assert(parse_operator_spec(tokens, at) is Ok);
                assert(at < n - 1);
                let right = lemma_parsed_is_written(tokens.subrange(at + 1, n));
                let name = tokens[at].name();
                if at > 0 {
                    let left = lemma_parsed_is_written(tokens.subrange(0, at));
                    let op = binary_operator(name)->0;
                    assert(op.symbol() =~= name);
                    lemma_binary_is_written(tokens, at, op, left, right);
                    Writing::Binary(op, Box::new(left), Box::new(right))
                } else {
                    assert(name =~= seq!['!']);
                    lemma_negation_is_written(tokens, right);
                    Writing::Negation(Box::new(right))
                }
            },
            None => {
                assert(parse_group_spec(tokens) is Ok);
                reveal_with_fuel(depth, 2);
                lemma_parsed_is_balanced(tokens);
                let inner = lemma_parsed_is_written(tokens.subrange(1, n - 1));
                lemma_parsed_is_balanced(tokens.subrange(1, n - 1));
                lemma_depth_within(tokens, 1, n - 1, n - 2);
                assert(depth(tokens, n) == depth(tokens, n - 1) + nesting(tokens[n - 1]));
                lemma_group_is_written(tokens, inner);
                Writing::Group(Box::new(inner))
            },
        }
    }
}

/// The parser reads what the grammar writes, and nothing else: tokens
/// parse to a tree exactly when they are the tokens of a value, of a
/// variable, of `!` before an expression, of a binary operator between two
/// expressions, or of an expression in parentheses.
pub proof fn lemma_parses_what_is_written(tokens: Seq<TokenView>)
    ensures
        parse_spec(tokens) is Ok <==> is_written(tokens),
{
    if parse_spec(tokens) is Ok {
        lemma_parsed_is_written(tokens);
    }
    if is_written(tokens) {
        let writing = choose|writing: Writing| all_alike(#[trigger] writing.tokens(), tokens);
        lemma_writing_parses(writing);
        lemma_offsets_do_not_matter(writing.tokens(), tokens);
    }
}

/// A text parses to a tree exactly when it splits into tokens and the
/// grammar writes these tokens.
pub proof fn lemma_text_parses_when_written(text: Seq<char>)
    ensures
        parse_text(text) is Ok <==> tokenize_spec(text) is Ok && is_written(
            tokenize_spec(text)->Ok_0,
        ),
{
    if tokenize_spec(text) is Ok {
        lemma_parses_what_is_written(tokenize_spec(text)->Ok_0);
    }
}

} // verus!
