//! What parentheses and operator precedence do to the reading of tokens.

use crate::expression::{Formula, UnaryOperator};
use crate::parser::{
    binary_operator, closes_early, combine_spec, depth, first_early_close, is_split,
    is_top_level_operator, lemma_split_unique, nesting, parse_group_spec, parse_operator_spec,
    parse_spec, parse_text, rank, spells, split_point,
};
use crate::tokens::{
    lemma_all_valid, lemma_first_invalid, lemma_window, shift, tokenize_spec, tokens_before,
    tokens_of, valid_at, ParseErrorView, TokenView,
};
use vstd::prelude::*;

verus! {

/// Every parenthesis that is closed was opened before, and none is left
/// open.
pub open spec fn balanced(tokens: Seq<TokenView>) -> bool {
    &&& forall|i: int| 0 <= i <= tokens.len() ==> depth(tokens, i) >= 0
    &&& depth(tokens, tokens.len() as int) == 0
}

/// Two tokens that differ in their offset at most.
pub open spec fn alike(a: TokenView, b: TokenView) -> bool {
    a.shifted(-a.pos()) == b.shifted(-b.pos())
}

/// Two token sequences that differ in the offsets of their tokens at most.
pub open spec fn all_alike(a: Seq<TokenView>, b: Seq<TokenView>) -> bool {
    &&& a.len() == b.len()
    &&& forall|i: int| 0 <= i < a.len() ==> alike(#[trigger] a[i], b[i])
}

/// Every operator of `tokens` outside all parentheses binds at least as
/// tightly as `least`.
pub open spec fn binds_at_least(tokens: Seq<TokenView>, least: nat) -> bool {
    forall|j: int| #[trigger] is_top_level_operator(tokens, j) ==> rank(tokens[j].name()) >= least
}

/// The depth after `i` tokens depends on what those tokens open and close.
pub proof fn lemma_depth_agrees(a: Seq<TokenView>, b: Seq<TokenView>, i: int)
    requires
        0 <= i <= a.len(),
        i <= b.len(),
        forall|k: int| 0 <= k < i ==> nesting(#[trigger] a[k]) == nesting(b[k]),
    ensures
        depth(a, i) == depth(b, i),
    decreases i,
{
    if i > 0 {
        lemma_depth_agrees(a, b, i - 1);
        assert(nesting(a[i - 1]) == nesting(b[i - 1]));
    }
}

/// The depth within a part of a token sequence is the depth within the
/// whole, less the depth at which the part starts.
pub proof fn lemma_depth_within(tokens: Seq<TokenView>, from: int, to: int, i: int)
    requires
        0 <= from <= to <= tokens.len(),
        0 <= i <= to - from,
    ensures
        depth(tokens, from + i) == depth(tokens, from) + depth(tokens.subrange(from, to), i),
    decreases i,
{
    if i > 0 {
        lemma_depth_within(tokens, from, to, i - 1);
        assert(tokens.subrange(from, to)[i - 1] == tokens[from + i - 1]);
    }
}

/// Tokens that parse to a tree are balanced.
pub proof fn lemma_parsed_is_balanced(tokens: Seq<TokenView>)
    requires
        parse_spec(tokens) is Ok,
    ensures
        balanced(tokens),
    decreases tokens.len(),
{
    let n = tokens.len() as int;
    if n == 1 {
        reveal_with_fuel(depth, 2);
    } else {
        match split_point(tokens) {
            Some(at) => {
                let left = tokens.subrange(0, at);
                let right = tokens.subrange(at + 1, n);
                assert(parse_operator_spec(tokens, at) is Ok);
                assert(at < n - 1);
                if at > 0 {
                    lemma_parsed_is_balanced(left);
                }
                lemma_parsed_is_balanced(right);
                assert(depth(tokens, at) == 0);
                assert(depth(tokens, at + 1) == 0);
                assert forall|i: int| 0 <= i <= n implies depth(tokens, i) >= 0 by {
                    if i <= at {
                        lemma_depth_within(tokens, 0, at, i);
                    } else {
                        lemma_depth_within(tokens, at + 1, n, i - at - 1);
                    }
                }
                lemma_depth_within(tokens, at + 1, n, n - at - 1);
            },
            None => {
                assert(parse_group_spec(tokens) is Ok);
                let inner = tokens.subrange(1, n - 1);
                reveal_with_fuel(depth, 2);
                assert(n >= 2);
                lemma_parsed_is_balanced(inner);
                assert(depth(tokens, 1) == 1);
                lemma_depth_within(tokens, 1, n - 1, n - 2);
                assert(depth(tokens, n - 1) == 1);
                assert(depth(tokens, n) == 1 + nesting(tokens[n - 1]));
                assert forall|i: int| 0 <= i <= n implies depth(tokens, i) >= 0 by {
                    if 1 <= i <= n - 1 {
                        lemma_depth_within(tokens, 1, n - 1, i - 1);
                    }
                }
            },
        }
    }
}

/// Parentheses round a whole expression are redundant: where tokens parse
/// to a tree, the same tokens between an opening and a closing parenthesis
/// parse to the same tree.
pub proof fn lemma_redundant_parentheses(
    tokens: Seq<TokenView>,
    open: TokenView,
    close: TokenView,
)
    requires
        parse_spec(tokens) is Ok,
        open is Open,
        close is Close,
    ensures
        parse_spec(seq![open] + tokens + seq![close]) == parse_spec(tokens),
{
    let wrapped = seq![open] + tokens + seq![close];
    let n = wrapped.len() as int;
    lemma_parsed_is_balanced(tokens);
    assert(wrapped.subrange(1, n - 1) =~= tokens);
    assert(depth(wrapped, 1) == 1) by {
        reveal_with_fuel(depth, 2);
    }
    assert forall|i: int| 1 <= i <= n - 1 implies depth(wrapped, i) == 1 + depth(tokens, i - 1) by {
        lemma_depth_within(wrapped, 1, n - 1, i - 1);
    }
    assert(depth(wrapped, n - 1) == 1 + depth(tokens, n - 2));
    assert(wrapped[n - 1] == close);
    assert(depth(wrapped, n) == 0);
    assert forall|j: int| !is_top_level_operator(wrapped, j) by {
        if 1 <= j < n - 1 {
            assert(depth(wrapped, j) == 1 + depth(tokens, j - 1));
        }
    }
    assert(split_point(wrapped) is None);
    assert forall|k: int| 0 <= k < n implies !closes_early(wrapped, k) by {
        if k + 1 < n {
            assert(depth(wrapped, k + 1) == 1 + depth(tokens, k));
        }
    }
    lemma_no_early_close(wrapped, 0);
}

/// Between an opening and a closing parenthesis no operator of balanced
/// tokens stands outside all parentheses.
pub proof fn lemma_nothing_outside(tokens: Seq<TokenView>, open: TokenView, close: TokenView)
    requires
        balanced(tokens),
        open is Open,
        close is Close,
    ensures
        forall|j: int| !is_top_level_operator(seq![open] + tokens + seq![close], j),
        forall|least: nat| binds_at_least(seq![open] + tokens + seq![close], least),
{
    let wrapped = seq![open] + tokens + seq![close];
    let n = wrapped.len() as int;
    assert(wrapped.subrange(1, n - 1) =~= tokens);
    assert(depth(wrapped, 1) == 1) by {
        reveal_with_fuel(depth, 2);
    }
    assert forall|j: int| !is_top_level_operator(wrapped, j) by {
        if 1 <= j < n - 1 {
            lemma_depth_within(wrapped, 1, n - 1, j - 1);
        }
    }
}

/// Where no token from `i` on closes early, the search for one finds none.
pub proof fn lemma_no_early_close(tokens: Seq<TokenView>, i: int)
    requires
        0 <= i,
        forall|k: int| i <= k < tokens.len() ==> !closes_early(tokens, k),
    ensures
        first_early_close(tokens, i) == tokens.len(),
    decreases tokens.len() - i,
{
    if i + 1 < tokens.len() {
        lemma_no_early_close(tokens, i + 1);
    }
}

/// Token sequences that differ in offsets only have the same depths, the
/// same operators outside all parentheses and the same place to split at.
pub proof fn lemma_alike_structure(a: Seq<TokenView>, b: Seq<TokenView>)
    requires
        all_alike(a, b),
    ensures
        forall|i: int| 0 <= i <= a.len() ==> depth(a, i) == depth(b, i),
        forall|j: int| is_top_level_operator(a, j) == is_top_level_operator(b, j),
        forall|i: int| is_split(a, i) == is_split(b, i),
        split_point(a) == split_point(b),
{
    assert forall|i: int| 0 <= i <= a.len() implies depth(a, i) == depth(b, i) by {
        assert forall|k: int| 0 <= k < i implies nesting(#[trigger] a[k]) == nesting(b[k]) by {
            assert(alike(a[k], b[k]));
        }
        lemma_depth_agrees(a, b, i);
    }
    assert forall|j: int| is_top_level_operator(a, j) == is_top_level_operator(b, j) by {
        if 0 <= j < a.len() {
            assert(alike(a[j], b[j]));
        }
    }
    assert forall|i: int| is_split(a, i) == is_split(b, i) by {
        if 0 <= i < a.len() {
            assert(alike(a[i], b[i]));
            assert forall|j: int| is_top_level_operator(a, j) implies a[j].name()
                == b[j].name() by {
                assert(alike(a[j], b[j]));
            }
            if is_split(a, i) {
                assert forall|j: int| #[trigger] is_top_level_operator(b, j) implies rank(
                    b[i].name(),
                ) <= rank(b[j].name()) by {
                    assert(is_top_level_operator(a, j));
                }
                assert forall|j: int| #[trigger] is_top_level_operator(b, j) && j < i implies rank(
                    b[i].name(),
                ) < rank(b[j].name()) by {
                    assert(is_top_level_operator(a, j));
                }
            }
            if is_split(b, i) {
                assert forall|j: int| #[trigger] is_top_level_operator(a, j) implies rank(
                    a[i].name(),
                ) <= rank(a[j].name()) by {
                    assert(is_top_level_operator(b, j));
                }
                assert forall|j: int| #[trigger] is_top_level_operator(a, j) && j < i implies rank(
                    a[i].name(),
                ) < rank(a[j].name()) by {
                    assert(is_top_level_operator(b, j));
                }
            }
        }
    }
    if exists|i: int| is_split(a, i) {
        let at = choose|i: int| is_split(a, i);
        assert(is_split(b, at));
        lemma_split_unique(b, at, choose|i: int| is_split(b, i));
    } else {
        assert forall|i: int| !is_split(b, i) by {
            assert(!is_split(a, i));
        }
    }
}

/// The tree that tokens parse to does not depend on the offsets of the
/// tokens.
pub proof fn lemma_offsets_do_not_matter(a: Seq<TokenView>, b: Seq<TokenView>)
    requires
        parse_spec(a) is Ok,
        all_alike(a, b),
    ensures
        parse_spec(b) == parse_spec(a),
    decreases a.len(),
{
    let n = a.len() as int;
    lemma_alike_structure(a, b);
    if n == 1 {
        assert(alike(a[0], b[0]));
    } else {
        match split_point(a) {
            Some(at) => {
                assert(alike(a[at], b[at]));
                assert(parse_operator_spec(a, at) is Ok);
                if at > 0 {
                    assert(all_alike(a.subrange(0, at), b.subrange(0, at)));
                    lemma_offsets_do_not_matter(a.subrange(0, at), b.subrange(0, at));
                }
                assert(at < n - 1);
                assert(all_alike(a.subrange(at + 1, n), b.subrange(at + 1, n)));
                lemma_offsets_do_not_matter(a.subrange(at + 1, n), b.subrange(at + 1, n));
            },
            None => {
                assert(parse_group_spec(a) is Ok);
                assert(alike(a[0], b[0]));
                assert forall|k: int| 0 <= k < n implies !closes_early(b, k) by {
                    if closes_early(b, k) {
                        assert(closes_early(a, k));
                        lemma_early_close_found(a, 0, k);
                    }
                }
                lemma_no_early_close(b, 0);
                reveal_with_fuel(depth, 2);
                assert(all_alike(a.subrange(1, n - 1), b.subrange(1, n - 1)));
                lemma_offsets_do_not_matter(a.subrange(1, n - 1), b.subrange(1, n - 1));
            },
        }
    }
}

/// Where a token from `i` on closes early, the search for one finds one.
pub proof fn lemma_early_close_found(tokens: Seq<TokenView>, i: int, k: int)
    requires
        0 <= i <= k,
        closes_early(tokens, k),
    ensures
        first_early_close(tokens, i) < tokens.len(),
    decreases k - i,
{
    if i < k && !closes_early(tokens, i) {
        lemma_early_close_found(tokens, i + 1, k);
    }
}

/// A binary operator takes all that stands to its left and to its right
/// when no operator outside parentheses binds more loosely, nor one to its
/// left as loosely. So `&` binds tighter than `|` and `^`, these bind
/// tighter than `=` and `=>`, and of operators that bind alike the first one
/// is applied last.
pub proof fn lemma_loosest_operator_splits(
    left: Seq<TokenView>,
    operator: TokenView,
    right: Seq<TokenView>,
)
    requires
        operator is Operator,
        binary_operator(operator.name()) is Some,
        parse_spec(left) is Ok,
        parse_spec(right) is Ok,
        binds_at_least(left, rank(operator.name()) + 1),
        binds_at_least(right, rank(operator.name())),
    ensures
        parse_spec(left + seq![operator] + right) == Ok::<Formula, crate::tokens::ParseErrorView>(
            Formula::Binary(
                binary_operator(operator.name())->0,
                Box::new(parse_spec(left)->Ok_0),
                Box::new(parse_spec(right)->Ok_0),
            ),
        ),
{
    let tokens = left + seq![operator] + right;
    let at = left.len() as int;
    let n = tokens.len() as int;
    lemma_parsed_is_balanced(left);
    lemma_parsed_is_balanced(right);
    assert(tokens.subrange(0, at) =~= left);
    assert(tokens.subrange(at + 1, n) =~= right);
    assert(tokens[at] == operator);
    lemma_depth_within(tokens, 0, at, at);
    assert(depth(tokens, at + 1) == 0);
    assert forall|j: int| #[trigger] is_top_level_operator(tokens, j) implies rank(
        tokens[at].name(),
    ) <= rank(tokens[j].name()) && (j < at ==> rank(tokens[at].name()) < rank(
        tokens[j].name(),
    )) by {
        if j < at {
            lemma_depth_within(tokens, 0, at, j);
            assert(left[j] == tokens[j]);
            assert(is_top_level_operator(left, j));
        } else if j > at {
            lemma_depth_within(tokens, at + 1, n, j - at - 1);
            assert(right[j - at - 1] == tokens[j]);
            assert(is_top_level_operator(right, j - at - 1));
        }
    }
    assert(is_split(tokens, at));
    lemma_split_unique(tokens, at, choose|i: int| is_split(tokens, i));
    assert(split_point(tokens) == Some(at));
    assert(parse_spec(tokens) == parse_operator_spec(tokens, at));
    assert(!spells(operator.name(), '!'));
    assert(parse_operator_spec(tokens, at) == combine_spec(
        tokens,
        at,
        Some(parse_spec(left)->Ok_0),
        parse_spec(right)->Ok_0,
    ));
}

/// Parentheses round an operand that would be taken whole without them are
/// redundant: where a binary operator takes all that stands to its left
/// and to its right, it takes the same operands when either stands in
/// parentheses.
pub proof fn lemma_redundant_operand_parentheses(
    left: Seq<TokenView>,
    operator: TokenView,
    right: Seq<TokenView>,
    open: TokenView,
    close: TokenView,
)
    requires
        operator is Operator,
        binary_operator(operator.name()) is Some,
        parse_spec(left) is Ok,
        parse_spec(right) is Ok,
        binds_at_least(left, rank(operator.name()) + 1),
        binds_at_least(right, rank(operator.name())),
        open is Open,
        close is Close,
    ensures
        parse_spec((seq![open] + left + seq![close]) + seq![operator] + right) == parse_spec(
            left + seq![operator] + right,
        ),
        parse_spec(left + seq![operator] + (seq![open] + right + seq![close])) == parse_spec(
            left + seq![operator] + right,
        ),
{
    let wrapped_left = seq![open] + left + seq![close];
    let wrapped_right = seq![open] + right + seq![close];
    lemma_parsed_is_balanced(left);
    lemma_parsed_is_balanced(right);
    lemma_redundant_parentheses(left, open, close);
    lemma_redundant_parentheses(right, open, close);
    lemma_nothing_outside(left, open, close);
    lemma_nothing_outside(right, open, close);
    lemma_loosest_operator_splits(left, operator, right);
    lemma_loosest_operator_splits(wrapped_left, operator, right);
    lemma_loosest_operator_splits(left, operator, wrapped_right);
}

/// `!` binds tightest: it negates all that follows it when no operator
/// outside parentheses but `!` follows.
pub proof fn lemma_negation_applies_last(operator: TokenView, right: Seq<TokenView>)
    requires
        operator is Operator,
        spells(operator.name(), '!'),
        parse_spec(right) is Ok,
        binds_at_least(right, 3),
    ensures
        parse_spec(seq![operator] + right) == Ok::<Formula, crate::tokens::ParseErrorView>(
            Formula::Unary(UnaryOperator::NEG, Box::new(parse_spec(right)->Ok_0)),
        ),
{
    let tokens = seq![operator] + right;
    let n = tokens.len() as int;
    assert(tokens.subrange(1, n) =~= right);
    assert(tokens[0] == operator);
    assert(depth(tokens, 1) == 0) by {
        reveal_with_fuel(depth, 2);
    }
    assert forall|j: int| #[trigger] is_top_level_operator(tokens, j) implies rank(
        tokens[0].name(),
    ) <= rank(tokens[j].name()) by {
        if j > 0 {
            lemma_depth_within(tokens, 1, n, j - 1);
            assert(right[j - 1] == tokens[j]);
            assert(is_top_level_operator(right, j - 1));
        }
    }
    assert(is_split(tokens, 0));
    lemma_split_unique(tokens, 0, choose|i: int| is_split(tokens, i));
}

/// Parentheses round the whole text of an expression are redundant: where
/// a text parses to a tree, the text between `(` and `)` parses to the same
/// tree. So `a&b` and `(a&b)` are the same expression.
pub proof fn lemma_parenthesized_text(text: Seq<char>)
    requires
        parse_text(text) is Ok,
    ensures
        parse_text(seq!['('] + text + seq![')']) == parse_text(text),
{
    let wrapped = seq!['('] + text + seq![')'];
    let n = text.len() as int;
    let tokens = tokens_of(text);
    let open = TokenView::Open { pos: 0 };
    let close = TokenView::Close { pos: n + 1 };
    assert(tokenize_spec(text) == Ok::<Seq<TokenView>, ParseErrorView>(tokens));
    assert(wrapped.subrange(1, 1 + n) =~= text);
    assert(wrapped[0] == '(');
    assert(wrapped[n + 1] == ')');
    lemma_window(wrapped, text, 1, n);
    lemma_all_valid(text, 0);
    assert forall|k: int| 0 <= k < n + 2 implies valid_at(wrapped, k) by {
        if 1 <= k <= n {
            assert(valid_at(wrapped, 1 + (k - 1)) == valid_at(text, k - 1));
        }
    }
    lemma_first_invalid(wrapped, 0, n + 2);
    assert(tokens_before(wrapped, 1) == Seq::<TokenView>::empty().push(open)) by {
        reveal_with_fuel(tokens_before, 2);
    }
    assert(tokens_before(wrapped, n + 2) == tokens_before(wrapped, n + 1).push(close));
    assert(tokens_of(wrapped) =~= seq![open] + shift(tokens, 1) + seq![close]);
    assert(all_alike(tokens, shift(tokens, 1)));
    lemma_offsets_do_not_matter(tokens, shift(tokens, 1));
    lemma_redundant_parentheses(shift(tokens, 1), open, close);
}

} // verus!
