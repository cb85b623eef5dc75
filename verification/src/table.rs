//! The truth table of an expression.

use crate::expression::{assign, bit, EvaluationContext, Expression};
use crate::names::{increasing, lemma_place_of_name};
use vstd::arithmetic::power2::{
    lemma2_to64, lemma_pow2_pos, lemma_pow2_strictly_increases, lemma_pow2_unfold, pow2,
};
use vstd::prelude::*;

verus! {

/// One row of a truth table: the value of each declared variable, in the
/// order of the variables, and the value of the expression under them.
#[derive(Debug)]
pub struct TableRow {
    pub values: Vec<bool>,
    pub result: bool,
}

/// The value that `values` gives to each of the names `declared`, in their
/// order.
pub open spec fn row_values(declared: Seq<Seq<char>>, values: Map<Seq<char>, bool>) -> Seq<bool> {
    declared.map_values(|name: Seq<char>| values[name])
}

/// The number whose binary digit `j` is `digits[j]`.
pub open spec fn mask_of(digits: Seq<bool>) -> nat
    decreases digits.len(),
{
    if digits.len() == 0 {
        0
    } else {
        (if digits[0] {
            1nat
        } else {
            0nat
        }) + 2 * mask_of(digits.drop_first())
    }
}

/// Two different numbers below `2^k` differ in one of their `k` lowest
/// binary digits.
pub proof fn lemma_digits_differ(first: nat, second: nat, k: nat)
    requires
        first != second,
        first < pow2(k),
        second < pow2(k),
    ensures
        exists|j: nat| j < k && #[trigger] bit(first, j) != bit(second, j),
    decreases k,
{
    if k == 0 {
        lemma2_to64();
    } else {
        lemma_pow2_unfold(k);
        if first % 2 != second % 2 {
            assert(bit(first, 0) != bit(second, 0));
        } else {
            let halves = (first / 2, second / 2);
            lemma_digits_differ(halves.0, halves.1, (k - 1) as nat);
            let j = choose|j: nat| j < k - 1 && #[trigger] bit(halves.0, j) != bit(halves.1, j);
            assert(bit(first, j + 1) != bit(second, j + 1));
        }
    }
}

/// The number made of `digits` is below `2^k` for `k` digits, and has
/// those digits.
pub proof fn lemma_mask_of(digits: Seq<bool>)
    ensures
        mask_of(digits) < pow2(digits.len()),
        forall|j: nat| j < digits.len() ==> #[trigger] bit(mask_of(digits), j) == digits[j as int],
    decreases digits.len(),
{
    if digits.len() == 0 {
        lemma2_to64();
    } else {
        let rest = digits.drop_first();
        lemma_mask_of(rest);
        lemma_pow2_unfold(digits.len());
        let mask = mask_of(digits);
        assert(mask / 2 == mask_of(rest));
        assert forall|j: nat| j < digits.len() implies #[trigger] bit(mask, j)
            == digits[j as int] by {
            if j > 0 {
                assert(bit(mask, j) == bit(mask_of(rest), (j - 1) as nat));
                assert(rest[j - 1] == digits[j as int]);
            }
        }
    }
}

/// Two different rows of a truth table differ in the value of a free
/// variable: no assignment occurs twice.
pub proof fn lemma_rows_differ(
    values: Map<Seq<char>, bool>,
    free: Seq<Seq<char>>,
    first: nat,
    second: nat,
)
    requires
        increasing(free),
        first != second,
        first < pow2(free.len()),
        second < pow2(free.len()),
    ensures
        exists|j: int|
            0 <= j < free.len() && assign(values, free, first)[#[trigger] free[j]] != assign(
                values,
                free,
                second,
            )[free[j]],
{
    lemma_digits_differ(first, second, free.len());
    let j = choose|j: nat| j < free.len() && #[trigger] bit(first, j) != bit(second, j);
    lemma_place_of_name(free, j as int);
    let name = free[j as int];
    assert(assign(values, free, first)[name] != assign(values, free, second)[name]);
}

/// Row `mask` of the truth table gives each free variable the value that
/// `wanted` gives it.
pub open spec fn row_gives(
    values: Map<Seq<char>, bool>,
    free: Seq<Seq<char>>,
    mask: nat,
    wanted: Map<Seq<char>, bool>,
) -> bool {
    forall|j: int|
        0 <= j < free.len() ==> assign(values, free, mask)[#[trigger] free[j]] == wanted[free[j]]
}

/// Whatever values are wanted for the free variables, one row of the truth
/// table has them: every assignment occurs.
pub proof fn lemma_rows_cover(
    values: Map<Seq<char>, bool>,
    free: Seq<Seq<char>>,
    wanted: Map<Seq<char>, bool>,
)
    requires
        increasing(free),
    ensures
        exists|mask: nat|
            mask < pow2(free.len()) && #[trigger] row_gives(values, free, mask, wanted),
{
    let digits = Seq::new(free.len(), |j: int| wanted[free[j]]);
    let mask = mask_of(digits);
    lemma_mask_of(digits);
    assert forall|j: int| 0 <= j < free.len() implies assign(values, free, mask)[#[trigger] free[j]]
        == wanted[free[j]] by {
        lemma_place_of_name(free, j);
        assert(bit(mask, j as nat) == digits[j]);
    }
    assert(row_gives(values, free, mask, wanted));
}

/// A row of a truth table does not depend on the rows before it.
pub proof fn lemma_assign_again(
    values: Map<Seq<char>, bool>,
    free: Seq<Seq<char>>,
    before: nat,
    mask: nat,
)
    ensures
        assign(assign(values, free, before), free, mask) == assign(values, free, mask),
{
    assert(assign(assign(values, free, before), free, mask) =~= assign(values, free, mask));
}

/// The number of rows of the truth table: two to the power of the number
/// of free variables, where 128 binary digits hold that number.
pub fn row_count(ctxt: &EvaluationContext) -> (count: Option<u128>)
    ensures
        count is Some <==> pow2(ctxt.not_preset@.len()) <= u128::MAX,
        count matches Some(rows) ==> rows == pow2(ctxt.not_preset@.len()),
{
    let free_count = ctxt.not_preset.len();
    let mut count: u128 = 1;
    proof {
        lemma2_to64();
    }
    for j in 0..free_count
        invariant
            count == pow2(j as nat),
            free_count == ctxt.not_preset@.len(),
    {
        proof {
            lemma_pow2_unfold((j + 1) as nat);
            if j + 1 < free_count {
                lemma_pow2_strictly_increases((j + 1) as nat, free_count as nat);
            }
        }
        if count > u128::MAX / 2 {
            return None;
        }
        count = count * 2;
    }
    Some(count)
}

/// Row `row` of the truth table of `expr`: gives each free variable the
/// binary digit of `row` at its place, and reads off the values of the
/// declared variables and of the expression.
pub fn table_row(expr: &Expression, ctxt: &mut EvaluationContext, row: u128) -> (r: TableRow)
    requires
        old(ctxt).wf(),
        forall|name: Seq<char>| #[trigger]
            expr@.variables().contains(name) ==> old(ctxt).variables@.contains(name),
    ensures
        final(ctxt).wf(),
        final(ctxt).variables@ == old(ctxt).variables@,
        final(ctxt).not_preset@ == old(ctxt).not_preset@,
        final(ctxt).values() == assign(old(ctxt).values(), old(ctxt).not_preset@, row as nat),
        r.result == expr@.eval(final(ctxt).values()),
        r.values@ == row_values(old(ctxt).variables@, final(ctxt).values()),
{
    let ghost declared = ctxt.variables@;
    ctxt.set_not_presets(row);
    let ghost values = ctxt.values();
    assert forall|name: Seq<char>| #[trigger] declared.contains(name) implies values.contains_key(
        name,
    ) by {
        if !old(ctxt).not_preset@.contains(name) {
            assert(old(ctxt).values().contains_key(name));
        }
    }
    let result = expr.eval(ctxt);
    let mut row_values: Vec<bool> = Vec::new();
    let declared_count = ctxt.variables.len();
    for v in 0..declared_count
        invariant
            declared_count == declared.len(),
            ctxt.wf(),
            ctxt.variables@ == declared,
            ctxt.values() == values,
            forall|name: Seq<char>| #[trigger]
                declared.contains(name) ==> values.contains_key(name),
            row_values@.len() == v,
            forall|at: int| 0 <= at < v ==> row_values@[at] == values[declared[at]],
    {
        let name = ctxt.variables.get(v);
        assert(declared.contains(declared[v as int]));
        row_values.push(ctxt.get(name.as_str()));
    }
    assert(row_values@ =~= self::row_values(declared, values));
    TableRow { values: row_values, result }
}

/// The truth table of `expr`: one row for each way to give its free
/// variables values, row `i` with binary digit `j` of `i` for the free
/// variable at place `j`. There is no table where the number of its rows
/// is more than a machine word holds; the context is then left as it was,
/// and else with the values of the last row.
pub fn truth_table(expr: &Expression, ctxt: &mut EvaluationContext) -> (table: Option<
    Vec<TableRow>,
>)
    requires
        old(ctxt).wf(),
        forall|name: Seq<char>| #[trigger]
            expr@.variables().contains(name) ==> old(ctxt).variables@.contains(name),
    ensures
        final(ctxt).wf(),
        final(ctxt).variables@ == old(ctxt).variables@,
        final(ctxt).not_preset@ == old(ctxt).not_preset@,
        table is Some <==> pow2(old(ctxt).not_preset@.len()) <= usize::MAX,
        match table {
            Some(rows) => {
                &&& rows@.len() == pow2(old(ctxt).not_preset@.len())
                &&& forall|i: int|
                    0 <= i < rows@.len() ==> {
                        let values = assign(old(ctxt).values(), old(ctxt).not_preset@, i as nat);
                        &&& (#[trigger] rows@[i]).result == expr@.eval(values)
                        &&& rows@[i].values@ == row_values(old(ctxt).variables@, values)
                    }
                &&& final(ctxt).values() == assign(
                    old(ctxt).values(),
                    old(ctxt).not_preset@,
                    (rows@.len() - 1) as nat,
                )
            },
            None => final(ctxt).values() == old(ctxt).values(),
        },
{
    let ghost start = ctxt.values();
    let ghost free = ctxt.not_preset@;
    let ghost declared = ctxt.variables@;
    let free_count = ctxt.not_preset.len();
    let mut count: usize = 1;
    proof {
        lemma2_to64();
    }
    for j in 0..free_count
        invariant
            count == pow2(j as nat),
            free_count == free.len(),
            ctxt.variables@ == declared,
            ctxt.not_preset@ == free,
            ctxt.values() == start,
            ctxt.wf(),
    {
        proof {
            lemma_pow2_unfold((j + 1) as nat);
            if j + 1 < free_count {
                lemma_pow2_strictly_increases((j + 1) as nat, free_count as nat);
            }
        }
        if count > usize::MAX / 2 {
            return None;
        }
        count = count * 2;
    }
    proof {
        lemma_pow2_pos(free.len());
    }
    let mut rows: Vec<TableRow> = Vec::new();
    let mut i: usize = 0;
    while i < count
        invariant
            ctxt.wf(),
            ctxt.variables@ == declared,
            ctxt.not_preset@ == free,
            count == pow2(free.len()),
            count >= 1,
            i <= count,
            rows@.len() == i,
            forall|name: Seq<char>| #[trigger]
                expr@.variables().contains(name) ==> declared.contains(name),
            i == 0 ==> ctxt.values() == start,
            i > 0 ==> ctxt.values() == assign(start, free, (i - 1) as nat),
            forall|row: int|
                0 <= row < i ==> {
                    let values = assign(start, free, row as nat);
                    &&& (#[trigger] rows@[row]).result == expr@.eval(values)
                    &&& rows@[row].values@ == row_values(declared, values)
                },
        decreases count - i,
    {
        proof {
            if i > 0 {
                lemma_assign_again(start, free, (i - 1) as nat, i as nat);
            }
        }
        let row = table_row(expr, ctxt, i as u128);
        rows.push(row);
        i += 1;
    }
    Some(rows)
}

} // verus!
