//! The expression tree, what it stands for, and the values of its
//! variables.

use crate::alphabet::all_letters;
use crate::names::{increasing, in_order, lemma_in_order, lemma_place_of_name, NameMap, NameSet};
use vstd::prelude::*;

verus! {

/// Binary digit `j` of `mask`, counted from the lowest.
pub open spec fn bit(mask: nat, j: nat) -> bool
    decreases j,
{
    if j == 0 {
        mask % 2 == 1
    } else {
        bit(mask / 2, (j - 1) as nat)
    }
}

/// The values that hold in row `mask` of a truth table: the free variable at
/// place `j` of `free` has digit `j` of `mask`, and every other name the
/// value that `values` gives it.
pub open spec fn assign(values: Map<Seq<char>, bool>, free: Seq<Seq<char>>, mask: nat) -> Map<
    Seq<char>,
    bool,
> {
    Map::new(
        |name: Seq<char>| values.contains_key(name) || free.contains(name),
        |name: Seq<char>|
            if free.contains(name) {
                bit(mask, free.index_of(name) as nat)
            } else {
                values[name]
            },
    )
}

/// Giving one more free variable its digit is one more entry in the map.
proof fn lemma_assign_next(
    values: Map<Seq<char>, bool>,
    free: Seq<Seq<char>>,
    mask: nat,
    done: int,
)
    requires
        increasing(free),
        0 <= done < free.len(),
    ensures
        assign(values, free.take(done + 1), mask) == assign(values, free.take(done), mask).insert(
            free[done],
            bit(mask, done as nat),
        ),
{
    let shorter = free.take(done);
    let longer = free.take(done + 1);
    assert(increasing(longer));
    lemma_place_of_name(longer, done);
    assert forall|name: Seq<char>| shorter.contains(name) implies longer.contains(name)
        && longer.index_of(name) == shorter.index_of(name) by {
        let at = shorter.index_of(name);
        assert(longer[at] == name);
        lemma_place_of_name(longer, at);
    }
    assert forall|name: Seq<char>| longer.contains(name) && name != free[done]
        implies shorter.contains(name) by {
        let at = longer.index_of(name);
        assert(shorter[at] == name);
    }
    assert(assign(values, longer, mask) =~= assign(values, shorter, mask).insert(
        free[done],
        bit(mask, done as nat),
    ));
}

/// The variables of an expression with the values they currently have, and
/// which of them were not given a fixed value.
#[derive(Debug)]
pub struct EvaluationContext {
    pub variables: NameSet,
    pub not_preset: NameSet,
    pub values: NameMap,
}

impl EvaluationContext {
    /// The value that each name has at present.
    pub open spec fn values(&self) -> Map<Seq<char>, bool> {
        self.values@
    }

    /// The free variables are declared, and every declared variable that is
    /// not free has a value.
    pub open spec fn wf(&self) -> bool {
        &&& self.variables.wf()
        &&& self.not_preset.wf()
        &&& self.values.wf()
        &&& forall|name: Seq<char>| #[trigger]
            self.not_preset@.contains(name) ==> self.variables@.contains(name)
        &&& forall|name: Seq<char>| #[trigger]
            self.variables@.contains(name) && !self.not_preset@.contains(name)
                ==> self.values().contains_key(name)
    }

    /// Every variable of `formula` has a value.
    pub open spec fn defines(&self, formula: Formula) -> bool {
        forall|name: Seq<char>| #[trigger]
            formula.variables().contains(name) ==> self.values().contains_key(name)
    }

    /// A context for the given variables, all of them free and without a
    /// value.
    pub fn new(variables: NameSet) -> (r: EvaluationContext)
        requires
            variables.wf(),
        ensures
            r.wf(),
            r.variables@ == variables@,
            r.not_preset@ == variables@,
            r.values() == Map::<Seq<char>, bool>::empty(),
    {
        let not_preset = variables.clone();
        EvaluationContext { variables, not_preset, values: NameMap::new() }
    }

    /// Fixes the free variable `name` to `preset_value`. A name that is not
    /// declared, or not free any more, leaves the context as it was.
    pub fn preset(&mut self, name: &str, preset_value: bool) -> (r: Result<bool, String>)
        requires
            old(self).wf(),
        ensures
            final(self).wf(),
            final(self).variables@ == old(self).variables@,
            match r {
                Ok(value) => {
                    &&& old(self).not_preset@.contains(name@)
                    &&& value == preset_value
                    &&& final(self).not_preset@ == old(self).not_preset@.remove(
                        old(self).not_preset@.index_of(name@),
                    )
                    &&& final(self).values() == old(self).values().insert(name@, preset_value)
                },
                Err(message) => {
                    &&& !old(self).not_preset@.contains(name@)
                    &&& final(self).not_preset@ == old(self).not_preset@
                    &&& final(self).values() == old(self).values()
                    &&& message@ == if old(self).variables@.contains(name@) {
                        "variable '"@ + name@ + "' preset twice"@
                    } else {
                        "no variable named '"@ + name@ + "'"@
                    }
                },
            },
    {
        if self.variables.contains(name) {
            if self.not_preset.contains(name) {
                self.not_preset.remove(name);
                self.values.insert(String::from_str(name), preset_value);
                proof {
                    let before = old(self).not_preset@;
                    let after = self.not_preset@;
                    assert forall|n: Seq<char>| after.contains(n) implies before.contains(n)
                        && n != name@ by {
                        assert(after.to_set().contains(n));
                    }
                    assert forall|n: Seq<char>| before.contains(n) && n != name@
                        implies after.contains(n) by {
                        assert(before.to_set().contains(n));
                        assert(after.to_set().contains(n));
                    }
                }
                Ok(preset_value)
            } else {
                Err(String::from_str("variable '").concat(name).concat("' preset twice"))
            }
        } else {
            Err(String::from_str("no variable named '").concat(name).concat("'"))
        }
    }

    /// The value that `name` has at present.
    pub fn get(&self, name: &str) -> (value: bool)
        requires
            self.wf(),
            self.values().contains_key(name@),
        ensures
            value == self.values()[name@],
    {
        match self.values.get(name) {
            Some(value) => value,
            None => false,
        }
    }

    /// Gives `name` the value `value`, declared or not.
    pub fn set(&mut self, name: &str, value: bool)
        requires
            old(self).wf(),
        ensures
            final(self).wf(),
            final(self).variables@ == old(self).variables@,
            final(self).not_preset@ == old(self).not_preset@,
            final(self).values() == old(self).values().insert(name@, value),
    {
        self.values.insert(String::from_str(name), value);
    }

    /// Gives the free variables the values of row `values` of the truth
    /// table: the free variable at place `j` has binary digit `j` of
    /// `values`.
    pub fn set_not_presets(&mut self, values: u128)
        requires
            old(self).wf(),
        ensures
            final(self).wf(),
            final(self).variables@ == old(self).variables@,
            final(self).not_preset@ == old(self).not_preset@,
            final(self).values() == assign(
                old(self).values(),
                old(self).not_preset@,
                values as nat,
            ),
    {
        let ghost free = self.not_preset@;
        let ghost start = self.values();
        let mut rest: u128 = values;
        let count = self.not_preset.len();
        let mut i: usize = 0;
        proof {
            assert(assign(start, free.take(0), values as nat) =~= start);
        }
        while i < count
            invariant
                self.wf(),
                self.variables@ == old(self).variables@,
                self.not_preset@ == free,
                count == free.len(),
                i <= count,
                forall|j: nat| #[trigger] bit(rest as nat, j) == bit(values as nat, (i + j) as nat),
                self.values() == assign(start, free.take(i as int), values as nat),
            decreases count - i,
        {
            let name = self.not_preset.get(i).clone();
            proof {
                assert(bit(rest as nat, 0) == bit(values as nat, (i + 0) as nat));
                lemma_assign_next(start, free, values as nat, i as int);
                assert forall|j: nat| #[trigger] bit((rest / 2) as nat, j) == bit(
                    values as nat,
                    (i + 1 + j) as nat,
                ) by {
                    assert(bit(rest as nat, j + 1) == bit(values as nat, (i + (j + 1)) as nat));
                }
            }
            self.values.insert(name, rest % 2 == 1);
            rest = rest / 2;
            i += 1;
        }
        proof {
            assert(free.take(count as int) =~= free);
        }
    }
}

/// What an argument `+name` or `-name` asks for: the name and the value to
/// fix it to, `true` for `+` and `false` for `-`. Any other argument is no
/// preset.
pub open spec fn preset_spec(arg: Seq<char>) -> Option<(Seq<char>, bool)> {
    if arg.len() > 0 && (arg[0] == '+' || arg[0] == '-') {
        Some((arg.subrange(1, arg.len() as int), arg[0] == '+'))
    } else {
        None
    }
}

/// Reads an argument `+name` or `-name`.
pub fn parse_preset(arg: &str) -> (r: Option<(String, bool)>)
    ensures
        match r {
            Some((name, value)) => preset_spec(arg@) == Some((name@, value)),
            None => preset_spec(arg@) is None,
        },
{
    let len = arg.unicode_len();
    if len == 0 {
        return None;
    }
    let sign = arg.get_char(0);
    if sign == '+' || sign == '-' {
        Some((String::from_str(arg.substring_char(1, len)), sign == '+'))
    } else {
        None
    }
}

/// The operator with one operand: negation, written `!`.
#[derive(Debug, Clone, Copy, PartialEq, Eq, Structural)]
pub enum UnaryOperator {
    NEG,
}

/// The operators with two operands: or `|`, and `&`, exclusive or `^`,
/// implication `=>` and equality `=`.
#[derive(Debug, Clone, Copy, PartialEq, Eq, Structural)]
pub enum BinaryOperator {
    OR,
    AND,
    XOR,
    IMP,
    EQ,
}

impl BinaryOperator {
    /// How tightly the operator binds: the higher, the tighter.
    pub open spec fn rank(self) -> nat {
        match self {
            BinaryOperator::OR => 1,
            BinaryOperator::XOR => 1,
            BinaryOperator::AND => 2,
            BinaryOperator::EQ => 0,
            BinaryOperator::IMP => 0,
        }
    }

    /// The operator as it is written.
    pub open spec fn symbol(self) -> Seq<char> {
        match self {
            BinaryOperator::OR => seq!['|'],
            BinaryOperator::XOR => seq!['^'],
            BinaryOperator::AND => seq!['&'],
            BinaryOperator::EQ => seq!['='],
            BinaryOperator::IMP => seq!['=', '>'],
        }
    }

    /// The operator's name in a dump.
    pub open spec fn label(self) -> Seq<char> {
        match self {
            BinaryOperator::OR => "Or("@,
            BinaryOperator::XOR => "Xor("@,
            BinaryOperator::AND => "And("@,
            BinaryOperator::EQ => "Eq("@,
            BinaryOperator::IMP => "Imp("@,
        }
    }

    /// The truth value of the operator applied to two truth values.
    pub open spec fn apply(self, left: bool, right: bool) -> bool {
        match self {
            BinaryOperator::OR => left || right,
            BinaryOperator::XOR => left != right,
            BinaryOperator::AND => left && right,
            BinaryOperator::EQ => left == right,
            BinaryOperator::IMP => !left || right,
        }
    }
}

/// A boolean expression as a mathematical tree: what an [`Expression`]
/// stands for.
pub enum Formula {
    Value(bool),
    Variable(Seq<char>),
    Unary(UnaryOperator, Box<Formula>),
    Binary(BinaryOperator, Box<Formula>, Box<Formula>),
}

impl Formula {
    /// The truth value of the formula where each variable has the value that
    /// `values` gives it.
    pub open spec fn eval(self, values: Map<Seq<char>, bool>) -> bool
        decreases self,
    {
        match self {
            Formula::Value(value) => value,
            Formula::Variable(name) => values[name],
            Formula::Unary(UnaryOperator::NEG, arg) => !arg.eval(values),
            Formula::Binary(op, left, right) => op.apply(left.eval(values), right.eval(values)),
        }
    }

    /// How tightly the formula's outermost operator binds; a value or a
    /// variable binds tightest.
    pub open spec fn precedence(self) -> nat {
        match self {
            Formula::Value(_) => 4,
            Formula::Variable(_) => 4,
            Formula::Unary(UnaryOperator::NEG, _) => 3,
            Formula::Binary(op, _, _) => op.rank(),
        }
    }

    /// The formula as text, with parentheses only round an operand that
    /// binds no tighter than the operator it stands under.
    pub open spec fn text(self) -> Seq<char>
        decreases self, 0nat,
    {
        match self {
            Formula::Value(value) => if value {
                seq!['1']
            } else {
                seq!['0']
            },
            Formula::Variable(name) => name,
            Formula::Unary(UnaryOperator::NEG, arg) => seq!['!'] + arg.operand_text(3),
            Formula::Binary(op, left, right) => left.operand_text(op.rank()) + seq![' ']
                + op.symbol() + seq![' '] + right.operand_text(op.rank()),
        }
    }

    /// The formula as text where it is an operand of an operator of
    /// precedence `parent`.
    pub open spec fn operand_text(self, parent: nat) -> Seq<char>
        decreases self, 1nat,
    {
        if self.precedence() > parent {
            self.text()
        } else {
            seq!['('] + self.text() + seq![')']
        }
    }

    /// The formula with every node named and every operand in parentheses.
    pub open spec fn dump(self) -> Seq<char>
        decreases self,
    {
        match self {
            Formula::Value(value) => if value {
                "Value(1)"@
            } else {
                "Value(0)"@
            },
            Formula::Variable(name) => "Variable("@ + name + ")"@,
            Formula::Unary(UnaryOperator::NEG, arg) => "Neg("@ + arg.dump() + ")"@,
            Formula::Binary(op, left, right) => op.label() + left.dump() + ","@ + right.dump()
                + ")"@,
        }
    }

    /// The nodes of the formula, each before its operands, the left operand
    /// before the right one.
    pub open spec fn preorder(self) -> Seq<Formula>
        decreases self,
    {
        match self {
            Formula::Value(_) => seq![self],
            Formula::Variable(_) => seq![self],
            Formula::Unary(_, arg) => seq![self] + arg.preorder(),
            Formula::Binary(_, left, right) => seq![self] + left.preorder() + right.preorder(),
        }
    }

    /// Every variable of the formula has a name: one letter or more, and
    /// nothing but letters.
    pub open spec fn well_named(self) -> bool
        decreases self,
    {
        match self {
            Formula::Value(_) => true,
            Formula::Variable(name) => name.len() > 0 && all_letters(name),
            Formula::Unary(_, arg) => arg.well_named(),
            Formula::Binary(_, left, right) => left.well_named() && right.well_named(),
        }
    }

    /// The names of the variables that occur in the formula.
    pub open spec fn variables(self) -> Set<Seq<char>>
        decreases self,
    {
        match self {
            Formula::Value(_) => Set::empty(),
            Formula::Variable(name) => set![name],
            Formula::Unary(_, arg) => arg.variables(),
            Formula::Binary(_, left, right) => left.variables().union(right.variables()),
        }
    }
}

/// A constant truth value.
#[derive(Debug)]
pub struct Value {
    value: bool,
}

/// A named variable.
#[derive(Debug)]
pub struct Variable {
    pub name: String,
}

/// An operator applied to one operand.
#[derive(Debug)]
pub struct UnaryExpression {
    op: UnaryOperator,
    arg: Box<Expression>,
}

/// An operator applied to two operands.
#[derive(Debug)]
pub struct BinaryExpression {
    op: BinaryOperator,
    left: Box<Expression>,
    right: Box<Expression>,
}

/// A boolean expression: a value, a variable, or an operator with its
/// operands.
#[derive(Debug)]
pub enum Expression {
    Value(Value),
    Variable(Variable),
    Unary(UnaryExpression),
    Binary(BinaryExpression),
}

impl Value {
    /// The formula that this node stands for.
    pub closed spec fn formula(&self) -> Formula {
        Formula::Value(self.value)
    }
}

impl Variable {
    /// The formula that this node stands for.
    pub open spec fn formula(&self) -> Formula {
        Formula::Variable(self.name@)
    }
}

impl UnaryExpression {
    /// The formula that this node stands for.
    pub closed spec fn formula(&self) -> Formula
        decreases self,
    {
        Formula::Unary(self.op, Box::new(self.arg.formula()))
    }

    /// The nodes of the operand.
    pub closed spec fn operand_nodes(&self) -> Seq<Expression>
        decreases self,
    {
        self.arg.nodes()
    }
}

impl BinaryExpression {
    /// The formula that this node stands for.
    pub closed spec fn formula(&self) -> Formula
        decreases self,
    {
        Formula::Binary(self.op, Box::new(self.left.formula()), Box::new(self.right.formula()))
    }

    /// The nodes of the left operand, then those of the right operand.
    pub closed spec fn operand_nodes(&self) -> Seq<Expression>
        decreases self,
    {
        self.left.nodes() + self.right.nodes()
    }
}

impl Expression {
    /// The formula that this expression stands for.
    pub open spec fn formula(&self) -> Formula
        decreases self,
    {
        match self {
            Expression::Value(e) => e.formula(),
            Expression::Variable(e) => e.formula(),
            Expression::Unary(e) => e.formula(),
            Expression::Binary(e) => e.formula(),
        }
    }

    /// The nodes of the expression: itself, then the nodes of its operands,
    /// the left operand before the right one.
    pub open spec fn nodes(&self) -> Seq<Expression>
        decreases self,
    {
        match self {
            Expression::Value(_) => seq![*self],
            Expression::Variable(_) => seq![*self],
            Expression::Unary(e) => seq![*self] + e.operand_nodes(),
            Expression::Binary(e) => seq![*self] + e.operand_nodes(),
        }
    }
}

impl View for Value {
    type V = Formula;

    open spec fn view(&self) -> Formula {
        self.formula()
    }
}

impl View for Variable {
    type V = Formula;

    open spec fn view(&self) -> Formula {
        self.formula()
    }
}

impl View for UnaryExpression {
    type V = Formula;

    open spec fn view(&self) -> Formula {
        self.formula()
    }
}

impl View for BinaryExpression {
    type V = Formula;

    open spec fn view(&self) -> Formula {
        self.formula()
    }
}

impl View for Expression {
    type V = Formula;

    open spec fn view(&self) -> Formula {
        self.formula()
    }
}

impl Value {
    /// The constant `value`.
    pub fn new(value: bool) -> (r: Value)
        ensures
            r@ == Formula::Value(value),
    {
        Value { value }
    }

    /// The truth value of the node under the values that `ctxt` holds.
    pub fn eval(&self, ctxt: &EvaluationContext) -> (r: bool)
        ensures
            r == self@.eval(ctxt.values()),
    {
        self.value
    }

    /// How tightly the node binds when it is printed.
    pub fn precedence(&self) -> (r: usize)
        ensures
            r == self@.precedence(),
    {
        4
    }

    /// The node as text, with no more parentheses than it needs.
    pub fn to_string(&self) -> (r: String)
        ensures
            r@ == self@.text(),
    {
        proof {
            reveal_strlit("1");
            reveal_strlit("0");
        }
        if self.value {
            String::from_str("1")
        } else {
            String::from_str("0")
        }
    }

    /// The node with each of its parts named and in parentheses.
    pub fn to_dump_string(&self) -> (r: String)
        ensures
            r@ == self@.dump(),
    {
        if self.value {
            String::from_str("Value(1)")
        } else {
            String::from_str("Value(0)")
        }
    }
}

impl Variable {
    /// The variable called `name`.
    pub fn new(name: &str) -> (r: Variable)
        ensures
            r@ == Formula::Variable(name@),
    {
        Variable { name: String::from_str(name) }
    }

    /// The truth value of the node under the values that `ctxt` holds.
    pub fn eval(&self, ctxt: &EvaluationContext) -> (r: bool)
        requires
            ctxt.wf(),
            ctxt.defines(self@),
        ensures
            r == self@.eval(ctxt.values()),
    {
        assert(self@.variables().contains(self.name@));
        ctxt.get(self.name.as_str())
    }

    /// How tightly the node binds when it is printed.
    pub fn precedence(&self) -> (r: usize)
        ensures
            r == self@.precedence(),
    {
        4
    }

    /// The node as text, with no more parentheses than it needs.
    pub fn to_string(&self) -> (r: String)
        ensures
            r@ == self@.text(),
    {
        self.name.clone()
    }

    /// The node with each of its parts named and in parentheses.
    pub fn to_dump_string(&self) -> (r: String)
        ensures
            r@ == self@.dump(),
    {
        String::from_str("Variable(").concat(self.name.as_str()).concat(")")
    }
}

/// The text of `expr` where it is an operand of an operator of precedence
/// `parent_precedence`: in parentheses unless it binds tighter.
pub fn to_string(expr: &Box<Expression>, parent_precedence: usize) -> (r: String)
    ensures
        r@ == expr@.operand_text(parent_precedence as nat),
    decreases **expr, 3nat,
{
    if expr.precedence() > parent_precedence {
        expr.to_string()
    } else {
        proof {
            reveal_strlit("(");
            reveal_strlit(")");
        }
        String::from_str("(").concat(expr.to_string().as_str()).concat(")")
    }
}

impl UnaryExpression {
    /// The operator `op` applied to `arg`.
    pub fn new(op: UnaryOperator, arg: Box<Expression>) -> (r: UnaryExpression)
        ensures
            r@ == Formula::Unary(op, Box::new(arg@)),
    {
        UnaryExpression { op, arg }
    }

    /// The truth value of the node under the values that `ctxt` holds.
    pub fn eval(&self, ctxt: &EvaluationContext) -> (r: bool)
        requires
            ctxt.wf(),
            ctxt.defines(self@),
        ensures
            r == self@.eval(ctxt.values()),
        decreases *self,
    {
        proof {
            lemma_defines_operands(ctxt.values(), self@);
        }
        match self.op {
            UnaryOperator::NEG => !self.arg.eval(ctxt),
        }
    }

    /// How tightly the node binds when it is printed.
    pub fn precedence(&self) -> (r: usize)
        ensures
            r == self@.precedence(),
    {
        match self.op {
            UnaryOperator::NEG => 3,
        }
    }

    /// The node as text, with no more parentheses than it needs.
    pub fn to_string(&self) -> (r: String)
        ensures
            r@ == self@.text(),
        decreases *self, 0nat,
    {
        proof {
            reveal_strlit("!");
        }
        match self.op {
            UnaryOperator::NEG => String::from_str("!").concat(
                to_string(&self.arg, self.precedence()).as_str(),
            ),
        }
    }

    /// The node with each of its parts named and in parentheses.
    pub fn to_dump_string(&self) -> (r: String)
        ensures
            r@ == self@.dump(),
        decreases *self,
    {
        match self.op {
            UnaryOperator::NEG => String::from_str("Neg(").concat(
                self.arg.to_dump_string().as_str(),
            ).concat(")"),
        }
    }
}

impl BinaryExpression {
    /// The operator `op` applied to `left` and `right`.
    pub fn new(op: BinaryOperator, left: Box<Expression>, right: Box<Expression>) -> (r:
        BinaryExpression)
        ensures
            r@ == Formula::Binary(op, Box::new(left@), Box::new(right@)),
    {
        BinaryExpression { op, left, right }
    }

    /// The truth value of the node under the values that `ctxt` holds.
    pub fn eval(&self, ctxt: &EvaluationContext) -> (r: bool)
        requires
            ctxt.wf(),
            ctxt.defines(self@),
        ensures
            r == self@.eval(ctxt.values()),
        decreases *self,
    {
        proof {
            lemma_defines_operands(ctxt.values(), self@);
        }
        match self.op {
            BinaryOperator::OR => self.left.eval(ctxt) || self.right.eval(ctxt),
            BinaryOperator::XOR => self.left.eval(ctxt) != self.right.eval(ctxt),
            BinaryOperator::AND => self.left.eval(ctxt) && self.right.eval(ctxt),
            BinaryOperator::EQ => self.left.eval(ctxt) == self.right.eval(ctxt),
            BinaryOperator::IMP => !self.left.eval(ctxt) || self.right.eval(ctxt),
        }
    }

    /// How tightly the node binds when it is printed.
    pub fn precedence(&self) -> (r: usize)
        ensures
            r == self@.precedence(),
    {
        match self.op {
            BinaryOperator::OR => 1,
            BinaryOperator::XOR => 1,
            BinaryOperator::AND => 2,
            BinaryOperator::EQ => 0,
            BinaryOperator::IMP => 0,
        }
    }

    /// The node as text, with no more parentheses than it needs.
    pub fn to_string(&self) -> (r: String)
        ensures
            r@ == self@.text(),
        decreases *self, 0nat,
    {
        let left = to_string(&self.left, self.precedence());
        let right = to_string(&self.right, self.precedence());
        proof {
            reveal_strlit(" | ");
            reveal_strlit(" ^ ");
            reveal_strlit(" & ");
            reveal_strlit(" = ");
            reveal_strlit(" => ");
        }
        let symbol = match self.op {
            BinaryOperator::OR => " | ",
            BinaryOperator::XOR => " ^ ",
            BinaryOperator::AND => " & ",
            BinaryOperator::EQ => " = ",
            BinaryOperator::IMP => " => ",
        };
        assert(symbol@ == seq![' '] + self.op.symbol() + seq![' ']);
        let r = left.concat(symbol).concat(right.as_str());
        assert(r@ == self@.text());
        r
    }

    /// The node with each of its parts named and in parentheses.
    pub fn to_dump_string(&self) -> (r: String)
        ensures
            r@ == self@.dump(),
        decreases *self,
    {
        let label = match self.op {
            BinaryOperator::OR => "Or(",
            BinaryOperator::XOR => "Xor(",
            BinaryOperator::AND => "And(",
            BinaryOperator::EQ => "Eq(",
            BinaryOperator::IMP => "Imp(",
        };
        String::from_str(label).concat(self.left.to_dump_string().as_str()).concat(",").concat(
            self.right.to_dump_string().as_str(),
        ).concat(")")
    }
}

impl Expression {
    /// The truth value of the expression under the values that `ctxt` holds.
    pub fn eval(&self, ctxt: &EvaluationContext) -> (r: bool)
        requires
            ctxt.wf(),
            ctxt.defines(self@),
        ensures
            r == self@.eval(ctxt.values()),
        decreases *self,
    {
        match self {
            Expression::Value(e) => e.eval(ctxt),
            Expression::Variable(e) => e.eval(ctxt),
            Expression::Unary(e) => e.eval(ctxt),
            Expression::Binary(e) => e.eval(ctxt),
        }
    }

    /// The nodes of the expression: itself, then the nodes of its operands,
    /// the left operand before the right one.
    pub fn traverse(&self) -> (nodes: Vec<&Expression>)
        ensures
            targets(nodes@) == self.nodes(),
            formulas(nodes@) == self@.preorder(),
    {
        let mut nodes: Vec<&Expression> = Vec::new();
        self.visit(&mut nodes);
        proof {
            assert(targets(nodes@) =~= self.nodes());
            lemma_nodes_formulas(*self);
            assert(formulas(nodes@) =~= self.nodes().map_values(|e: Expression| e@));
        }
        nodes
    }

    /// Adds the nodes of the expression to `nodes`, each before its operands.
    fn visit<'a>(&'a self, nodes: &mut Vec<&'a Expression>)
        ensures
            targets(final(nodes)@) == targets(old(nodes)@) + self.nodes(),
        decreases *self,
    {
        nodes.push(self);
        assert(targets(nodes@) =~= targets(old(nodes)@) + seq![*self]);
        match self {
            Expression::Value(_) => {},
            Expression::Variable(_) => {},
            Expression::Unary(e) => {
                e.arg.visit(nodes);
                assert(targets(nodes@) =~= targets(old(nodes)@) + self.nodes());
            },
            Expression::Binary(e) => {
                e.left.visit(nodes);
                e.right.visit(nodes);
                assert(targets(nodes@) =~= targets(old(nodes)@) + self.nodes());
            },
        }
    }

    /// How tightly the expression binds when it is printed.
    pub fn precedence(&self) -> (r: usize)
        ensures
            r == self@.precedence(),
    {
        match self {
            Expression::Value(e) => e.precedence(),
            Expression::Variable(e) => e.precedence(),
            Expression::Unary(e) => e.precedence(),
            Expression::Binary(e) => e.precedence(),
        }
    }

    /// The variable that this expression is, if it is one.
    pub fn as_variable(&self) -> (r: Option<&Variable>)
        ensures
            match r {
                Some(v) => *self == Expression::Variable(*v),
                None => !(self is Variable),
            },
    {
        match self {
            Expression::Variable(e) => Some(e),
            _ => None,
        }
    }

    /// The expression as text, with no more parentheses than it needs.
    pub fn to_string(&self) -> (r: String)
        ensures
            r@ == self@.text(),
        decreases *self, 2nat,
    {
        match self {
            Expression::Value(e) => e.to_string(),
            Expression::Variable(e) => e.to_string(),
            Expression::Unary(e) => e.to_string(),
            Expression::Binary(e) => e.to_string(),
        }
    }

    /// The expression with each of its parts named and in parentheses.
    pub fn to_dump_string(&self) -> (r: String)
        ensures
            r@ == self@.dump(),
        decreases *self,
    {
        match self {
            Expression::Value(e) => e.to_dump_string(),
            Expression::Variable(e) => e.to_dump_string(),
            Expression::Unary(e) => e.to_dump_string(),
            Expression::Binary(e) => e.to_dump_string(),
        }
    }
}

/// The nodes that a sequence of references points to.
pub open spec fn targets(nodes: Seq<&Expression>) -> Seq<Expression> {
    nodes.map_values(|e: &Expression| *e)
}

/// The formulas that a sequence of nodes stands for.
pub open spec fn formulas(nodes: Seq<&Expression>) -> Seq<Formula> {
    nodes.map_values(|e: &Expression| e@)
}

/// The nodes of an expression stand for the nodes of its formula.
pub proof fn lemma_nodes_formulas(expr: Expression)
    ensures
        expr.nodes().map_values(|e: Expression| e@) == expr@.preorder(),
    decreases expr,
{
    let nodes = expr.nodes();
    let views = nodes.map_values(|e: Expression| e@);
    match expr {
        Expression::Value(_) => {
            assert(views =~= expr@.preorder());
        },
        Expression::Variable(_) => {
            assert(views =~= expr@.preorder());
        },
        Expression::Unary(e) => {
            lemma_nodes_formulas(*e.arg);
            assert(views =~= seq![expr@] + e.arg.nodes().map_values(|e: Expression| e@));
            assert(views =~= expr@.preorder());
        },
        Expression::Binary(e) => {
            lemma_nodes_formulas(*e.left);
            lemma_nodes_formulas(*e.right);
            assert(views =~= seq![expr@] + e.left.nodes().map_values(|e: Expression| e@)
                + e.right.nodes().map_values(|e: Expression| e@));
            assert(views =~= expr@.preorder());
        },
    }
}

/// The names of the variables among `nodes`.
pub open spec fn names_among(nodes: Seq<Formula>) -> Set<Seq<char>> {
    Set::new(|name: Seq<char>| nodes.contains(Formula::Variable(name)))
}

/// Where every variable of a formula has a value, every variable of each of
/// its operands has one.
proof fn lemma_defines_operands(values: Map<Seq<char>, bool>, formula: Formula)
    requires
        forall|name: Seq<char>| #[trigger]
            formula.variables().contains(name) ==> values.contains_key(name),
    ensures
        match formula {
            Formula::Unary(_, arg) => forall|name: Seq<char>| #[trigger]
                arg.variables().contains(name) ==> values.contains_key(name),
            Formula::Binary(_, left, right) => {
                &&& forall|name: Seq<char>| #[trigger]
                    left.variables().contains(name) ==> values.contains_key(name)
                &&& forall|name: Seq<char>| #[trigger]
                    right.variables().contains(name) ==> values.contains_key(name)
            },
            _ => true,
        },
{
    match formula {
        Formula::Unary(_, arg) => {
            assert forall|name: Seq<char>| #[trigger]
                arg.variables().contains(name) implies values.contains_key(name) by {
                assert(formula.variables().contains(name));
            }
        },
        Formula::Binary(_, left, right) => {
            assert forall|name: Seq<char>| #[trigger]
                left.variables().contains(name) implies values.contains_key(name) by {
                assert(formula.variables().contains(name));
            }
            assert forall|name: Seq<char>| #[trigger]
                right.variables().contains(name) implies values.contains_key(name) by {
                assert(formula.variables().contains(name));
            }
        },
        _ => {},
    }
}

/// The variables among the nodes of a formula are the variables of the
/// formula.
pub proof fn lemma_names_among_nodes(formula: Formula)
    ensures
        names_among(formula.preorder()) == formula.variables(),
    decreases formula,
{
    let nodes = formula.preorder();
    match formula {
        Formula::Value(_) => {
            assert forall|name: Seq<char>| !nodes.contains(Formula::Variable(name)) by {
                if nodes.contains(Formula::Variable(name)) {
                    let at = nodes.index_of(Formula::Variable(name));
                }
            }
        },
        Formula::Variable(own) => {
            assert(nodes[0] == Formula::Variable(own));
            assert forall|name: Seq<char>| nodes.contains(Formula::Variable(name)) implies name
                == own by {
                let at = nodes.index_of(Formula::Variable(name));
            }
        },
        Formula::Unary(_, arg) => {
            lemma_names_among_nodes(*arg);
            let below = arg.preorder();
            assert forall|name: Seq<char>|
                nodes.contains(Formula::Variable(name)) == below.contains(
                    Formula::Variable(name),
                ) by {
                if nodes.contains(Formula::Variable(name)) {
                    let at = nodes.index_of(Formula::Variable(name));
                    assert(below[at - 1] == Formula::Variable(name));
                }
                if below.contains(Formula::Variable(name)) {
                    let at = below.index_of(Formula::Variable(name));
                    assert(nodes[at + 1] == Formula::Variable(name));
                }
            }
        },
        Formula::Binary(_, left, right) => {
            lemma_names_among_nodes(*left);
            lemma_names_among_nodes(*right);
            let first = left.preorder();
            let second = right.preorder();
            assert forall|name: Seq<char>|
                nodes.contains(Formula::Variable(name)) == (first.contains(
                    Formula::Variable(name),
                ) || second.contains(Formula::Variable(name))) by {
                if nodes.contains(Formula::Variable(name)) {
                    let at = nodes.index_of(Formula::Variable(name));
                    if at <= first.len() {
                        assert(first[at - 1] == Formula::Variable(name));
                    } else {
                        assert(second[at - 1 - first.len()] == Formula::Variable(name));
                    }
                }
                if first.contains(Formula::Variable(name)) {
                    let at = first.index_of(Formula::Variable(name));
                    assert(nodes[at + 1] == Formula::Variable(name));
                }
                if second.contains(Formula::Variable(name)) {
                    let at = second.index_of(Formula::Variable(name));
                    assert(nodes[at + 1 + first.len()] == Formula::Variable(name));
                }
            }
            assert forall|name: Seq<char>|
                names_among(nodes).contains(name) == formula.variables().contains(name) by {
                assert(names_among(first).contains(name) == left.variables().contains(name));
                assert(names_among(second).contains(name) == right.variables().contains(name));
            }
        },
    }
    assert(names_among(nodes) =~= formula.variables());
}

/// The names of the variables that occur in an expression, each once.
pub fn collect_variables(expr: &Expression) -> (variables: NameSet)
    ensures
        variables.wf(),
        variables@.to_set() == expr@.variables(),
        variables@ == in_order(expr@.variables()),
{
    let nodes = expr.traverse();
    let ghost all = formulas(nodes@);
    let mut variables = NameSet::new();
    assert(variables@.to_set() =~= names_among(all.take(0)));
    for i in 0..nodes.len()
        invariant
            all == formulas(nodes@),
            variables.wf(),
            variables@.to_set() == names_among(all.take(i as int)),
    {
        let ghost before = variables@.to_set();
        let ghost shorter = all.take(i as int);
        let ghost longer = all.take(i + 1);
        assert(longer =~= shorter.push(all[i as int]));
        assert(all[i as int] == nodes@[i as int]@);
        if let Some(var) = nodes[i].as_variable() {
            variables.insert(var.name.clone());
            proof {
                let own = var.name@;
                assert(all[i as int] == Formula::Variable(own));
                assert forall|name: Seq<char>|
                    names_among(longer).contains(name) == before.insert(own).contains(name) by {
                    if longer.contains(Formula::Variable(name)) {
                        let at = longer.index_of(Formula::Variable(name));
                        if at < i {
                            assert(shorter[at] == Formula::Variable(name));
                        }
                    }
                    if shorter.contains(Formula::Variable(name)) {
                        let at = shorter.index_of(Formula::Variable(name));
                        assert(longer[at] == Formula::Variable(name));
                    }
                    if name == own {
                        assert(longer[i as int] == Formula::Variable(name));
                    }
                }
                assert(variables@.to_set() =~= names_among(longer));
            }
        } else {
            proof {
                assert forall|name: Seq<char>|
                    names_among(longer).contains(name) == before.contains(name) by {
                    if longer.contains(Formula::Variable(name)) {
                        let at = longer.index_of(Formula::Variable(name));
                        if at < i {
                            assert(shorter[at] == Formula::Variable(name));
                        }
                    }
                    if shorter.contains(Formula::Variable(name)) {
                        let at = shorter.index_of(Formula::Variable(name));
                        assert(longer[at] == Formula::Variable(name));
                    }
                }
                assert(variables@.to_set() =~= names_among(longer));
            }
        }
    }
    proof {
        assert(all.take(nodes.len() as int) =~= all);
        lemma_names_among_nodes(expr@);
        lemma_in_order(variables@);
    }
    variables
}

} // verus!
