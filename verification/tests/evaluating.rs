use logic_expr::expression::{
    collect_variables, parse_preset, to_string, BinaryExpression, BinaryOperator,
    EvaluationContext, Expression, UnaryExpression, UnaryOperator, Value, Variable,
};
use logic_expr::names::{place_of, NameMap, NameSet, Place};
use logic_expr::parser::parse_expr;
use logic_expr::table::{row_count, table_row, truth_table};

fn names_of(set: &NameSet) -> Vec<String> {
    (0..set.len()).map(|i| set.get(i).clone()).collect()
}

fn set_of(names: &[&str]) -> NameSet {
    let mut set = NameSet::new();
    for name in names {
        set.insert(String::from(*name));
    }
    set
}

fn variable(name: &str) -> Box<Expression> {
    Box::new(Expression::Variable(Variable::new(name)))
}

#[test]
fn names_are_kept_in_dictionary_order_each_once() {
    let mut set = NameSet::new();
    assert!(set.is_empty());
    assert_eq!(set.insert(String::from("b")), true);
    assert_eq!(set.insert(String::from("ab")), true);
    assert_eq!(set.insert(String::from("a")), true);
    assert_eq!(set.insert(String::from("B")), true);
    assert_eq!(set.insert(String::from("ab")), false);
    assert_eq!(set.insert(String::from("é")), true);
    assert_eq!(set.len(), 5);
    assert!(!set.is_empty());
    assert_eq!(names_of(&set), vec!["B", "a", "ab", "b", "é"]);
    assert_eq!(set.get(2), "ab");
}

#[test]
fn names_are_found_and_removed() {
    let mut set = set_of(&["x", "abc", "m"]);
    assert_eq!(set.contains("m"), true);
    assert_eq!(set.contains("n"), false);
    assert_eq!(set.contains(""), false);
    assert_eq!(set.locate("abc"), (0, true));
    assert_eq!(set.locate("b"), (1, false));
    assert_eq!(set.locate("z"), (3, false));
    assert_eq!(set.remove("n"), false);
    assert_eq!(names_of(&set), vec!["abc", "m", "x"]);
    assert_eq!(set.remove("m"), true);
    assert_eq!(names_of(&set), vec!["abc", "x"]);
    assert_eq!(set.remove("m"), false);
    assert_eq!(set.contains("m"), false);
}

#[test]
fn copy_of_a_name_set_holds_the_same_names() {
    let set = set_of(&["q", "p"]);
    let mut copy = set.clone();
    assert_eq!(names_of(&copy), vec!["p", "q"]);
    copy.insert(String::from("r"));
    assert_eq!(names_of(&set), vec!["p", "q"]);
}

#[test]
fn dictionary_order_goes_by_the_first_difference() {
    assert_eq!(place_of("a", "b"), Place::Before);
    assert_eq!(place_of("b", "a"), Place::After);
    assert_eq!(place_of("a", "a"), Place::Same);
    assert_eq!(place_of("", ""), Place::Same);
    assert_eq!(place_of("", "a"), Place::Before);
    assert_eq!(place_of("a", "ab"), Place::Before);
    assert_eq!(place_of("ab", "a"), Place::After);
    assert_eq!(place_of("ab", "b"), Place::Before);
    assert_eq!(place_of("Z", "a"), Place::Before);
    assert_eq!(place_of("z", "é"), Place::Before);
    assert_eq!(place_of("abcx", "abcd"), Place::After);
}

#[test]
fn name_map_keeps_the_last_value_of_each_name() {
    let mut map = NameMap::new();
    assert_eq!(map.get("a"), None);
    map.insert(String::from("b"), true);
    map.insert(String::from("a"), false);
    map.insert(String::from("c"), true);
    assert_eq!(map.get("a"), Some(false));
    assert_eq!(map.get("b"), Some(true));
    assert_eq!(map.get("c"), Some(true));
    assert_eq!(map.get("d"), None);
    map.insert(String::from("b"), false);
    assert_eq!(map.get("a"), Some(false));
    assert_eq!(map.get("b"), Some(false));
    assert_eq!(map.get("c"), Some(true));
}

#[test]
fn new_context_has_every_variable_free() {
    let ctxt = EvaluationContext::new(set_of(&["b", "a"]));
    assert_eq!(names_of(&ctxt.variables), vec!["a", "b"]);
    assert_eq!(names_of(&ctxt.not_preset), vec!["a", "b"]);
}

#[test]
fn preset_fixes_a_free_variable() {
    let mut ctxt = EvaluationContext::new(set_of(&["a", "b", "c"]));
    assert_eq!(ctxt.preset("b", true), Ok(true));
    assert_eq!(names_of(&ctxt.variables), vec!["a", "b", "c"]);
    assert_eq!(names_of(&ctxt.not_preset), vec!["a", "c"]);
    assert_eq!(ctxt.get("b"), true);
    assert_eq!(ctxt.preset("a", false), Ok(false));
    assert_eq!(names_of(&ctxt.not_preset), vec!["c"]);
    assert_eq!(ctxt.get("a"), false);
}

#[test]
fn preset_of_an_unknown_name_is_refused() {
    let mut ctxt = EvaluationContext::new(set_of(&["a"]));
    assert_eq!(ctxt.preset("x", true), Err(String::from("no variable named 'x'")));
    assert_eq!(names_of(&ctxt.not_preset), vec!["a"]);
}

#[test]
fn second_preset_is_refused_and_the_first_value_stands() {
    let mut ctxt = EvaluationContext::new(set_of(&["a", "b"]));
    assert_eq!(ctxt.preset("a", true), Ok(true));
    assert_eq!(ctxt.preset("a", false), Err(String::from("variable 'a' preset twice")));
    assert_eq!(ctxt.get("a"), true);
    assert_eq!(names_of(&ctxt.not_preset), vec!["b"]);
}

#[test]
fn rows_give_each_free_variable_its_binary_digit() {
    let mut ctxt = EvaluationContext::new(set_of(&["a", "b", "c", "d"]));
    ctxt.preset("c", true).unwrap();
    ctxt.set_not_presets(0b101);
    assert_eq!(ctxt.get("a"), true);
    assert_eq!(ctxt.get("b"), false);
    assert_eq!(ctxt.get("c"), true);
    assert_eq!(ctxt.get("d"), true);
    ctxt.set_not_presets(0b010);
    assert_eq!(ctxt.get("a"), false);
    assert_eq!(ctxt.get("b"), true);
    assert_eq!(ctxt.get("c"), true);
    assert_eq!(ctxt.get("d"), false);
    ctxt.set_not_presets(u128::MAX);
    assert_eq!(ctxt.get("a"), true);
    assert_eq!(ctxt.get("b"), true);
    assert_eq!(ctxt.get("d"), true);
    ctxt.set_not_presets(1 << 3);
    assert_eq!(ctxt.get("a"), false);
    assert_eq!(ctxt.get("b"), false);
    assert_eq!(ctxt.get("d"), false);
}

#[test]
fn set_gives_a_value_to_any_name() {
    let mut ctxt = EvaluationContext::new(set_of(&["a"]));
    ctxt.set("zz", true);
    assert_eq!(ctxt.get("zz"), true);
    ctxt.set("zz", false);
    assert_eq!(ctxt.get("zz"), false);
    assert_eq!(names_of(&ctxt.variables), vec!["a"]);
    assert_eq!(names_of(&ctxt.not_preset), vec!["a"]);
}

#[test]
fn precedence_has_five_levels() {
    assert_eq!(Value::new(true).precedence(), 4);
    assert_eq!(Variable::new("a").precedence(), 4);
    assert_eq!(UnaryExpression::new(UnaryOperator::NEG, variable("a")).precedence(), 3);
    let binary = |op| BinaryExpression::new(op, variable("a"), variable("b")).precedence();
    assert_eq!(binary(BinaryOperator::AND), 2);
    assert_eq!(binary(BinaryOperator::OR), 1);
    assert_eq!(binary(BinaryOperator::XOR), 1);
    assert_eq!(binary(BinaryOperator::EQ), 0);
    assert_eq!(binary(BinaryOperator::IMP), 0);
    assert_eq!(Expression::Value(Value::new(false)).precedence(), 4);
    assert_eq!(parse_expr("a^b").unwrap().precedence(), 1);
}

#[test]
fn dump_names_every_node() {
    assert_eq!(Value::new(true).to_dump_string(), "Value(1)");
    assert_eq!(Value::new(false).to_dump_string(), "Value(0)");
    assert_eq!(Variable::new("abc").to_dump_string(), "Variable(abc)");
    let neg = UnaryExpression::new(UnaryOperator::NEG, variable("a"));
    assert_eq!(neg.to_dump_string(), "Neg(Variable(a))");
    let dump = |op| BinaryExpression::new(op, variable("a"), variable("b")).to_dump_string();
    assert_eq!(dump(BinaryOperator::OR), "Or(Variable(a),Variable(b))");
    assert_eq!(dump(BinaryOperator::XOR), "Xor(Variable(a),Variable(b))");
    assert_eq!(dump(BinaryOperator::AND), "And(Variable(a),Variable(b))");
    assert_eq!(dump(BinaryOperator::EQ), "Eq(Variable(a),Variable(b))");
    assert_eq!(dump(BinaryOperator::IMP), "Imp(Variable(a),Variable(b))");
}

#[test]
fn operand_is_wrapped_unless_it_binds_tighter() {
    let or = Box::new(Expression::Binary(BinaryExpression::new(
        BinaryOperator::OR,
        variable("a"),
        variable("b"),
    )));
    assert_eq!(to_string(&or, 0), "a | b");
    assert_eq!(to_string(&or, 1), "(a | b)");
    assert_eq!(to_string(&or, 2), "(a | b)");
    assert_eq!(to_string(&variable("a"), 3), "a");
    assert_eq!(to_string(&variable("a"), 4), "(a)");
}

#[test]
fn nodes_are_visited_before_their_operands() {
    let tree = parse_expr("!a & (b | 1)").unwrap();
    let dumps: Vec<String> = tree.traverse().iter().map(|node| node.to_dump_string()).collect();
    assert_eq!(
        dumps,
        vec![
            "And(Neg(Variable(a)),Or(Variable(b),Value(1)))",
            "Neg(Variable(a))",
            "Variable(a)",
            "Or(Variable(b),Value(1))",
            "Variable(b)",
            "Value(1)",
        ]
    );
    assert_eq!(parse_expr("0").unwrap().traverse().len(), 1);
}

#[test]
fn only_variable_nodes_are_variables() {
    let tree = parse_expr("a & 1").unwrap();
    let nodes = tree.traverse();
    assert!(nodes[0].as_variable().is_none());
    assert_eq!(nodes[1].as_variable().unwrap().name, "a");
    assert!(nodes[2].as_variable().is_none());
}

#[test]
fn variables_are_collected_once_in_dictionary_order() {
    let tree = parse_expr("c & a | !c = b => a").unwrap();
    assert_eq!(names_of(&collect_variables(&tree)), vec!["a", "b", "c"]);
    let tree = parse_expr("1 & !0").unwrap();
    assert_eq!(collect_variables(&tree).len(), 0);
}

fn table(text: &str, presets: &[(&str, bool)]) -> Vec<(Vec<bool>, bool)> {
    let tree = parse_expr(text).unwrap();
    let mut ctxt = EvaluationContext::new(collect_variables(&tree));
    for (name, value) in presets {
        ctxt.preset(name, *value).unwrap();
    }
    let rows = truth_table(&tree, &mut ctxt).unwrap();
    rows.into_iter().map(|row| (row.values, row.result)).collect()
}

#[test]
fn table_of_or_has_four_rows() {
    assert_eq!(
        table("a|b", &[]),
        vec![
            (vec![false, false], false),
            (vec![true, false], true),
            (vec![false, true], true),
            (vec![true, true], true),
        ]
    );
}

#[test]
fn table_of_and_with_one_preset_has_two_rows() {
    assert_eq!(
        table("a&b", &[("a", true)]),
        vec![(vec![true, false], false), (vec![true, true], true)]
    );
    assert_eq!(
        table("a&b", &[("a", false)]),
        vec![(vec![false, false], false), (vec![false, true], false)]
    );
}

#[test]
fn table_without_free_variables_has_one_row() {
    assert_eq!(table("1 => 0", &[]), vec![(vec![], false)]);
    assert_eq!(
        table("b => a", &[("a", false), ("b", true)]),
        vec![(vec![false, true], false)]
    );
}

#[test]
fn table_columns_follow_the_dictionary_not_the_text() {
    assert_eq!(
        table("b => a", &[]),
        vec![
            (vec![false, false], true),
            (vec![true, false], true),
            (vec![false, true], false),
            (vec![true, true], true),
        ]
    );
}

#[test]
fn table_has_every_assignment_once() {
    let rows = table("a ^ b ^ c ^ d ^ e", &[("c", true)]);
    assert_eq!(rows.len(), 16);
    for (i, (values, result)) in rows.iter().enumerate() {
        let expected: Vec<bool> =
            vec![i & 1 != 0, i & 2 != 0, true, i & 4 != 0, i & 8 != 0];
        assert_eq!(*values, expected);
        assert_eq!(*result, expected.iter().filter(|v| **v).count() % 2 == 1);
        for (other, _) in &rows[..i] {
            assert_ne!(other, values);
        }
    }
}

#[test]
fn table_leaves_the_context_at_its_last_row() {
    let tree = parse_expr("a|b").unwrap();
    let mut ctxt = EvaluationContext::new(collect_variables(&tree));
    let rows = truth_table(&tree, &mut ctxt).unwrap();
    assert_eq!(rows.len(), 4);
    assert_eq!(ctxt.get("a"), true);
    assert_eq!(ctxt.get("b"), true);
    assert_eq!(ctxt.not_preset.len(), 2);
}

#[test]
fn operators_have_their_truth_tables() {
    let results = |text: &str| -> Vec<bool> {
        table(text, &[]).into_iter().map(|(_, result)| result).collect()
    };
    assert_eq!(results("!a"), vec![true, false]);
    assert_eq!(results("a & b"), vec![false, false, false, true]);
    assert_eq!(results("a | b"), vec![false, true, true, true]);
    assert_eq!(results("a ^ b"), vec![false, true, true, false]);
    assert_eq!(results("a = b"), vec![true, false, false, true]);
    assert_eq!(results("a => b"), vec![true, false, true, true]);
    assert_eq!(
        results("(a|b&c) = ((a|b)&c)"),
        vec![true, false, true, false, true, true, true, true]
    );
}

#[test]
fn single_row_is_computed_on_its_own() {
    let tree = parse_expr("a & !b | c").unwrap();
    let mut ctxt = EvaluationContext::new(collect_variables(&tree));
    ctxt.preset("b", false).unwrap();
    let row = table_row(&tree, &mut ctxt, 0b10);
    assert_eq!(row.values, vec![false, false, true]);
    assert_eq!(row.result, true);
    let row = table_row(&tree, &mut ctxt, 0b01);
    assert_eq!(row.values, vec![true, false, false]);
    assert_eq!(row.result, true);
    let row = table_row(&tree, &mut ctxt, 0);
    assert_eq!(row.values, vec![false, false, false]);
    assert_eq!(row.result, false);
    let row = table_row(&tree, &mut ctxt, 1 << 100);
    assert_eq!(row.values, vec![false, false, false]);
    assert_eq!(ctxt.get("c"), false);
}

#[test]
fn table_with_more_rows_than_a_machine_word_counts_is_refused() {
    let mut text = String::from("a");
    let mut name = String::from("a");
    for _ in 0..usize::BITS {
        name.push('a');
        text.push('|');
        text.push_str(&name);
    }
    let tree = parse_expr(&text).unwrap();
    let mut ctxt = EvaluationContext::new(collect_variables(&tree));
    assert_eq!(ctxt.not_preset.len(), usize::BITS as usize + 1);
    ctxt.preset("a", true).unwrap();
    assert!(truth_table(&tree, &mut ctxt).is_none());
    assert_eq!(ctxt.get("a"), true);
    assert_eq!(ctxt.not_preset.len(), usize::BITS as usize);
}

#[test]
fn preset_argument_is_a_sign_and_a_name() {
    assert_eq!(parse_preset("+a"), Some((String::from("a"), true)));
    assert_eq!(parse_preset("-abc"), Some((String::from("abc"), false)));
    assert_eq!(parse_preset("+"), Some((String::new(), true)));
    assert_eq!(parse_preset("-+x"), Some((String::from("+x"), false)));
    assert_eq!(parse_preset("+é"), Some((String::from("é"), true)));
    assert_eq!(parse_preset(""), None);
    assert_eq!(parse_preset("a"), None);
    assert_eq!(parse_preset("a+"), None);
    assert_eq!(parse_preset(" +a"), None);
}

#[test]
fn row_count_doubles_with_each_free_variable() {
    let tree = parse_expr("a & b | c").unwrap();
    let mut ctxt = EvaluationContext::new(collect_variables(&tree));
    assert_eq!(row_count(&ctxt), Some(8));
    ctxt.preset("b", true).unwrap();
    assert_eq!(row_count(&ctxt), Some(4));
    ctxt.preset("a", true).unwrap();
    ctxt.preset("c", true).unwrap();
    assert_eq!(row_count(&ctxt), Some(1));
    assert_eq!(row_count(&EvaluationContext::new(NameSet::new())), Some(1));
}

#[test]
fn row_count_stops_at_128_free_variables() {
    let mut set = NameSet::new();
    let mut name = String::new();
    for _ in 0..127 {
        name.push('x');
        set.insert(name.clone());
    }
    let ctxt = EvaluationContext::new(set.clone());
    assert_eq!(row_count(&ctxt), Some(1u128 << 127));
    name.push('x');
    set.insert(name);
    let ctxt = EvaluationContext::new(set);
    assert_eq!(row_count(&ctxt), None);
}
