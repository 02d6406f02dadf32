use std::collections::HashMap;

use truth_table_rs::formula::eval_node;
use truth_table_rs::lexer::shunting_yard;
use truth_table_rs::names::{comes_before, insert_name};
use truth_table_rs::parser::parse;
use truth_table_rs::{Formula, FormulaParser, Node, ParseError};

fn env(pairs: &[(&str, bool)]) -> HashMap<String, bool> {
    pairs.iter().map(|&(s, b)| (s.to_string(), b)).collect()
}

fn var(name: &str) -> Box<Node> {
    Box::new(Node::Atom(name.to_string()))
}

fn text_of(source: &str) -> String {
    parse(source).unwrap().to_string()
}

/// Every assignment to `names`, as the rows of a truth table.
fn assignments(names: &[&str]) -> Vec<HashMap<String, bool>> {
    let mut all = Vec::new();
    for bits in 0..(1u32 << names.len()) {
        let mut vars = HashMap::new();
        for (j, name) in names.iter().enumerate() {
            vars.insert(name.to_string(), (bits >> j) & 1 == 1);
        }
        all.push(vars);
    }
    all
}

fn same_values(a: &Formula, b: &Formula, names: &[&str]) -> bool {
    assignments(names).iter().all(|vars| a.eval(vars) == b.eval(vars))
}

#[test]
fn empty_input_is_invalid() {
    assert_eq!(parse("").unwrap_err(), ParseError::InvalidExpression);
    assert_eq!(parse("   ").unwrap_err(), ParseError::InvalidExpression);
    assert_eq!(parse("()").unwrap_err(), ParseError::InvalidExpression);
}

#[test]
fn missing_operands_are_invalid() {
    assert_eq!(parse("a &").unwrap_err(), ParseError::InvalidExpression);
    assert_eq!(parse("& a").unwrap_err(), ParseError::InvalidExpression);
    assert_eq!(parse("~").unwrap_err(), ParseError::InvalidExpression);
    assert_eq!(parse("a -> -> b").unwrap_err(), ParseError::InvalidExpression);
    assert_eq!(parse("&").unwrap_err(), ParseError::InvalidExpression);
}

#[test]
fn surplus_operands_are_invalid() {
    assert_eq!(parse("a b").unwrap_err(), ParseError::InvalidExpression);
    assert_eq!(parse("a (b | c)").unwrap_err(), ParseError::InvalidExpression);
    assert_eq!(parse("a1").unwrap_err(), ParseError::InvalidExpression);
}

#[test]
fn unbalanced_parentheses_fail_the_parse() {
    assert_eq!(parse("a & b)").unwrap_err(), ParseError::UnbalancedParentheses);
    assert_eq!(parse("(a & b").unwrap_err(), ParseError::UnbalancedParentheses);
    assert_eq!(
        FormulaParser::new("(a").parse_expr().unwrap_err(),
        ParseError::UnbalancedParentheses
    );
}

#[test]
fn parse_expr_builds_the_tree() {
    let root = FormulaParser::new("a & ~b").parse_expr().unwrap();
    match root {
        Node::And(left, right) => {
            assert!(matches!(*left, Node::Atom(ref s) if s == "a"));
            match *right {
                Node::Not(operand) => assert!(matches!(*operand, Node::Atom(ref s) if s == "b")),
                _ => panic!("the right operand is a negation"),
            }
        }
        _ => panic!("the root is a conjunction"),
    }
}

#[test]
fn operands_keep_their_source_order() {
    let f = parse("a -> b").unwrap();
    assert_eq!(f.eval(&env(&[("a", true), ("b", false)])), Some(false));
    assert_eq!(f.eval(&env(&[("a", false), ("b", true)])), Some(true));
}

#[test]
fn connectives_follow_their_truth_tables() {
    let cases = [
        ("a & b", [false, false, false, true]),
        ("a | b", [false, true, true, true]),
        ("a -> b", [true, true, false, true]),
        ("a <-> b", [true, false, false, true]),
    ];
    for (source, expected) in cases {
        let f = parse(source).unwrap();
        let mut k = 0;
        for a in [false, true] {
            for b in [false, true] {
                assert_eq!(f.eval(&env(&[("a", a), ("b", b)])), Some(expected[k]));
                k += 1;
            }
        }
    }
    let not = parse("~a").unwrap();
    assert_eq!(not.eval(&env(&[("a", true)])), Some(false));
    assert_eq!(not.eval(&env(&[("a", false)])), Some(true));
}

#[test]
fn constants_evaluate_to_themselves() {
    assert_eq!(parse("true").unwrap().eval(&env(&[])), Some(true));
    assert_eq!(parse("F").unwrap().eval(&env(&[])), Some(false));
    assert_eq!(parse("a | T").unwrap().eval(&env(&[("a", false)])), Some(true));
}

#[test]
fn any_undefined_variable_makes_the_value_undefined() {
    let and = parse("a & b").unwrap();
    assert_eq!(and.eval(&env(&[("a", false)])), None);
    assert_eq!(and.eval(&env(&[("b", false)])), None);
    assert_eq!(and.eval(&env(&[])), None);
    let or = parse("a | b").unwrap();
    assert_eq!(or.eval(&env(&[("a", true)])), None);
    assert_eq!(parse("a -> b").unwrap().eval(&env(&[("a", false)])), None);
    assert_eq!(parse("~a").unwrap().eval(&env(&[("b", true)])), None);
    assert_eq!(parse("a <-> (b & T)").unwrap().eval(&env(&[("a", true)])), None);
}

#[test]
fn eval_gives_the_same_value_every_time() {
    let f = parse("(a | b) & ~c -> d <-> e").unwrap();
    let vars = env(&[("a", true), ("b", false), ("c", false), ("d", true), ("e", false)]);
    let first = f.eval(&vars);
    assert_eq!(first, Some(false));
    for _ in 0..5 {
        assert_eq!(f.eval(&vars), first);
    }
    assert_eq!(vars.len(), 5);
}

#[test]
fn eval_node_agrees_with_eval() {
    let node = Node::Iff(var("a"), Box::new(Node::Not(var("b"))));
    assert_eq!(eval_node(&node, &env(&[("a", true), ("b", false)])), Some(true));
    assert_eq!(eval_node(&node, &env(&[("a", true), ("b", true)])), Some(false));
    assert_eq!(eval_node(&node, &env(&[("a", true)])), None);
    assert_eq!(eval_node(&Node::Value(true), &env(&[])), Some(true));
}

#[test]
fn variables_are_distinct_and_ascending() {
    let f = parse("c & a | b -> a & c").unwrap();
    assert_eq!(f.variables(), &vec!["a".to_string(), "b".to_string(), "c".to_string()]);
    let single = parse("a").unwrap();
    assert_eq!(single.variables(), &vec!["a".to_string()]);
    let none = parse("T -> F").unwrap();
    assert!(none.variables().is_empty());
}

#[test]
fn formula_new_collects_the_variables() {
    let root = Node::Or(var("q"), Box::new(Node::And(var("p"), var("q"))));
    let f = Formula::new(root);
    assert_eq!(f.variables(), &vec!["p".to_string(), "q".to_string()]);
    assert_eq!(f.to_string(), "q | p & q");
    assert!(matches!(f.root(), Node::Or(_, _)));
}

#[test]
fn names_are_ordered_by_their_characters() {
    assert!(comes_before("a", "b"));
    assert!(!comes_before("b", "a"));
    assert!(!comes_before("a", "a"));
    assert!(comes_before("", "a"));
    assert!(!comes_before("a", ""));
    assert!(!comes_before("", ""));
    assert!(comes_before("ab", "abc"));
    assert!(comes_before("Z", "a"));
    assert!(comes_before("abd", "abe"));
    assert!(comes_before("z", "é"));
}

#[test]
fn insert_name_keeps_the_list_ascending() {
    let mut names: Vec<String> = Vec::new();
    for name in ["m", "c", "x", "c", "a", "m", "z"] {
        insert_name(&mut names, &name.to_string());
    }
    assert_eq!(names, vec!["a", "c", "m", "x", "z"]);
}

#[test]
fn children_come_parents_first_and_left_to_right() {
    let root = parse("(a | b) & ~c").unwrap();
    let texts: Vec<String> = root.root().children().iter().map(|n| n.to_string()).collect();
    assert_eq!(texts, vec!["a | b", "a", "b", "~c", "c"]);
    assert!(Node::Atom("a".to_string()).children().is_empty());
    let mut stack = vec![root.root()];
    root.root()._children(&mut stack);
    assert_eq!(stack.len(), 6);
}

#[test]
fn node_precedence_orders_the_printer() {
    assert_eq!(Node::Atom("a".to_string()).precedence(), 5);
    assert_eq!(Node::Value(true).precedence(), 5);
    assert_eq!(Node::Not(var("a")).precedence(), 4);
    assert_eq!(Node::And(var("a"), var("b")).precedence(), 3);
    assert_eq!(Node::Or(var("a"), var("b")).precedence(), 2);
    assert_eq!(Node::If(var("a"), var("b")).precedence(), 1);
    assert_eq!(Node::Iff(var("a"), var("b")).precedence(), 0);
}

#[test]
fn text_uses_as_few_parentheses_as_needed() {
    assert_eq!(text_of("a & b | c"), "a & b | c");
    assert_eq!(text_of("(a & b) | c"), "a & b | c");
    assert_eq!(text_of("a & (b | c)"), "a & (b | c)");
    assert_eq!(text_of("~(a & b)"), "~(a & b)");
    assert_eq!(text_of("~~a"), "~~a");
    assert_eq!(text_of("!a && b || c"), "~a & b | c");
    assert_eq!(text_of("a -> (b <-> c)"), "a -> (b <-> c)");
    assert_eq!(text_of("(a <-> b) -> c"), "(a <-> b) -> c");
    assert_eq!(text_of("(a -> b) <-> c"), "a -> b <-> c");
    assert_eq!(text_of("true & f"), "T & F");
    assert_eq!(text_of("((a))"), "a");
}

#[test]
fn fmt_with_precedence_wraps_below_a_tighter_parent() {
    let node = Node::Or(var("a"), var("b"));
    let mut out = String::from("x: ");
    node.fmt_with_precedence(&mut out, 3);
    assert_eq!(out, "x: (a | b)");
    let mut out = String::new();
    node.fmt_with_precedence(&mut out, 2);
    assert_eq!(out, "a | b");
}

#[test]
fn text_parses_back_to_the_same_text() {
    for source in [
        "a & b | c",
        "a & (b | c)",
        "~(a -> b) <-> c & ~~d",
        "(a | b) & ~c -> d <-> e",
        "a & (b & (c & d))",
        "T | f & x",
        "- & <",
    ] {
        let first = parse(source).unwrap();
        let second = parse(&first.to_string()).unwrap();
        assert_eq!(second.to_string(), first.to_string());
    }
}

#[test]
fn text_parses_back_to_the_same_values() {
    let names = ["a", "b", "c", "d"];
    for source in [
        "a & b | c",
        "a | b & c",
        "a & (b | c)",
        "a & (b & (c & d))",
        "a | (b | c) | d",
        "a <-> (b <-> (c <-> d))",
        "(a -> b) <-> (c <-> d)",
        "a -> (b <-> c)",
        "(a -> b) -> c",
        "~(a & ~b) -> ~~c | T",
    ] {
        let first = parse(source).unwrap();
        let second = parse(&first.to_string()).unwrap();
        assert!(same_values(&first, &second, &names));
    }
}

#[test]
fn chained_implication_is_regrouped_by_its_text() {
    let nested = parse("a -> (b -> c)").unwrap();
    assert_eq!(nested.to_string(), "a -> b -> c");
    let again = parse(&nested.to_string()).unwrap();
    let all_false = env(&[("a", false), ("b", false), ("c", false)]);
    assert_eq!(nested.eval(&all_false), Some(true));
    assert_eq!(again.eval(&all_false), Some(false));
}

#[test]
fn tokens_of_the_parser_are_those_of_the_tokenizer() {
    let tokens = shunting_yard("a | b").unwrap();
    assert_eq!(tokens.len(), 3);
    assert_eq!(FormulaParser::new("a | b").parse().unwrap().to_string(), "a | b");
}
