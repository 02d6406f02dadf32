use std::collections::{HashMap, HashSet};

use truth_table_rs::lexer::{shunting_yard, Token};
use truth_table_rs::operator::Operator;
use truth_table_rs::FormulaParser;

fn assignment(pairs: &[(&str, bool)]) -> HashMap<String, bool> {
    pairs.iter().map(|&(s, b)| (s.to_string(), b)).collect()
}

#[test]
fn test_shunting_yard() {
    assert_eq!(
        shunting_yard("a & b | c"),
        Ok(vec![
            Token::Atom("a".to_string()),
            Token::Atom("b".to_string()),
            Token::Operator(Operator::And),
            Token::Atom("c".to_string()),
            Token::Operator(Operator::Or),
        ])
    );

    assert_eq!(
        shunting_yard("a & (b | c)"),
        Ok(vec![
            Token::Atom("a".to_string()),
            Token::Atom("b".to_string()),
            Token::Atom("c".to_string()),
            Token::Operator(Operator::Or),
            Token::Operator(Operator::And),
        ])
    );

    assert_eq!(
        shunting_yard("~a & b"),
        Ok(vec![
            Token::Atom("a".to_string()),
            Token::Operator(Operator::Not),
            Token::Atom("b".to_string()),
            Token::Operator(Operator::And),
        ])
    );
}

#[test]
fn test_formula_parsing() {
    let parser = FormulaParser::new("a & b | c");
    let formula = parser.parse().unwrap();
    assert_eq!(
        formula.variables().iter().cloned().collect::<HashSet<String>>(),
        ["a", "b", "c"].into_iter().map(String::from).collect()
    );
}

#[test]
fn test_formula_evaluation() {
    let parser = FormulaParser::new("a & b | c");
    let formula = parser.parse().unwrap();

    let vars = assignment(&[("a", true), ("b", false), ("c", true)]);
    assert_eq!(formula.eval(&vars), Some(true));

    let vars = assignment(&[("a", true), ("b", false), ("c", false)]);
    assert_eq!(formula.eval(&vars), Some(false));
}

#[test]
fn test_operator_precedence() {
    let parser = FormulaParser::new("a | b & c");
    let formula = parser.parse().unwrap();

    let vars = assignment(&[("a", false), ("b", true), ("c", true)]);
    assert_eq!(formula.eval(&vars), Some(true));

    let vars = assignment(&[("a", false), ("b", true), ("c", false)]);
    assert_eq!(formula.eval(&vars), Some(false));
}

#[test]
fn test_complex_formula() {
    let parser = FormulaParser::new("(a | b) & ~c -> d <-> e");
    let formula = parser.parse().unwrap();

    let vars = assignment(&[("a", true), ("b", false), ("c", false), ("d", true), ("e", true)]);
    assert_eq!(formula.eval(&vars), Some(true));

    let vars = assignment(&[("a", false), ("b", false), ("c", true), ("d", false), ("e", true)]);
    assert_eq!(formula.eval(&vars), Some(true));
}

#[test]
fn test_invalid_variable() {
    let parser = FormulaParser::new("a & b");
    let formula = parser.parse().unwrap();

    let vars = assignment(&[("a", true)]);
    assert_eq!(formula.eval(&vars), None);
}

#[test]
fn test_operator_associativity() {
    let parser = FormulaParser::new("a -> b -> c");
    let formula = parser.parse().unwrap();

    let vars = assignment(&[("a", true), ("b", false), ("c", true)]);
    assert_eq!(formula.eval(&vars), Some(true));

    let vars = assignment(&[("a", true), ("b", true), ("c", false)]);
    assert_eq!(formula.eval(&vars), Some(false));
}
