use truth_table_rs::lexer::{shunting_yard, Token};
use truth_table_rs::operator::{Associativity, Operator};
use truth_table_rs::text::{letter, space, to_chars};
use truth_table_rs::ParseError;

fn atom(name: &str) -> Token {
    Token::Atom(name.to_string())
}

fn op(o: Operator) -> Token {
    Token::Operator(o)
}

#[test]
fn operator_precedence_table() {
    assert_eq!(Operator::Parenthesis.precedence(), 4);
    assert_eq!(Operator::Not.precedence(), 3);
    assert_eq!(Operator::And.precedence(), 2);
    assert_eq!(Operator::Or.precedence(), 1);
    assert_eq!(Operator::If.precedence(), 0);
    assert_eq!(Operator::Iff.precedence(), 0);
}

#[test]
fn operator_associativity_table() {
    assert_eq!(Operator::Not.associativity(), Associativity::Right);
    assert_eq!(Operator::And.associativity(), Associativity::Left);
    assert_eq!(Operator::Or.associativity(), Associativity::Left);
    assert_eq!(Operator::If.associativity(), Associativity::Left);
    assert_eq!(Operator::Iff.associativity(), Associativity::Left);
    assert_eq!(Operator::Parenthesis.associativity(), Associativity::Left);
}

#[test]
fn from_char_recognizes_single_characters() {
    assert_eq!(Operator::from_char('&'), Some(Operator::And));
    assert_eq!(Operator::from_char('|'), Some(Operator::Or));
    assert_eq!(Operator::from_char('~'), Some(Operator::Not));
    assert_eq!(Operator::from_char('!'), Some(Operator::Not));
    assert_eq!(Operator::from_char('('), Some(Operator::Parenthesis));
    assert_eq!(Operator::from_char(')'), Some(Operator::Parenthesis));
    assert_eq!(Operator::from_char('-'), None);
    assert_eq!(Operator::from_char('a'), None);
}

#[test]
fn from_peekable_matches_longest_lexeme() {
    let text = to_chars("-> <-> && || & | ~ !");
    assert_eq!(Operator::from_peekable(&text, 0), Some((Operator::If, 2)));
    assert_eq!(Operator::from_peekable(&text, 3), Some((Operator::Iff, 6)));
    assert_eq!(Operator::from_peekable(&text, 7), Some((Operator::And, 9)));
    assert_eq!(Operator::from_peekable(&text, 10), Some((Operator::Or, 12)));
    assert_eq!(Operator::from_peekable(&text, 13), Some((Operator::And, 14)));
    assert_eq!(Operator::from_peekable(&text, 15), Some((Operator::Or, 16)));
    assert_eq!(Operator::from_peekable(&text, 17), Some((Operator::Not, 18)));
    assert_eq!(Operator::from_peekable(&text, 19), Some((Operator::Not, 20)));
    assert_eq!(Operator::from_peekable(&text, 20), None);
    assert_eq!(Operator::from_peekable(&text, 2), None);
}

#[test]
fn from_peekable_rejects_incomplete_arrows() {
    assert_eq!(Operator::from_peekable(&to_chars("-"), 0), None);
    assert_eq!(Operator::from_peekable(&to_chars("-x"), 0), None);
    assert_eq!(Operator::from_peekable(&to_chars("<"), 0), None);
    assert_eq!(Operator::from_peekable(&to_chars("<-"), 0), None);
    assert_eq!(Operator::from_peekable(&to_chars("<-x"), 0), None);
    assert_eq!(Operator::from_peekable(&to_chars("<>"), 0), None);
    assert_eq!(Operator::from_peekable(&to_chars("a"), 0), None);
}

#[test]
fn letters_and_spaces() {
    assert!(letter('a'));
    assert!(letter('Z'));
    assert!(!letter('1'));
    assert!(!letter('_'));
    assert!(!letter(' '));
    assert!(!letter('&'));
    assert!(letter('é'));
    assert!(letter('京'));
    assert!(!letter('∧'));
    assert!(!letter('💝'));
    assert!(space(' '));
    assert!(space('\t'));
    assert!(space('\n'));
    assert!(space('\r'));
    assert!(space('\x0c'));
    assert!(!space('a'));
    assert!(!space('\u{a0}'));
}

#[test]
fn to_chars_keeps_every_character() {
    assert_eq!(to_chars(""), Vec::<char>::new());
    assert_eq!(to_chars("a→é"), vec!['a', '→', 'é']);
}

#[test]
fn tokenizes_without_spaces() {
    assert_eq!(
        shunting_yard("a&b|c"),
        Ok(vec![atom("a"), atom("b"), op(Operator::And), atom("c"), op(Operator::Or)])
    );
    assert_eq!(shunting_yard("a->b"), Ok(vec![atom("a"), atom("b"), op(Operator::If)]));
    assert_eq!(shunting_yard("a<->b"), Ok(vec![atom("a"), atom("b"), op(Operator::Iff)]));
}

#[test]
fn tokenizes_doubled_operators() {
    assert_eq!(shunting_yard("a && b"), Ok(vec![atom("a"), atom("b"), op(Operator::And)]));
    assert_eq!(shunting_yard("a || b"), Ok(vec![atom("a"), atom("b"), op(Operator::Or)]));
    assert_eq!(shunting_yard("!a"), Ok(vec![atom("a"), op(Operator::Not)]));
}

#[test]
fn tokenizes_words_as_one_atom() {
    assert_eq!(shunting_yard("rain & wind"), Ok(vec![atom("rain"), atom("wind"), op(Operator::And)]));
    assert_eq!(shunting_yard("été"), Ok(vec![atom("été")]));
    assert_eq!(shunting_yard("foo"), Ok(vec![atom("foo")]));
    assert_eq!(shunting_yard("tr"), Ok(vec![atom("tr")]));
    assert_eq!(shunting_yard("truth"), Ok(vec![atom("truth")]));
    assert_eq!(shunting_yard("a1"), Ok(vec![atom("a"), atom("1")]));
}

#[test]
fn tokenizes_constants_without_regard_to_case() {
    for text in ["true", "TRUE", "True", "t", "T", "tRuE"] {
        assert_eq!(shunting_yard(text), Ok(vec![Token::Value(true)]));
    }
    for text in ["false", "FALSE", "False", "f", "F", "fAlSe"] {
        assert_eq!(shunting_yard(text), Ok(vec![Token::Value(false)]));
    }
}

#[test]
fn tokenizes_other_characters_as_atoms() {
    assert_eq!(shunting_yard("1 & 2"), Ok(vec![atom("1"), atom("2"), op(Operator::And)]));
    assert_eq!(shunting_yard("-"), Ok(vec![atom("-")]));
    assert_eq!(shunting_yard("-x"), Ok(vec![atom("-"), atom("x")]));
    assert_eq!(shunting_yard("<-x"), Ok(vec![atom("<"), atom("-"), atom("x")]));
    assert_eq!(shunting_yard("∧"), Ok(vec![atom("∧")]));
}

#[test]
fn skips_whitespace() {
    assert_eq!(shunting_yard(""), Ok(vec![]));
    assert_eq!(shunting_yard("  \t\n"), Ok(vec![]));
    assert_eq!(
        shunting_yard("\ta\n&\r\nb "),
        Ok(vec![atom("a"), atom("b"), op(Operator::And)])
    );
}

#[test]
fn equal_precedence_groups_to_the_left() {
    assert_eq!(
        shunting_yard("a -> b -> c"),
        Ok(vec![atom("a"), atom("b"), op(Operator::If), atom("c"), op(Operator::If)])
    );
    assert_eq!(
        shunting_yard("a <-> b -> c"),
        Ok(vec![atom("a"), atom("b"), op(Operator::Iff), atom("c"), op(Operator::If)])
    );
    assert_eq!(
        shunting_yard("a & b & c"),
        Ok(vec![atom("a"), atom("b"), op(Operator::And), atom("c"), op(Operator::And)])
    );
}

#[test]
fn negation_groups_to_the_right() {
    assert_eq!(
        shunting_yard("~~a"),
        Ok(vec![atom("a"), op(Operator::Not), op(Operator::Not)])
    );
    assert_eq!(
        shunting_yard("a & ~b"),
        Ok(vec![atom("a"), atom("b"), op(Operator::Not), op(Operator::And)])
    );
}

#[test]
fn remaining_operators_leave_the_stack_top_first() {
    assert_eq!(
        shunting_yard("a -> b | c & ~d"),
        Ok(vec![
            atom("a"),
            atom("b"),
            atom("c"),
            atom("d"),
            op(Operator::Not),
            op(Operator::And),
            op(Operator::Or),
            op(Operator::If),
        ])
    );
}

#[test]
fn parentheses_never_reach_the_output() {
    let tokens = shunting_yard("((a | b)) & (~(c -> d))").unwrap();
    assert!(!tokens.contains(&op(Operator::Parenthesis)));
    assert_eq!(
        tokens,
        vec![
            atom("a"),
            atom("b"),
            op(Operator::Or),
            atom("c"),
            atom("d"),
            op(Operator::If),
            op(Operator::Not),
            op(Operator::And),
        ]
    );
}

#[test]
fn unbalanced_parentheses_are_rejected() {
    assert_eq!(shunting_yard(")"), Err(ParseError::UnbalancedParentheses));
    assert_eq!(shunting_yard("a & b)"), Err(ParseError::UnbalancedParentheses));
    assert_eq!(shunting_yard("(a & b))"), Err(ParseError::UnbalancedParentheses));
    assert_eq!(shunting_yard("("), Err(ParseError::UnbalancedParentheses));
    assert_eq!(shunting_yard("(a & b"), Err(ParseError::UnbalancedParentheses));
    assert_eq!(shunting_yard("((a) & b"), Err(ParseError::UnbalancedParentheses));
    assert_eq!(shunting_yard(")("), Err(ParseError::UnbalancedParentheses));
}
