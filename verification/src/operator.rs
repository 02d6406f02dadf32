//! The operator table: the operator set with precedence and associativity,
//! and recognition of operator lexemes at the front of a character sequence.

use vstd::prelude::*;

verus! {

/// A logical connective, or the parenthesis marker that only ever lives on
/// the operator stack of the tokenizer.
#[derive(Clone, Copy, Debug, PartialEq, Eq, Structural)]
pub enum Operator {
    And,
    Or,
    Not,
    If,
    Iff,
    Parenthesis,
}

/// The side towards which operators of equal precedence group.
#[derive(Clone, Copy, Debug, PartialEq, Eq, Structural)]
pub enum Associativity {
    Left,
    Right,
}

impl Operator {
    /// Binding strength: a larger number binds tighter.
    pub open spec fn spec_precedence(self) -> u8 {
        match self {
            Operator::Parenthesis => 4,
            Operator::Not => 3,
            Operator::And => 2,
            Operator::Or => 1,
            Operator::If => 0,
            Operator::Iff => 0,
        }
    }

    /// Only negation groups to the right.
    pub open spec fn spec_associativity(self) -> Associativity {
        match self {
            Operator::Not => Associativity::Right,
            _ => Associativity::Left,
        }
    }

    /// The operator that a single character spells, if any. Both
    /// parentheses spell the stack marker.
    pub open spec fn spec_from_char(c: char) -> Option<Operator> {
        if c == '&' {
            Some(Operator::And)
        } else if c == '|' {
            Some(Operator::Or)
        } else if c == '~' || c == '!' {
            Some(Operator::Not)
        } else if c == '(' || c == ')' {
            Some(Operator::Parenthesis)
        } else {
            None
        }
    }

    /// The operator lexeme at the front of `s` together with its length,
    /// by longest match: `->`, `<->`, `&&` and `||` before any single
    /// character. A `-` or `<` that does not start a complete arrow is no
    /// operator.
    pub open spec fn spec_lexeme(s: Seq<char>) -> Option<(Operator, nat)> {
        if s.len() == 0 {
            None
        } else if s[0] == '-' {
            if s.len() >= 2 && s[1] == '>' {
                Some((Operator::If, 2nat))
            } else {
                None
            }
        } else if s[0] == '<' {
            if s.len() >= 3 && s[1] == '-' && s[2] == '>' {
                Some((Operator::Iff, 3nat))
            } else {
                None
            }
        } else if s[0] == '&' {
            Some((Operator::And, if s.len() >= 2 && s[1] == '&' { 2nat } else { 1nat }))
        } else if s[0] == '|' {
            Some((Operator::Or, if s.len() >= 2 && s[1] == '|' { 2nat } else { 1nat }))
        } else {
            match Self::spec_from_char(s[0]) {
                Some(op) => Some((op, 1nat)),
                None => None,
            }
        }
    }

    /// Recognizes the operator lexeme that starts at `input[pos]`. Returns
    /// the operator and the position just behind the lexeme, or `None`
    /// where no lexeme starts there.
    pub fn from_peekable(input: &[char], pos: usize) -> (r: Option<(Operator, usize)>)
        requires
            pos <= input@.len(),
        ensures
            match r {
                Some((op, next)) => Self::spec_lexeme(input@.skip(pos as int)) == Some(
                    (op, (next - pos) as nat),
                ) && pos < next <= input@.len(),
                None => Self::spec_lexeme(input@.skip(pos as int)) is None,
            },
    {
        let n = input.len();
        if pos >= n {
            return None;
        }
        let c = input[pos];
        let ghost rest = input@.skip(pos as int);
        assert(rest[0] == c);
        assert(rest.len() == n - pos);
        assert(pos + 1 < n ==> rest[1] == input@[pos + 1]);
        assert(pos + 2 < n ==> rest[2] == input@[pos + 2]);
        if c == '-' {
            if n - pos > 1 && input[pos + 1] == '>' {
                Some((Operator::If, pos + 2))
            } else {
                None
            }
        } else if c == '<' {
            if n - pos > 2 && input[pos + 1] == '-' && input[pos + 2] == '>' {
                Some((Operator::Iff, pos + 3))
            } else {
                None
            }
        } else if c == '&' {
            if n - pos > 1 && input[pos + 1] == '&' {
                Some((Operator::And, pos + 2))
            } else {
                Some((Operator::And, pos + 1))
            }
        } else if c == '|' {
            if n - pos > 1 && input[pos + 1] == '|' {
                Some((Operator::Or, pos + 2))
            } else {
                Some((Operator::Or, pos + 1))
            }
        } else {
            match Operator::from_char(c) {
                Some(op) => Some((op, pos + 1)),
                None => None,
            }
        }
    }

    /// The operator that the single character `c` spells, if any.
    pub fn from_char(c: char) -> (r: Option<Operator>)
        ensures
            r == Self::spec_from_char(c),
    {
        if c == '&' {
            Some(Operator::And)
        } else if c == '|' {
            Some(Operator::Or)
        } else if c == '~' || c == '!' {
            Some(Operator::Not)
        } else if c == '(' || c == ')' {
            Some(Operator::Parenthesis)
        } else {
            None
        }
    }

    /// Binding strength: a larger number binds tighter.
    #[verifier::when_used_as_spec(spec_precedence)]
    pub fn precedence(self) -> (p: u8)
        ensures
            p == self.spec_precedence(),
    {
        match self {
            Operator::Parenthesis => 4,
            Operator::Not => 3,
            Operator::And => 2,
            Operator::Or => 1,
            Operator::If | Operator::Iff => 0,
        }
    }

    /// The side towards which the operator groups.
    #[verifier::when_used_as_spec(spec_associativity)]
    pub fn associativity(self) -> (a: Associativity)
        ensures
            a == self.spec_associativity(),
    {
        match self {
            Operator::Not => Associativity::Right,
            _ => Associativity::Left,
        }
    }
}

} // verus!
