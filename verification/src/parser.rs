//! The expression builder: reduces a postfix token sequence to a syntax
//! tree on a stack of operands.

use vstd::prelude::*;
use crate::error::ParseError;
use crate::formula::Formula;
use crate::lexer::{
    all_postfix, is_name, is_postfix_symbol, shunting_yard, spec_shunting_yard, symbols, Symbol,
    Token,
};
use crate::node::{is_connective, Node, Tree};
use crate::operator::Operator;

verus! {

/// The operand stack after one more symbol: an operand is pushed, and an
/// operator replaces its operands, the topmost being the right one, by the
/// node it builds. `None` where the operands are missing, or where the
/// symbol is the parenthesis marker, which no postfix sequence holds.
pub open spec fn reduce(stack: Seq<Tree>, s: Symbol) -> Option<Seq<Tree>> {
    match s {
        Symbol::Atom(name) => Some(stack.push(Tree::Atom(name))),
        Symbol::Value(b) => Some(stack.push(Tree::Value(b))),
        Symbol::Operator(o) => if o == Operator::Not {
            if stack.len() >= 1 {
                Some(stack.drop_last().push(Tree::Not(Box::new(stack.last()))))
            } else {
                None
            }
        } else if is_connective(o) {
            if stack.len() >= 2 {
                Some(
                    stack.take(stack.len() - 2).push(
                        Tree::Binary(
                            o,
                            Box::new(stack[stack.len() - 2]),
                            Box::new(stack.last()),
                        ),
                    ),
                )
            } else {
                None
            }
        } else {
            None
        },
    }
}

/// The operand stack after the whole sequence, read from left to right.
pub open spec fn operands(tokens: Seq<Symbol>) -> Option<Seq<Tree>>
    decreases tokens.len(),
{
    if tokens.len() == 0 {
        Some(Seq::empty())
    } else {
        match operands(tokens.drop_last()) {
            Some(stack) => reduce(stack, tokens.last()),
            None => None,
        }
    }
}

/// The tree that a postfix sequence builds: the single operand that is
/// left at the end. Anything else is an invalid expression.
pub open spec fn spec_build(tokens: Seq<Symbol>) -> Result<Tree, ParseError> {
    match operands(tokens) {
        Some(stack) => if stack.len() == 1 {
            Ok(stack[0])
        } else {
            Err(ParseError::InvalidExpression)
        },
        None => Err(ParseError::InvalidExpression),
    }
}

/// The tree of the infix text `s`.
pub open spec fn spec_parse(s: Seq<char>) -> Result<Tree, ParseError> {
    match spec_shunting_yard(s) {
        Ok(tokens) => spec_build(tokens),
        Err(e) => Err(e),
    }
}

impl Tree {
    /// The tree is well-formed and each of its variables has a name that
    /// the tokenizer gives.
    pub open spec fn legible(self) -> bool
        decreases self,
    {
        match self {
            Tree::Binary(o, l, r) => is_connective(o) && l.legible() && r.legible(),
            Tree::Not(x) => x.legible(),
            Tree::Atom(name) => is_name(name),
            Tree::Value(_) => true,
        }
    }
}

/// A legible tree is well-formed.
pub proof fn lemma_legible_well_formed(t: Tree)
    requires
        t.legible(),
    ensures
        t.well_formed(),
    decreases t,
{
    match t {
        Tree::Binary(_, l, r) => {
            lemma_legible_well_formed(*l);
            lemma_legible_well_formed(*r);
        },
        Tree::Not(x) => {
            lemma_legible_well_formed(*x);
        },
        _ => {},
    }
}

/// Every tree on a stack is legible.
pub open spec fn all_legible(stack: Seq<Tree>) -> bool {
    forall|i: int| 0 <= i < stack.len() ==> (#[trigger] stack[i]).legible()
}

/// The builder makes legible trees of postfix symbols.
pub proof fn lemma_operands_legible(tokens: Seq<Symbol>)
    requires
        all_postfix(tokens),
    ensures
        operands(tokens) is Some ==> all_legible(operands(tokens)->Some_0),
    decreases tokens.len(),
{
    if tokens.len() > 0 {
        lemma_operands_legible(tokens.drop_last());
        assert(is_postfix_symbol(tokens.last()));
    }
}

/// The trees that a stack of nodes stands for.
pub open spec fn trees(nodes: Seq<Node>) -> Seq<Tree> {
    nodes.map_values(|n: Node| n@)
}

/// Once the operands are missing, no further symbol brings them back.
pub proof fn lemma_operands_fail_for_good(tokens: Seq<Symbol>, n: int)
    requires
        0 <= n <= tokens.len(),
        operands(tokens.take(n)) is None,
    ensures
        operands(tokens) is None,
    decreases tokens.len() - n,
{
    if n < tokens.len() {
        assert(tokens.take(n + 1).drop_last() =~= tokens.take(n));
        lemma_operands_fail_for_good(tokens, n + 1);
    } else {
        assert(tokens.take(n) =~= tokens);
    }
}

/// A parser for one formula: it holds the outcome of tokenizing the text.
pub struct FormulaParser {
    source: Result<Vec<Token>, ParseError>,
}

impl FormulaParser {
    /// The postfix sequence that the parser holds, or the fault that the
    /// tokenizer found.
    pub closed spec fn tokens(&self) -> Result<Seq<Symbol>, ParseError> {
        match self.source {
            Ok(tokens) => Ok(symbols(tokens@)),
            Err(e) => Err(e),
        }
    }

    /// What the parser holds came out of the tokenizer.
    #[verifier::type_invariant]
    pub closed spec fn well_formed(&self) -> bool {
        match self.source {
            Ok(tokens) => all_postfix(symbols(tokens@)),
            Err(e) => e == ParseError::UnbalancedParentheses,
        }
    }

    /// The outcome of parsing what the parser holds.
    pub open spec fn outcome(&self) -> Result<Tree, ParseError> {
        match self.tokens() {
            Ok(tokens) => spec_build(tokens),
            Err(e) => Err(e),
        }
    }

    /// Tokenizes `source`.
    pub fn new(source: &str) -> (parser: FormulaParser)
        ensures
            parser.tokens() == spec_shunting_yard(source@),
            parser.outcome() == spec_parse(source@),
    {
        let source = shunting_yard(source);
        FormulaParser { source }
    }

    /// Builds the formula. Fails with the tokenizer's fault where there is
    /// one, and with `InvalidExpression` where the tokens do not reduce to
    /// exactly one tree.
    pub fn parse(self) -> (r: Result<Formula, ParseError>)
        ensures
            match r {
                Ok(formula) => self.outcome() == Ok::<Tree, ParseError>(formula.tree())
                    && formula.tree().legible(),
                Err(e) => self.outcome() == Err::<Tree, ParseError>(e),
            },
    {
        match self.parse_expr() {
            Ok(root) => Ok(Formula::new(root)),
            Err(e) => Err(e),
        }
    }

    /// Builds the syntax tree.
    pub fn parse_expr(self) -> (r: Result<Node, ParseError>)
        ensures
            match r {
                Ok(root) => self.outcome() == Ok::<Tree, ParseError>(root@) && root@.legible(),
                Err(e) => self.outcome() == Err::<Tree, ParseError>(e),
            },
    {
        proof {
            use_type_invariant(&self);
        }
        let ghost outcome = self.outcome();
        let tokens = match self.source {
            Ok(tokens) => tokens,
            Err(e) => {
                return Err(e);
            },
        };
        let ghost all = symbols(tokens@);
        proof {
            lemma_operands_legible(all);
        }
        let mut stack: Vec<Node> = Vec::new();
        assert(all.take(0) =~= Seq::<Symbol>::empty());
        assert(trees(stack@) =~= Seq::<Tree>::empty());
        for token in it: tokens
            invariant
                outcome == self.outcome(),
                outcome == spec_build(all),
                symbols(it.seq()) == all,
                operands(all.take(it.index() as int)) == Some(trees(stack@)),
        {
            let ghost i = it.index() as int;
            let ghost before = trees(stack@);
            proof {
                assert(all.take(i + 1).drop_last() =~= all.take(i));
                assert(all.take(i + 1).last() == token@);
            }
            match token {
                Token::Atom(atom) => {
                    stack.push(Node::Atom(atom));
                    assert(trees(stack@) =~= before.push(Tree::Atom(atom@)));
                },
                Token::Value(b) => {
                    stack.push(Node::Value(b));
                    assert(trees(stack@) =~= before.push(Tree::Value(b)));
                },
                Token::Operator(op) => {
                    if op == Operator::Parenthesis || stack.len() == 0 || (op != Operator::Not
                        && stack.len() < 2) {
                        proof {
                            assert(reduce(before, token@) is None);
                            lemma_operands_fail_for_good(all, i + 1);
                        }
                        return Err(ParseError::InvalidExpression);
                    }
                    let right = stack.pop().unwrap();
                    match op {
                        Operator::Not => {
                            stack.push(Node::Not(Box::new(right)));
                        },
                        Operator::And => {
                            let left = stack.pop().unwrap();
                            stack.push(Node::And(Box::new(left), Box::new(right)));
                        },
                        Operator::Or => {
                            let left = stack.pop().unwrap();
                            stack.push(Node::Or(Box::new(left), Box::new(right)));
                        },
                        Operator::If => {
                            let left = stack.pop().unwrap();
                            stack.push(Node::If(Box::new(left), Box::new(right)));
                        },
                        _ => {
                            let left = stack.pop().unwrap();
                            stack.push(Node::Iff(Box::new(left), Box::new(right)));
                        },
                    }
                    assert(Some(trees(stack@)) =~= reduce(before, token@));
                },
            }
        }
        assert(all.take(all.len() as int) =~= all);
        if stack.len() != 1 {
            return Err(ParseError::InvalidExpression);
        }
        let root = stack.pop().unwrap();
        Ok(root)
    }
}

/// Parses the infix text `text` into a formula.
///
/// Fails with `UnbalancedParentheses` where the parentheses of the text do
/// not balance, and otherwise with `InvalidExpression` where its operands
/// and operators do not make up exactly one formula.
pub fn parse(text: &str) -> (r: Result<Formula, ParseError>)
    ensures
        match r {
            Ok(formula) => spec_parse(text@) == Ok::<Tree, ParseError>(formula.tree())
                && formula.tree().legible(),
            Err(e) => spec_parse(text@) == Err::<Tree, ParseError>(e),
        },
{
    FormulaParser::new(text).parse()
}

} // verus!
