//! The syntax tree of a formula, its canonical text and its traversals.

use vstd::prelude::*;
use crate::lexer::Symbol;
use crate::operator::Operator;
use crate::text::push_char;

verus! {

/// A formula as a tree. Every node owns its children.
#[derive(Debug)]
pub enum Node {
    And(Box<Node>, Box<Node>),
    Or(Box<Node>, Box<Node>),
    Not(Box<Node>),
    If(Box<Node>, Box<Node>),
    Iff(Box<Node>, Box<Node>),
    Atom(String),
    Value(bool),
}

/// The mathematical tree that a `Node` stands for. A binary node carries
/// its connective, which is one of `And`, `Or`, `If` and `Iff`.
pub enum Tree {
    Binary(Operator, Box<Tree>, Box<Tree>),
    Not(Box<Tree>),
    Atom(Seq<char>),
    Value(bool),
}

impl View for Node {
    type V = Tree;

    open spec fn view(&self) -> Tree {
        self.tree()
    }
}

impl Node {
    /// The tree that the node stands for.
    pub open spec fn tree(&self) -> Tree
        decreases self,
    {
        match self {
            Node::And(l, r) => Tree::Binary(Operator::And, Box::new(l.tree()), Box::new(r.tree())),
            Node::Or(l, r) => Tree::Binary(Operator::Or, Box::new(l.tree()), Box::new(r.tree())),
            Node::If(l, r) => Tree::Binary(Operator::If, Box::new(l.tree()), Box::new(r.tree())),
            Node::Iff(l, r) => Tree::Binary(Operator::Iff, Box::new(l.tree()), Box::new(r.tree())),
            Node::Not(x) => Tree::Not(Box::new(x.tree())),
            Node::Atom(name) => Tree::Atom(name@),
            Node::Value(b) => Tree::Value(*b),
        }
    }
}

/// Whether `o` joins two operands.
pub open spec fn is_connective(o: Operator) -> bool {
    o == Operator::And || o == Operator::Or || o == Operator::If || o == Operator::Iff
}

/// How tightly a binary connective binds in the canonical text.
pub open spec fn connective_precedence(o: Operator) -> u8 {
    match o {
        Operator::And => 3,
        Operator::Or => 2,
        Operator::If => 1,
        _ => 0,
    }
}

/// A binary connective as it is written between its operands.
pub open spec fn connective_text(o: Operator) -> Seq<char> {
    match o {
        Operator::And => seq![' ', '&', ' '],
        Operator::Or => seq![' ', '|', ' '],
        Operator::If => seq![' ', '-', '>', ' '],
        _ => seq![' ', '<', '-', '>', ' '],
    }
}

impl Tree {
    /// Every binary node carries a binary connective.
    pub open spec fn well_formed(self) -> bool
        decreases self,
    {
        match self {
            Tree::Binary(o, l, r) => is_connective(o) && l.well_formed() && r.well_formed(),
            Tree::Not(x) => x.well_formed(),
            _ => true,
        }
    }

    /// How tightly the root binds in the canonical text: leaves tightest,
    /// then negation, conjunction, disjunction, implication, equivalence.
    pub open spec fn precedence(self) -> u8 {
        match self {
            Tree::Atom(_) => 5,
            Tree::Value(_) => 5,
            Tree::Not(_) => 4,
            Tree::Binary(o, _, _) => connective_precedence(o),
        }
    }

    /// The text of the tree without parentheses around the whole.
    pub open spec fn body(self) -> Seq<char>
        decreases self, 0nat,
    {
        match self {
            Tree::Binary(o, l, r) => l.text(connective_precedence(o)) + connective_text(o) + r.text(
                connective_precedence(o),
            ),
            Tree::Not(x) => seq!['~'] + x.text(4),
            Tree::Atom(name) => name,
            Tree::Value(b) => if b {
                seq!['T']
            } else {
                seq!['F']
            },
        }
    }

    /// The canonical infix text of the tree below a parent of precedence
    /// `parent`: in parentheses exactly where the root binds less tightly
    /// than the parent.
    pub open spec fn text(self, parent: u8) -> Seq<char>
        decreases self, 1nat,
    {
        if self.precedence() < parent {
            seq!['('] + self.body() + seq![')']
        } else {
            self.body()
        }
    }

    /// The tree in postfix order.
    pub open spec fn postfix(self) -> Seq<Symbol>
        decreases self,
    {
        match self {
            Tree::Binary(o, l, r) => (l.postfix() + r.postfix()).push(Symbol::Operator(o)),
            Tree::Not(x) => x.postfix().push(Symbol::Operator(Operator::Not)),
            Tree::Atom(name) => seq![Symbol::Atom(name)],
            Tree::Value(b) => seq![Symbol::Value(b)],
        }
    }

    /// Every node below the root, parents before children and left before
    /// right.
    pub open spec fn descendants(self) -> Seq<Tree>
        decreases self,
    {
        match self {
            Tree::Binary(_, l, r) => seq![*l] + l.descendants() + seq![*r] + r.descendants(),
            Tree::Not(x) => seq![*x] + x.descendants(),
            _ => Seq::empty(),
        }
    }

    /// The names of the variables that occur in the tree.
    pub open spec fn atoms(self) -> Set<Seq<char>>
        decreases self,
    {
        match self {
            Tree::Binary(_, l, r) => l.atoms().union(r.atoms()),
            Tree::Not(x) => x.atoms(),
            Tree::Atom(name) => set![name],
            Tree::Value(_) => Set::empty(),
        }
    }
}

/// The trees that a sequence of borrowed nodes stands for.
pub open spec fn trees_of(nodes: Seq<&Node>) -> Seq<Tree> {
    nodes.map_values(|n: &Node| n@)
}

proof fn lemma_trees_of_push(nodes: Seq<&Node>, n: &Node)
    ensures
        trees_of(nodes.push(n)) == trees_of(nodes).push(n@),
{
    assert(trees_of(nodes.push(n)) =~= trees_of(nodes).push(n@));
}

fn push_connective(out: &mut String, o: Operator)
    requires
        is_connective(o),
    ensures
        final(out)@ == old(out)@ + connective_text(o),
{
    push_char(out, ' ');
    match o {
        Operator::And => {
            push_char(out, '&');
        },
        Operator::Or => {
            push_char(out, '|');
        },
        Operator::If => {
            push_char(out, '-');
            push_char(out, '>');
        },
        _ => {
            push_char(out, '<');
            push_char(out, '-');
            push_char(out, '>');
        },
    }
    push_char(out, ' ');
    assert(out@ =~= old(out)@ + connective_text(o));
}

impl Node {
    /// Every `Node` stands for a well-formed tree.
    pub proof fn lemma_well_formed(&self)
        ensures
            self@.well_formed(),
        decreases self,
    {
        match self {
            Node::And(l, r) | Node::Or(l, r) | Node::If(l, r) | Node::Iff(l, r) => {
                l.lemma_well_formed();
                r.lemma_well_formed();
            },
            Node::Not(x) => {
                x.lemma_well_formed();
            },
            _ => {},
        }
    }

    /// How tightly the root binds in the canonical text.
    pub fn precedence(&self) -> (p: u8)
        ensures
            p == self@.precedence(),
    {
        match self {
            Node::Atom(_) | Node::Value(_) => 5,
            Node::Not(_) => 4,
            Node::And(_, _) => 3,
            Node::Or(_, _) => 2,
            Node::If(_, _) => 1,
            Node::Iff(_, _) => 0,
        }
    }

    /// Appends the canonical text of the node, as it stands below a parent
    /// of precedence `parent_precedence`, to `out`.
    pub fn fmt_with_precedence(&self, out: &mut String, parent_precedence: u8)
        ensures
            final(out)@ == old(out)@ + self@.text(parent_precedence),
        decreases self,
    {
        let this_precedence = self.precedence();
        let need_parens = this_precedence < parent_precedence;
        if need_parens {
            push_char(out, '(');
        }
        let ghost before = out@;
        match self {
            Node::And(left, right) => {
                left.fmt_with_precedence(out, this_precedence);
                push_connective(out, Operator::And);
                right.fmt_with_precedence(out, this_precedence);
            },
            Node::Or(left, right) => {
                left.fmt_with_precedence(out, this_precedence);
                push_connective(out, Operator::Or);
                right.fmt_with_precedence(out, this_precedence);
            },
            Node::Not(operand) => {
                push_char(out, '~');
                operand.fmt_with_precedence(out, this_precedence);
            },
            Node::If(left, right) => {
                left.fmt_with_precedence(out, this_precedence);
                push_connective(out, Operator::If);
                right.fmt_with_precedence(out, this_precedence);
            },
            Node::Iff(left, right) => {
                left.fmt_with_precedence(out, this_precedence);
                push_connective(out, Operator::Iff);
                right.fmt_with_precedence(out, this_precedence);
            },
            Node::Atom(s) => {
                out.append(s.as_str());
            },
            Node::Value(b) => {
                push_char(
                    out,
                    if *b {
                        'T'
                    } else {
                        'F'
                    },
                );
            },
        }
        assert(out@ =~= before + self@.body());
        if need_parens {
            push_char(out, ')');
        }
        assert(out@ =~= old(out)@ + self@.text(parent_precedence));
    }

    /// The canonical infix text of the node, with as few parentheses as
    /// the precedences allow.
    pub fn to_string(&self) -> (s: String)
        ensures
            s@ == self@.text(0),
    {
        let mut out = String::new();
        self.fmt_with_precedence(&mut out, 0);
        assert(out@ =~= self@.text(0));
        out
    }

    /// Appends every node below `self` to `stack`, parents before children
    /// and left before right.
    pub fn _children<'a>(&'a self, stack: &mut Vec<&'a Node>)
        ensures
            trees_of(final(stack)@) == trees_of(old(stack)@) + self@.descendants(),
        decreases self,
    {
        match self {
            Node::And(left, right)
            | Node::If(left, right)
            | Node::Or(left, right)
            | Node::Iff(left, right) => {
                proof {
                    lemma_trees_of_push(stack@, &**left);
                }
                stack.push(left);
                left._children(stack);
                proof {
                    lemma_trees_of_push(stack@, &**right);
                }
                stack.push(right);
                right._children(stack);
                assert(trees_of(stack@) =~= trees_of(old(stack)@) + self@.descendants());
            },
            Node::Not(operand) => {
                proof {
                    lemma_trees_of_push(stack@, &**operand);
                }
                stack.push(operand);
                operand._children(stack);
                assert(trees_of(stack@) =~= trees_of(old(stack)@) + self@.descendants());
            },
            _ => {
                assert(trees_of(stack@) =~= trees_of(old(stack)@) + self@.descendants());
            },
        }
    }

    /// Every node below `self`, parents before children and left before
    /// right.
    pub fn children(&self) -> (nodes: Vec<&Node>)
        ensures
            trees_of(nodes@) == self@.descendants(),
    {
        let mut stack = Vec::new();
        self._children(&mut stack);
        assert(trees_of(stack@) =~= self@.descendants());
        stack
    }
}

} // verus!
