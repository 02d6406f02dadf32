//! A formula: a syntax tree together with the names of its variables, and
//! its evaluation under an assignment.

use std::collections::HashMap;
use vstd::prelude::*;
use crate::names::{ascending, insert_name, name_set};
use crate::node::{Node, Tree, trees_of};
use crate::operator::Operator;

verus! {

/// The assignment that a hash map holds: for each name that is a key of
/// the map, the truth value stored under it.
pub uninterp spec fn bindings(vars: HashMap<String, bool>) -> Map<Seq<char>, bool>;

/// `HashMap::get`: the truth value stored under `name`, or `None` where
/// `name` is not a key of the map.
#[verifier::external_body]
fn lookup<'a>(vars: &'a HashMap<String, bool>, name: &String) -> (r: Option<&'a bool>)
    ensures
        match r {
            Some(value) => bindings(*vars).contains_key(name@) && *value == bindings(*vars)[name@],
            None => !bindings(*vars).contains_key(name@),
        },
{
    vars.get(name)
}

/// The assignment that gives no variable a value.
pub open spec fn no_bindings() -> Map<Seq<char>, bool> {
    Map::empty()
}

/// `HashMap::new`: a map without keys.
#[verifier::external_body]
pub(crate) fn empty_assignment() -> (r: HashMap<String, bool>)
    ensures
        bindings(r) == no_bindings(),
{
    HashMap::new()
}

/// `HashMap::insert`: afterwards `value` is stored under `name`, in place
/// of what was stored there before, and every other key is as it was.
#[verifier::external_body]
pub(crate) fn bind(vars: &mut HashMap<String, bool>, name: String, value: bool)
    ensures
        bindings(*final(vars)) == bindings(*old(vars)).insert(name@, value),
{
    vars.insert(name, value);
}

/// The truth table of a binary connective.
pub open spec fn connect(o: Operator, a: bool, b: bool) -> bool {
    match o {
        Operator::And => a && b,
        Operator::Or => a || b,
        Operator::If => !a || b,
        _ => a == b,
    }
}

impl Tree {
    /// The truth value of the tree under `env`, or `None` where any of its
    /// variables has no value in `env`.
    pub open spec fn eval(self, env: Map<Seq<char>, bool>) -> Option<bool>
        decreases self,
    {
        match self {
            Tree::Binary(o, l, r) => match (l.eval(env), r.eval(env)) {
                (Some(a), Some(b)) => Some(connect(o, a, b)),
                _ => None,
            },
            Tree::Not(x) => match x.eval(env) {
                Some(a) => Some(!a),
                None => None,
            },
            Tree::Atom(name) => if env.contains_key(name) {
                Some(env[name])
            } else {
                None
            },
            Tree::Value(b) => Some(b),
        }
    }
}

/// The names of the variables among the given trees themselves, not
/// below them.
pub open spec fn leaf_names(trees: Seq<Tree>) -> Set<Seq<char>> {
    Set::new(|n: Seq<char>| exists|i: int| 0 <= i < trees.len() && #[trigger] trees[i] == Tree::Atom(n))
}

proof fn lemma_leaf_names_concat(a: Seq<Tree>, b: Seq<Tree>)
    ensures
        leaf_names(a + b) == leaf_names(a).union(leaf_names(b)),
{
    assert forall|n: Seq<char>| leaf_names(a + b).contains(n) <==> leaf_names(a).union(
        leaf_names(b),
    ).contains(n) by {
        if leaf_names(a + b).contains(n) {
            let i = choose|i: int| 0 <= i < (a + b).len() && #[trigger] (a + b)[i] == Tree::Atom(n);
            if i < a.len() {
                assert(a[i] == Tree::Atom(n));
            } else {
                assert(b[i - a.len()] == Tree::Atom(n));
            }
        }
        if leaf_names(a).contains(n) {
            let i = choose|i: int| 0 <= i < a.len() && #[trigger] a[i] == Tree::Atom(n);
            assert((a + b)[i] == Tree::Atom(n));
        }
        if leaf_names(b).contains(n) {
            let i = choose|i: int| 0 <= i < b.len() && #[trigger] b[i] == Tree::Atom(n);
            assert((a + b)[i + a.len()] == Tree::Atom(n));
        }
    }
    assert(leaf_names(a + b) =~= leaf_names(a).union(leaf_names(b)));
}

proof fn lemma_leaf_names_one(t: Tree)
    ensures
        leaf_names(seq![t]) == (match t {
            Tree::Atom(n) => set![n],
            _ => Set::empty(),
        }),
{
    let one = seq![t];
    let expected = match t {
        Tree::Atom(n) => set![n],
        _ => Set::<Seq<char>>::empty(),
    };
    assert forall|n: Seq<char>| leaf_names(one).contains(n) <==> expected.contains(n) by {
        if leaf_names(one).contains(n) {
            let i = choose|i: int| 0 <= i < one.len() && #[trigger] one[i] == Tree::Atom(n);
        }
        if expected.contains(n) {
            assert(one[0] == Tree::Atom(n));
        }
    }
    assert(leaf_names(one) =~= expected);
}

/// The variables of a tree are the variable nodes among the tree and
/// everything below it.
pub proof fn lemma_atoms_are_leaves(t: Tree)
    ensures
        t.atoms() == leaf_names(seq![t] + t.descendants()),
    decreases t,
{
    lemma_leaf_names_concat(seq![t], t.descendants());
    lemma_leaf_names_one(t);
    match t {
        Tree::Binary(_, l, r) => {
            lemma_atoms_are_leaves(*l);
            lemma_atoms_are_leaves(*r);
            lemma_leaf_names_concat(seq![*l] + l.descendants(), seq![*r] + r.descendants());
            assert(t.descendants() =~= (seq![*l] + l.descendants()) + (seq![*r] + r.descendants()));
            assert(t.atoms() =~= leaf_names(seq![t] + t.descendants()));
        },
        Tree::Not(x) => {
            lemma_atoms_are_leaves(*x);
            assert(t.atoms() =~= leaf_names(seq![t] + t.descendants()));
        },
        _ => {
            assert(t.descendants() =~= Seq::<Tree>::empty());
            assert(t.atoms() =~= leaf_names(seq![t] + t.descendants()));
        },
    }
}

/// The truth value of `node` under `vars`, or `None` where a variable of
/// `node` has no value there.
pub fn eval_node(node: &Node, vars: &HashMap<String, bool>) -> (r: Option<bool>)
    ensures
        r == node@.eval(bindings(*vars)),
    decreases node,
{
    match node {
        Node::And(left, right) => {
            match (eval_node(left, vars), eval_node(right, vars)) {
                (Some(a), Some(b)) => Some(a && b),
                _ => None,
            }
        },
        Node::Or(left, right) => {
            match (eval_node(left, vars), eval_node(right, vars)) {
                (Some(a), Some(b)) => Some(a || b),
                _ => None,
            }
        },
        Node::Not(operand) => {
            match eval_node(operand, vars) {
                Some(a) => Some(!a),
                None => None,
            }
        },
        Node::If(left, right) => {
            match (eval_node(left, vars), eval_node(right, vars)) {
                (Some(a), Some(b)) => Some(!a || b),
                _ => None,
            }
        },
        Node::Iff(left, right) => {
            match (eval_node(left, vars), eval_node(right, vars)) {
                (Some(a), Some(b)) => Some(a == b),
                _ => None,
            }
        },
        Node::Atom(s) => match lookup(vars, s) {
            Some(value) => Some(*value),
            None => None,
        },
        Node::Value(b) => Some(*b),
    }
}

/// The names of the variables of `root`, in ascending order.
fn collect_variables(root: &Node) -> (variables: Vec<String>)
    ensures
        ascending(variables@),
        name_set(variables@) == root@.atoms(),
{
    let mut variables: Vec<String> = Vec::new();
    let mut nodes = root.children();
    nodes.push(root);
    proof {
        lemma_atoms_are_leaves(root@);
        lemma_leaf_names_concat(seq![root@], root@.descendants());
        lemma_leaf_names_concat(root@.descendants(), seq![root@]);
        assert(trees_of(nodes@) =~= root@.descendants() + seq![root@]);
        assert(root@.atoms() =~= leaf_names(trees_of(nodes@)));
        assert(name_set(variables@) =~= leaf_names(trees_of(nodes@).take(0)));
    }
    let mut i: usize = 0;
    while i < nodes.len()
        invariant
            i <= nodes@.len(),
            ascending(variables@),
            name_set(variables@) == leaf_names(trees_of(nodes@).take(i as int)),
        decreases nodes@.len() - i,
    {
        let ghost seen = trees_of(nodes@).take(i as int);
        let ghost next = trees_of(nodes@).take(i + 1);
        proof {
            assert(next =~= seen + seq![nodes@[i as int]@]);
            lemma_leaf_names_concat(seen, seq![nodes@[i as int]@]);
            lemma_leaf_names_one(nodes@[i as int]@);
        }
        match nodes[i] {
            Node::Atom(s) => {
                insert_name(&mut variables, s);
                assert(name_set(variables@) =~= leaf_names(next));
            },
            _ => {
                assert(name_set(variables@) =~= leaf_names(next));
            },
        }
        i = i + 1;
    }
    assert(trees_of(nodes@).take(nodes@.len() as int) =~= trees_of(nodes@));
    variables
}

/// A syntax tree and the names of its variables.
#[derive(Debug)]
pub struct Formula {
    root: Node,
    variables: Vec<String>,
}

impl Formula {
    /// The tree of the formula.
    pub closed spec fn tree(&self) -> Tree {
        self.root@
    }

    /// The variable names that the formula holds.
    pub closed spec fn names(&self) -> Seq<String> {
        self.variables@
    }

    /// The names are ascending, hence distinct, and are exactly the
    /// variables of the tree.
    #[verifier::type_invariant]
    pub closed spec fn well_formed(&self) -> bool {
        &&& ascending(self.variables@)
        &&& name_set(self.variables@) == self.root@.atoms()
    }

    /// Wraps `root`, collecting its variables by one walk over the tree.
    pub fn new(root: Node) -> (f: Formula)
        ensures
            f.tree() == root@,
            f.well_formed(),
    {
        let variables = collect_variables(&root);
        Formula { root, variables }
    }

    /// The tree of the formula.
    pub fn root(&self) -> (root: &Node)
        ensures
            root@ == self.tree(),
    {
        &self.root
    }

    /// The names of the variables of the formula: each once, in ascending
    /// lexicographic order.
    pub fn variables(&self) -> (names: &Vec<String>)
        ensures
            names@ == self.names(),
            ascending(names@),
            name_set(names@) == self.tree().atoms(),
    {
        proof {
            use_type_invariant(self);
        }
        &self.variables
    }

    /// The truth value of the formula under `vars`, or `None` where one of
    /// its variables has no value there.
    pub fn eval(&self, vars: &HashMap<String, bool>) -> (r: Option<bool>)
        ensures
            r == self.tree().eval(bindings(*vars)),
    {
        eval_node(&self.root, vars)
    }

    /// The canonical infix text of the formula.
    pub fn to_string(&self) -> (s: String)
        ensures
            s@ == self.tree().text(0),
    {
        self.root.to_string()
    }
}

} // verus!
