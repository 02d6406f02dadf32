//! The printer and the parser are inverses: the canonical text of a tree
//! parses back to the tree, up to the regrouping of chains that the text
//! writes without parentheses.

use vstd::prelude::*;
use crate::error::ParseError;
use crate::formula::connect;
use crate::lexer::{
    is_name, is_word, lemma_tokens_are_postfix, scan, spec_shunting_yard, truth_word, word_len,
    yields, Symbol, Yard,
};
use crate::node::{connective_precedence, connective_text, is_connective, Tree};
use crate::operator::Operator;
use crate::parser::{
    lemma_legible_well_formed, lemma_operands_legible, operands, reduce, spec_build, spec_parse,
};
use crate::text::is_letter;

verus! {

impl Tree {
    /// Whether the tree, as the right operand of `o`, is written without
    /// parentheses although the parser binds it no tighter than `o`: a
    /// chain of one connective, or an implication to the right of an
    /// equivalence. The parser groups such a chain to the left.
    pub open spec fn regroups_under(self, o: Operator) -> bool {
        match self {
            Tree::Binary(inner, _, _) => inner == o || (o == Operator::Iff && inner
                == Operator::If),
            _ => false,
        }
    }

    /// No right operand anywhere in the tree is regrouped by the parser.
    pub open spec fn canonical(self) -> bool
        decreases self,
    {
        match self {
            Tree::Binary(o, l, r) => l.canonical() && r.canonical() && !r.regroups_under(o),
            Tree::Not(x) => x.canonical(),
            _ => true,
        }
    }

    /// The operators that are on the stack, bottom first, when the
    /// tokenizer has read the body of the tree.
    pub open spec fn pending(self) -> Seq<Operator>
        decreases self, 0nat,
    {
        match self {
            Tree::Binary(o, _, r) => seq![o] + r.pending_under(connective_precedence(o)),
            Tree::Not(x) => seq![Operator::Not] + x.pending_under(4),
            _ => Seq::empty(),
        }
    }

    /// As `pending`, for the text of the tree below a parent: nothing is
    /// left on the stack behind a closing parenthesis.
    pub open spec fn pending_under(self, parent: u8) -> Seq<Operator>
        decreases self, 1nat,
    {
        if self.precedence() < parent {
            Seq::empty()
        } else {
            self.pending()
        }
    }

    /// The symbols that are in the output when the tokenizer has read the
    /// body of the tree.
    pub open spec fn emitted(self) -> Seq<Symbol>
        decreases self, 0nat,
    {
        match self {
            Tree::Binary(o, l, r) => l.postfix() + r.emitted_under(connective_precedence(o)),
            Tree::Not(x) => x.emitted_under(4),
            Tree::Atom(name) => seq![Symbol::Atom(name)],
            Tree::Value(b) => seq![Symbol::Value(b)],
        }
    }

    /// As `emitted`, for the text of the tree below a parent.
    pub open spec fn emitted_under(self, parent: u8) -> Seq<Symbol>
        decreases self, 1nat,
    {
        if self.precedence() < parent {
            self.postfix()
        } else {
            self.emitted()
        }
    }
}

/// The operators of a stack as symbols, in the order in which they leave
/// it: top first.
pub open spec fn unloaded(ops: Seq<Operator>) -> Seq<Symbol>
    decreases ops.len(),
{
    if ops.len() == 0 {
        Seq::empty()
    } else {
        seq![Symbol::Operator(ops.last())] + unloaded(ops.drop_last())
    }
}

proof fn lemma_unloaded_one(o: Operator)
    ensures
        unloaded(seq![o]) == seq![Symbol::Operator(o)],
{
    let one = seq![o];
    assert(one.drop_last() =~= Seq::<Operator>::empty());
    assert(unloaded(one.drop_last()) =~= Seq::<Symbol>::empty());
    assert(unloaded(one) =~= seq![Symbol::Operator(o)]);
}

proof fn lemma_unloaded_concat(a: Seq<Operator>, b: Seq<Operator>)
    ensures
        unloaded(a + b) == unloaded(b) + unloaded(a),
    decreases b.len(),
{
    if b.len() == 0 {
        assert(a + b =~= a);
        assert(unloaded(b) + unloaded(a) =~= unloaded(a));
    } else {
        assert((a + b).drop_last() =~= a + b.drop_last());
        assert((a + b).last() == b.last());
        lemma_unloaded_concat(a, b.drop_last());
        assert(unloaded(a + b) =~= unloaded(b) + unloaded(a));
    }
}

/// What is in the output and what is still on the stack make up the
/// postfix form of the tree.
proof fn lemma_pending_completes(t: Tree)
    ensures
        t.emitted() + unloaded(t.pending()) == t.postfix(),
        forall|p: u8| #[trigger] t.emitted_under(p) + unloaded(t.pending_under(p)) == t.postfix(),
    decreases t,
{
    match t {
        Tree::Binary(o, l, r) => {
            lemma_pending_completes(*r);
            let p = connective_precedence(o);
            lemma_unloaded_concat(seq![o], r.pending_under(p));
            lemma_unloaded_one(o);
            assert(r.emitted_under(p) + unloaded(r.pending_under(p)) == r.postfix());
            assert(t.emitted() + unloaded(t.pending()) =~= l.postfix() + (r.emitted_under(p)
                + unloaded(r.pending_under(p))) + seq![Symbol::Operator(o)]);
            assert(t.emitted() + unloaded(t.pending()) =~= t.postfix());
        },
        Tree::Not(x) => {
            lemma_pending_completes(*x);
            lemma_unloaded_concat(seq![Operator::Not], x.pending_under(4));
            lemma_unloaded_one(Operator::Not);
            assert(x.emitted_under(4) + unloaded(x.pending_under(4)) == x.postfix());
            assert(t.emitted() + unloaded(t.pending()) =~= (x.emitted_under(4) + unloaded(
                x.pending_under(4),
            )) + seq![Symbol::Operator(Operator::Not)]);
            assert(t.emitted() + unloaded(t.pending()) =~= t.postfix());
        },
        _ => {
            assert(unloaded(t.pending()) =~= Seq::<Symbol>::empty());
            assert(t.emitted() + unloaded(t.pending()) =~= t.postfix());
        },
    }
    assert forall|p: u8| #[trigger] t.emitted_under(p) + unloaded(t.pending_under(p)) == t.postfix() by {
        if t.precedence() < p {
            assert(unloaded(t.pending_under(p)) =~= Seq::<Symbol>::empty());
            assert(t.emitted_under(p) + unloaded(t.pending_under(p)) =~= t.postfix());
        }
    }
}

/// Reading the symbols `a` and then `b` is reading `a + b`.
pub proof fn lemma_operands_step(tokens: Seq<Symbol>, s: Symbol)
    ensures
        operands(tokens.push(s)) == (match operands(tokens) {
            Some(stack) => reduce(stack, s),
            None => None,
        }),
{
    assert(tokens.push(s).drop_last() =~= tokens);
}

/// The postfix form of a tree builds the tree: behind any symbols that
/// leave a stack of operands, it leaves the tree on top of that stack.
pub proof fn lemma_postfix_builds(t: Tree, before: Seq<Symbol>, stack: Seq<Tree>)
    requires
        t.well_formed(),
        operands(before) == Some(stack),
    ensures
        operands(before + t.postfix()) == Some(stack.push(t)),
    decreases t,
{
    match t {
        Tree::Binary(o, l, r) => {
            lemma_postfix_builds(*l, before, stack);
            lemma_postfix_builds(*r, before + l.postfix(), stack.push(*l));
            let both = before + l.postfix() + r.postfix();
            lemma_operands_step(both, Symbol::Operator(o));
            assert(before + t.postfix() =~= both.push(Symbol::Operator(o)));
            let full = stack.push(*l).push(*r);
            assert(full.take(full.len() - 2) =~= stack);
        },
        Tree::Not(x) => {
            lemma_postfix_builds(*x, before, stack);
            lemma_operands_step(before + x.postfix(), Symbol::Operator(Operator::Not));
            assert(before + t.postfix() =~= (before + x.postfix()).push(
                Symbol::Operator(Operator::Not),
            ));
            assert(stack.push(*x).drop_last() =~= stack);
        },
        Tree::Atom(name) => {
            lemma_operands_step(before, Symbol::Atom(name));
            assert(before + t.postfix() =~= before.push(Symbol::Atom(name)));
        },
        Tree::Value(b) => {
            lemma_operands_step(before, Symbol::Value(b));
            assert(before + t.postfix() =~= before.push(Symbol::Value(b)));
        },
    }
}

/// The builder inverts the postfix form.
pub proof fn lemma_build_postfix(t: Tree)
    requires
        t.well_formed(),
    ensures
        spec_build(t.postfix()) == Ok::<Tree, ParseError>(t),
{
    lemma_postfix_builds(t, Seq::empty(), Seq::empty());
    assert(Seq::<Symbol>::empty() + t.postfix() =~= t.postfix());
}

/// How tightly the parser binds the root of a tree: a connective as the
/// operator table says, negation tighter, a leaf tightest.
pub open spec fn binding(t: Tree) -> u8 {
    match t {
        Tree::Binary(o, _, _) => o.spec_precedence(),
        Tree::Not(_) => 3,
        _ => 4,
    }
}

/// The text that may follow a name: nothing, a space or a closing
/// parenthesis.
pub open spec fn closes(rest: Seq<char>) -> bool {
    rest.len() == 0 || rest[0] == ' ' || rest[0] == ')'
}

/// The top of the stack, if there is one, stays when `o` arrives.
pub open spec fn shielded(ops: Seq<Operator>, o: Operator) -> bool {
    ops.len() == 0 || !yields(ops.last(), o)
}

/// The top of the stack stays while the body of `t` is read.
pub open spec fn shields(ops: Seq<Operator>, t: Tree) -> bool {
    match t {
        Tree::Binary(o, _, _) => shielded(ops, o),
        _ => true,
    }
}

/// What the body of a tree leaves on the stack binds at least as tightly
/// as the root of the tree, and holds no parenthesis marker.
proof fn lemma_pending_binds(t: Tree)
    requires
        t.well_formed(),
    ensures
        forall|i: int|
            0 <= i < t.pending().len() ==> (#[trigger] t.pending()[i]) != Operator::Parenthesis
                && t.pending()[i].spec_precedence() >= binding(t),
    decreases t,
{
    match t {
        Tree::Binary(o, _, r) => {
            lemma_pending_binds(*r);
        },
        Tree::Not(x) => {
            lemma_pending_binds(*x);
        },
        _ => {},
    }
}

/// Operators that all yield to `o`, on top of a stack whose top stays,
/// leave for the output when `o` arrives, and nothing else does.
proof fn lemma_make_room(base: Seq<Operator>, top: Seq<Operator>, out: Seq<Symbol>, o: Operator)
    requires
        shielded(base, o),
        forall|i: int| 0 <= i < top.len() ==> yields(#[trigger] top[i], o),
    ensures
        (Yard { ops: base + top, out }).make_room(o) == (Yard {
            ops: base,
            out: out + unloaded(top),
        }),
    decreases top.len(),
{
    let y = Yard { ops: base + top, out };
    if top.len() == 0 {
        assert(base + top =~= base);
        assert(out + unloaded(top) =~= out);
    } else {
        assert((base + top).last() == top.last());
        assert((base + top).drop_last() =~= base + top.drop_last());
        lemma_make_room(base, top.drop_last(), out.push(Symbol::Operator(top.last())), o);
        assert(out.push(Symbol::Operator(top.last())) + unloaded(top.drop_last()) =~= out
            + unloaded(top));
    }
}

/// Operators on top of a marker leave for the output at the closing
/// parenthesis, and the marker goes.
proof fn lemma_close(base: Seq<Operator>, top: Seq<Operator>, out: Seq<Symbol>)
    requires
        forall|i: int| 0 <= i < top.len() ==> (#[trigger] top[i]) != Operator::Parenthesis,
    ensures
        (Yard { ops: base.push(Operator::Parenthesis) + top, out }).close() == Some(
            Yard { ops: base, out: out + unloaded(top) },
        ),
    decreases top.len(),
{
    let marked = base.push(Operator::Parenthesis);
    if top.len() == 0 {
        assert(marked + top =~= marked);
        assert(marked.drop_last() =~= base);
        assert(out + unloaded(top) =~= out);
    } else {
        assert((marked + top).last() == top.last());
        assert((marked + top).drop_last() =~= marked + top.drop_last());
        lemma_close(base, top.drop_last(), out.push(Symbol::Operator(top.last())));
        assert(out.push(Symbol::Operator(top.last())) + unloaded(top.drop_last()) =~= out
            + unloaded(top));
    }
}

/// Operators without a marker among them all leave for the output at the
/// end of the input.
proof fn lemma_finish(ops: Seq<Operator>, out: Seq<Symbol>)
    requires
        forall|i: int| 0 <= i < ops.len() ==> (#[trigger] ops[i]) != Operator::Parenthesis,
    ensures
        (Yard { ops, out }).finish() == Ok::<Seq<Symbol>, ParseError>(out + unloaded(ops)),
    decreases ops.len(),
{
    if ops.len() == 0 {
        assert(out + unloaded(ops) =~= out);
    } else {
        lemma_finish(ops.drop_last(), out.push(Symbol::Operator(ops.last())));
        assert(out.push(Symbol::Operator(ops.last())) + unloaded(ops.drop_last()) =~= out
            + unloaded(ops));
    }
}

/// A run of letters that is followed by no letter is one word.
proof fn lemma_word_len(w: Seq<char>, rest: Seq<char>)
    requires
        forall|i: int| 0 <= i < w.len() ==> is_letter(#[trigger] w[i]),
        closes(rest),
    ensures
        word_len(w + rest) == w.len(),
    decreases w.len(),
{
    let s = w + rest;
    if w.len() == 0 {
        assert(s =~= rest);
    } else {
        assert(s[0] == w[0]);
        assert(s.skip(1) =~= w.skip(1) + rest);
        assert forall|i: int| 0 <= i < w.skip(1).len() implies is_letter(
            #[trigger] w.skip(1)[i],
        ) by {
            assert(w.skip(1)[i] == w[i + 1]);
        }
        lemma_word_len(w.skip(1), rest);
    }
}

proof fn lemma_scan_space(rest: Seq<char>, y: Yard)
    ensures
        scan(seq![' '] + rest, y) == scan(rest, y),
{
    let s = seq![' '] + rest;
    assert(s[0] == ' ');
    assert(s.skip(1) =~= rest);
}

proof fn lemma_scan_open(rest: Seq<char>, y: Yard)
    ensures
        scan(seq!['('] + rest, y) == scan(rest, y.shift(Operator::Parenthesis)),
{
    let s = seq!['('] + rest;
    assert(s[0] == '(');
    assert(s.skip(1) =~= rest);
}

proof fn lemma_scan_close(rest: Seq<char>, y: Yard)
    ensures
        scan(seq![')'] + rest, y) == (match y.close() {
            Some(closed) => scan(rest, closed),
            None => Err(ParseError::UnbalancedParentheses),
        }),
{
    let s = seq![')'] + rest;
    assert(s[0] == ')');
    assert(s.skip(1) =~= rest);
}

proof fn lemma_scan_not(rest: Seq<char>, y: Yard)
    ensures
        scan(seq!['~'] + rest, y) == scan(rest, y.shift(Operator::Not)),
{
    let s = seq!['~'] + rest;
    assert(s[0] == '~');
    assert(s.skip(1) =~= rest);
    assert(Operator::spec_lexeme(s) == Some((Operator::Not, 1nat)));
    assert(y.make_room(Operator::Not) == y);
}

proof fn lemma_scan_connective(o: Operator, rest: Seq<char>, y: Yard)
    requires
        is_connective(o),
    ensures
        scan(connective_text(o) + rest, y) == scan(rest, y.make_room(o).shift(o)),
{
    let s = connective_text(o) + rest;
    let s1 = s.skip(1);
    assert(s[0] == ' ');
    assert(scan(s, y) == scan(s1, y));
    let n: nat = match o {
        Operator::And => 1,
        Operator::Or => 1,
        Operator::If => 2,
        _ => 3,
    };
    assert(s1[0] == s[1]);
    assert(s1[1] == s[2]);
    if n >= 2 {
        assert(s1[2] == s[3]);
    }
    assert(Operator::spec_lexeme(s1) == Some((o, n)));
    let s2 = s1.skip(n as int);
    assert(s2[0] == ' ');
    assert(scan(s1, y) == scan(s2, y.make_room(o).shift(o)));
    assert(s2.skip(1) =~= rest);
}

proof fn lemma_scan_name(name: Seq<char>, rest: Seq<char>, y: Yard)
    requires
        is_name(name),
        closes(rest),
    ensures
        scan(name + rest, y) == scan(rest, y.emit(Symbol::Atom(name))),
{
    let s = name + rest;
    assert(s[0] == name[0]);
    if is_word(name) && truth_word(name) is None {
        lemma_word_len(name, rest);
        assert(s.take(name.len() as int) =~= name);
        assert(s.skip(name.len() as int) =~= rest);
    } else {
        assert(s.skip(1) =~= rest);
        assert(name =~= seq![s[0]]);
        if rest.len() > 0 {
            assert(s[1] == rest[0]);
        }
        assert(Operator::spec_lexeme(s) is None);
    }
}

proof fn lemma_scan_value(b: bool, rest: Seq<char>, y: Yard)
    requires
        closes(rest),
    ensures
        scan((Tree::Value(b)).body() + rest, y) == scan(rest, y.emit(Symbol::Value(b))),
{
    let w = (Tree::Value(b)).body();
    let s = w + rest;
    assert(s[0] == w[0]);
    lemma_word_len(w, rest);
    assert(s.take(1) =~= w);
    assert(s.skip(1) =~= rest);
    assert(truth_word(w) == Some(b));
}

/// A tree that is written without parentheses below `o` is bound by the
/// parser at least as tightly as `o`.
proof fn lemma_bare_binds(t: Tree, o: Operator)
    requires
        t.well_formed(),
        is_connective(o),
        t.precedence() >= connective_precedence(o),
    ensures
        binding(t) >= o.spec_precedence(),
        shielded(Seq::empty(), o),
        forall|ops: Seq<Operator>| shielded(ops, o) ==> #[trigger] shields(ops, t),
{
}

/// Reading the body of a canonical tree moves the tokenizer from `y` to
/// the state that holds, on top of `y`, what the tree leaves pending and
/// what it has emitted.
proof fn lemma_scan_body(t: Tree, rest: Seq<char>, y: Yard)
    requires
        t.legible(),
        t.canonical(),
        closes(rest),
        shields(y.ops, t),
    ensures
        scan(t.body() + rest, y) == scan(
            rest,
            Yard { ops: y.ops + t.pending(), out: y.out + t.emitted() },
        ),
    decreases t, 0nat,
{
    lemma_legible_well_formed(t);
    match t {
        Tree::Binary(o, l, r) => {
            let p = connective_precedence(o);
            let tail = connective_text(o) + (r.text(p) + rest);
            assert(t.body() + rest =~= l.text(p) + tail);
            assert(tail[0] == ' ');
            if l.precedence() >= p {
                lemma_bare_binds(*l, o);
            }
            lemma_scan_text(*l, p, tail, y);
            let y1 = Yard { ops: y.ops + l.pending_under(p), out: y.out + l.emitted_under(p) };
            lemma_scan_connective(o, r.text(p) + rest, y1);
            assert forall|i: int| 0 <= i < l.pending_under(p).len() implies yields(
                #[trigger] l.pending_under(p)[i],
                o,
            ) by {
                lemma_pending_binds(*l);
                lemma_bare_binds(*l, o);
            }
            lemma_make_room(y.ops, l.pending_under(p), y1.out, o);
            lemma_pending_completes(*l);
            assert(y.out + l.emitted_under(p) + unloaded(l.pending_under(p)) =~= y.out + (
            l.emitted_under(p) + unloaded(l.pending_under(p))));
            let y2 = Yard { ops: y.ops.push(o), out: y.out + l.postfix() };
            assert(y1.make_room(o).shift(o) == y2);
            lemma_scan_text(*r, p, rest, y2);
            assert(y2.ops + r.pending_under(p) =~= y.ops + t.pending());
            assert(y2.out + r.emitted_under(p) =~= y.out + t.emitted());
        },
        Tree::Not(x) => {
            assert(t.body() + rest =~= seq!['~'] + (x.text(4) + rest));
            lemma_scan_not(x.text(4) + rest, y);
            let y1 = y.shift(Operator::Not);
            lemma_scan_text(*x, 4, rest, y1);
            assert(y1.ops + x.pending_under(4) =~= y.ops + t.pending());
            assert(y1.out + x.emitted_under(4) =~= y.out + t.emitted());
        },
        Tree::Atom(name) => {
            lemma_scan_name(name, rest, y);
            assert(y.ops + t.pending() =~= y.ops);
            assert(y.out + t.emitted() =~= y.out.push(Symbol::Atom(name)));
        },
        Tree::Value(b) => {
            lemma_scan_value(b, rest, y);
            assert(y.ops + t.pending() =~= y.ops);
            assert(y.out + t.emitted() =~= y.out.push(Symbol::Value(b)));
        },
    }
}

/// As `lemma_scan_body`, for the text of the tree below a parent: in
/// parentheses the tree leaves nothing pending, whatever is on the stack.
proof fn lemma_scan_text(t: Tree, parent: u8, rest: Seq<char>, y: Yard)
    requires
        t.legible(),
        t.canonical(),
        closes(rest),
        t.precedence() >= parent ==> shields(y.ops, t),
    ensures
        scan(t.text(parent) + rest, y) == scan(
            rest,
            Yard { ops: y.ops + t.pending_under(parent), out: y.out + t.emitted_under(parent) },
        ),
    decreases t, 1nat,
{
    if t.precedence() < parent {
        lemma_legible_well_formed(t);
        let inner = t.body() + (seq![')'] + rest);
        assert(t.text(parent) + rest =~= seq!['('] + inner);
        lemma_scan_open(inner, y);
        let y1 = y.shift(Operator::Parenthesis);
        assert((seq![')'] + rest)[0] == ')');
        lemma_scan_body(t, seq![')'] + rest, y1);
        let y2 = Yard { ops: y1.ops + t.pending(), out: y1.out + t.emitted() };
        lemma_scan_close(rest, y2);
        lemma_pending_binds(t);
        lemma_close(y.ops, t.pending(), y2.out);
        lemma_pending_completes(t);
        assert(y.out + t.emitted() + unloaded(t.pending()) =~= y.out + (t.emitted() + unloaded(
            t.pending(),
        )));
        assert(y.ops + t.pending_under(parent) =~= y.ops);
    } else {
        lemma_scan_body(t, rest, y);
    }
}

/// The tokenizer turns the canonical text of a canonical tree into the
/// postfix form of the tree.
pub proof fn lemma_tokenize_text(t: Tree)
    requires
        t.legible(),
        t.canonical(),
    ensures
        spec_shunting_yard(t.text(0)) == Ok::<Seq<Symbol>, ParseError>(t.postfix()),
{
    let empty = Seq::<char>::empty();
    lemma_legible_well_formed(t);
    lemma_scan_body(t, empty, Yard::start());
    assert(t.text(0) =~= t.body() + empty);
    let y = Yard { ops: Yard::start().ops + t.pending(), out: Yard::start().out + t.emitted() };
    assert(y.ops =~= t.pending());
    assert(y.out =~= t.emitted());
    lemma_pending_binds(t);
    lemma_finish(t.pending(), t.emitted());
    lemma_pending_completes(t);
}

/// The parser reads the canonical text of a tree back as the same tree,
/// provided that the tree is canonical: that no right operand is a chain
/// which the text writes without parentheses.
pub proof fn lemma_parse_text(t: Tree)
    requires
        t.legible(),
        t.canonical(),
    ensures
        spec_parse(t.text(0)) == Ok::<Tree, ParseError>(t),
{
    lemma_tokenize_text(t);
    lemma_legible_well_formed(t);
    lemma_build_postfix(t);
}

impl Tree {
    /// Whether the root is the connective `o`.
    pub open spec fn joins_by(self, o: Operator) -> bool {
        match self {
            Tree::Binary(inner, _, _) => inner == o,
            _ => false,
        }
    }

    /// The first operand of the chain of `o` that the tree is: the tree
    /// itself where its root is not `o`.
    pub open spec fn first_of(self, o: Operator) -> Tree
        decreases self,
    {
        match self {
            Tree::Binary(inner, l, _) => if inner == o {
                l.first_of(o)
            } else {
                self
            },
            _ => self,
        }
    }

    /// `x` joined by `o` to the tree on its right, as the parser groups
    /// the text of the two: a chain of `o` on the right takes `x` in at
    /// its left end.
    pub open spec fn taking_in(self, x: Tree, o: Operator) -> Tree
        decreases self,
    {
        match self {
            Tree::Binary(inner, l, r) => if inner == o {
                Tree::Binary(o, Box::new(l.taking_in(x, o)), r)
            } else {
                Tree::Binary(o, Box::new(x), Box::new(self))
            },
            _ => Tree::Binary(o, Box::new(x), Box::new(self)),
        }
    }

    /// The tree with every chain of one connective grouped to the left.
    /// It has the same text as the tree.
    pub open spec fn regrouped(self) -> Tree
        decreases self,
    {
        match self {
            Tree::Binary(o, l, r) => r.regrouped().taking_in(l.regrouped(), o),
            Tree::Not(x) => Tree::Not(Box::new(x.regrouped())),
            _ => self,
        }
    }

    /// Regrouping the tree to the left keeps its meaning: no implication
    /// has an implication as its right operand, and no chain of
    /// equivalences that is a right operand of an equivalence begins with
    /// an implication. Conjunction, disjunction and equivalence may be
    /// chained in any shape.
    pub open spec fn stable(self) -> bool
        decreases self,
    {
        match self {
            Tree::Binary(o, l, r) => {
                &&& l.stable()
                &&& r.stable()
                &&& o == Operator::If ==> !r.joins_by(Operator::If)
                &&& o == Operator::Iff ==> !r.first_of(Operator::Iff).joins_by(Operator::If)
            },
            Tree::Not(x) => x.stable(),
            _ => true,
        }
    }
}

/// Taking in an operand on the left does not change the text.
proof fn lemma_taking_in_text(r: Tree, x: Tree, o: Operator, parent: u8)
    ensures
        r.taking_in(x, o).text(parent) == (Tree::Binary(o, Box::new(x), Box::new(r))).text(parent),
        r.taking_in(x, o).joins_by(o),
    decreases r,
{
    let p = connective_precedence(o);
    let joined = Tree::Binary(o, Box::new(x), Box::new(r));
    match r {
        Tree::Binary(inner, rl, rr) => {
            if inner == o {
                lemma_taking_in_text(*rl, x, o, p);
                let inside = Tree::Binary(o, Box::new(x), rl);
                assert(inside.text(p) == inside.body());
                assert(r.text(p) == r.body());
                assert(r.taking_in(x, o).body() =~= joined.body());
            }
        },
        _ => {},
    }
}

/// Regrouping does not change the text, nor the kind of the root.
pub proof fn lemma_regrouped_text(t: Tree, parent: u8)
    ensures
        t.regrouped().text(parent) == t.text(parent),
        t.regrouped().precedence() == t.precedence(),
        forall|o: Operator| t.regrouped().joins_by(o) == t.joins_by(o),
    decreases t,
{
    match t {
        Tree::Binary(o, l, r) => {
            let p = connective_precedence(o);
            lemma_regrouped_text(*l, p);
            lemma_regrouped_text(*r, p);
            lemma_taking_in_text(r.regrouped(), l.regrouped(), o, parent);
            let joined = Tree::Binary(o, Box::new(l.regrouped()), Box::new(r.regrouped()));
            assert(joined.body() == t.body());
        },
        Tree::Not(x) => {
            lemma_regrouped_text(*x, 4);
        },
        _ => {},
    }
}

/// Taking in an operand keeps the meaning under every connective but
/// implication, which alone is not associative.
proof fn lemma_taking_in_eval(r: Tree, x: Tree, o: Operator, env: Map<Seq<char>, bool>)
    requires
        o != Operator::If || !r.joins_by(Operator::If),
    ensures
        r.taking_in(x, o).eval(env) == (Tree::Binary(o, Box::new(x), Box::new(r))).eval(env),
    decreases r,
{
    match r {
        Tree::Binary(inner, rl, rr) => {
            if inner == o {
                lemma_taking_in_eval(*rl, x, o, env);
                let inside = Tree::Binary(o, Box::new(x), rl);
                let joined = Tree::Binary(o, Box::new(x), Box::new(r));
                let taken = Tree::Binary(o, Box::new(rl.taking_in(x, o)), rr);
                assert(inside.eval(env) == match (x.eval(env), rl.eval(env)) {
                    (Some(a), Some(b)) => Some(connect(o, a, b)),
                    _ => None,
                });
                assert(r.eval(env) == match (rl.eval(env), rr.eval(env)) {
                    (Some(a), Some(b)) => Some(connect(o, a, b)),
                    _ => None,
                });
                assert(joined.eval(env) == match (x.eval(env), r.eval(env)) {
                    (Some(a), Some(b)) => Some(connect(o, a, b)),
                    _ => None,
                });
                assert(taken.eval(env) == match (rl.taking_in(x, o).eval(env), rr.eval(env)) {
                    (Some(a), Some(b)) => Some(connect(o, a, b)),
                    _ => None,
                });
                assert(r.taking_in(x, o) == taken);
            }
        },
        _ => {},
    }
}

/// Regrouping a stable tree keeps its meaning.
pub proof fn lemma_regrouped_eval(t: Tree, env: Map<Seq<char>, bool>)
    requires
        t.stable(),
    ensures
        t.regrouped().eval(env) == t.eval(env),
    decreases t,
{
    match t {
        Tree::Binary(o, l, r) => {
            lemma_regrouped_eval(*l, env);
            lemma_regrouped_eval(*r, env);
            lemma_regrouped_text(*r, 0);
            lemma_taking_in_eval(r.regrouped(), l.regrouped(), o, env);
        },
        Tree::Not(x) => {
            lemma_regrouped_eval(*x, env);
        },
        _ => {},
    }
}

proof fn lemma_taking_in_legible(r: Tree, x: Tree, o: Operator)
    requires
        r.legible(),
        x.legible(),
        is_connective(o),
    ensures
        r.taking_in(x, o).legible(),
    decreases r,
{
    match r {
        Tree::Binary(inner, rl, rr) => {
            if inner == o {
                lemma_taking_in_legible(*rl, x, o);
            }
        },
        _ => {},
    }
}

/// Regrouping keeps the names.
pub proof fn lemma_regrouped_legible(t: Tree)
    requires
        t.legible(),
    ensures
        t.regrouped().legible(),
    decreases t,
{
    match t {
        Tree::Binary(o, l, r) => {
            lemma_regrouped_legible(*l);
            lemma_regrouped_legible(*r);
            lemma_taking_in_legible(r.regrouped(), l.regrouped(), o);
        },
        Tree::Not(x) => {
            lemma_regrouped_legible(*x);
        },
        _ => {},
    }
}

/// A chain that has taken in an operand begins where that operand begins.
proof fn lemma_taking_in_first(r: Tree, x: Tree, o: Operator)
    ensures
        r.taking_in(x, o).first_of(o) == x.first_of(o),
    decreases r,
{
    match r {
        Tree::Binary(inner, rl, rr) => {
            if inner == o {
                lemma_taking_in_first(*rl, x, o);
            }
        },
        _ => {},
    }
}

/// Regrouping keeps the kind of the operand that a chain begins with.
proof fn lemma_regrouped_first(t: Tree, o: Operator, inner: Operator)
    ensures
        t.regrouped().first_of(o).joins_by(inner) == t.first_of(o).joins_by(inner),
    decreases t,
{
    lemma_regrouped_text(t, 0);
    match t {
        Tree::Binary(own, l, r) => {
            if own == o {
                lemma_taking_in_first(r.regrouped(), l.regrouped(), o);
                lemma_regrouped_first(*l, o, inner);
            }
        },
        _ => {},
    }
}

proof fn lemma_taking_in_canonical(r: Tree, x: Tree, o: Operator)
    requires
        r.canonical(),
        x.canonical(),
        !r.first_of(o).regroups_under(o),
    ensures
        r.taking_in(x, o).canonical(),
    decreases r,
{
    match r {
        Tree::Binary(inner, rl, rr) => {
            if inner == o {
                lemma_taking_in_canonical(*rl, x, o);
            }
        },
        _ => {},
    }
}

/// The regrouped form of a stable tree is canonical.
pub proof fn lemma_regrouped_canonical(t: Tree)
    requires
        t.stable(),
    ensures
        t.regrouped().canonical(),
    decreases t,
{
    match t {
        Tree::Binary(o, l, r) => {
            lemma_regrouped_canonical(*l);
            lemma_regrouped_canonical(*r);
            lemma_regrouped_first(*r, o, Operator::If);
            lemma_regrouped_first(*r, o, o);
            assert(!r.first_of(o).joins_by(o)) by {
                lemma_first_of_ends(*r, o);
            }
            lemma_taking_in_canonical(r.regrouped(), l.regrouped(), o);
        },
        Tree::Not(x) => {
            lemma_regrouped_canonical(*x);
        },
        _ => {},
    }
}

/// The first operand of a chain of `o` is not itself joined by `o`.
proof fn lemma_first_of_ends(t: Tree, o: Operator)
    ensures
        !t.first_of(o).joins_by(o),
    decreases t,
{
    match t {
        Tree::Binary(inner, l, _) => {
            if inner == o {
                lemma_first_of_ends(*l, o);
            }
        },
        _ => {},
    }
}

/// The parser reads the canonical text of a tree back as the tree with its
/// chains grouped to the left, provided that this regrouped tree is
/// canonical: that no chain of equivalences goes on with an implication.
pub proof fn lemma_parse_text_regroups(t: Tree)
    requires
        t.legible(),
        t.regrouped().canonical(),
    ensures
        spec_parse(t.text(0)) == Ok::<Tree, ParseError>(t.regrouped()),
{
    lemma_regrouped_text(t, 0);
    lemma_regrouped_legible(t);
    lemma_parse_text(t.regrouped());
}

/// Every tree that the parser builds is legible.
pub proof fn lemma_parse_legible(s: Seq<char>)
    ensures
        spec_parse(s) is Ok ==> (spec_parse(s)->Ok_0).legible(),
{
    lemma_tokens_are_postfix(s);
    if spec_shunting_yard(s) is Ok {
        lemma_operands_legible(spec_shunting_yard(s)->Ok_0);
    }
}

/// Printing a formula that the parser has built and parsing the text again
/// gives a formula with the same value under every assignment, provided
/// that the formula is stable. The second formula is the first with its
/// chains grouped to the left.
pub proof fn lemma_round_trip(s: Seq<char>, t: Tree, env: Map<Seq<char>, bool>)
    requires
        spec_parse(s) == Ok::<Tree, ParseError>(t),
        t.stable(),
    ensures
        spec_parse(t.text(0)) == Ok::<Tree, ParseError>(t.regrouped()),
        t.regrouped().eval(env) == t.eval(env),
{
    lemma_parse_legible(s);
    lemma_regrouped_canonical(t);
    lemma_parse_text_regroups(t);
    lemma_regrouped_eval(t, env);
}

} // verus!
