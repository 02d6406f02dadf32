//! The tokenizer: a single left-to-right scan that turns infix text into a
//! postfix token sequence with the shunting-yard algorithm.

use vstd::prelude::*;
use crate::error::ParseError;
use crate::operator::{Associativity, Operator};
use crate::text::{is_letter, is_space, letter, push_char, space, to_chars};

verus! {

/// One item of the postfix stream.
#[derive(Debug, Eq, PartialEq)]
pub enum Token {
    Operator(Operator),
    Atom(String),
    Value(bool),
}

/// What a `Token` stands for: the same item with its name as a sequence of
/// characters.
pub enum Symbol {
    Operator(Operator),
    Atom(Seq<char>),
    Value(bool),
}

impl View for Token {
    type V = Symbol;

    open spec fn view(&self) -> Symbol {
        match self {
            Token::Operator(o) => Symbol::Operator(*o),
            Token::Atom(name) => Symbol::Atom(name@),
            Token::Value(b) => Symbol::Value(*b),
        }
    }
}

/// The symbols that a sequence of tokens stands for.
pub open spec fn symbols(tokens: Seq<Token>) -> Seq<Symbol> {
    tokens.map_values(|t: Token| t@)
}

/// The state of the scan: the operator stack, top last, and the postfix
/// output so far.
pub struct Yard {
    pub ops: Seq<Operator>,
    pub out: Seq<Symbol>,
}

impl Yard {
    /// The state before the first character: nothing on the stack, nothing
    /// in the output.
    pub open spec fn start() -> Yard {
        Yard { ops: Seq::empty(), out: Seq::empty() }
    }

    /// Appends an operand to the output.
    pub open spec fn emit(self, s: Symbol) -> Yard {
        Yard { ops: self.ops, out: self.out.push(s) }
    }

    /// Pushes an operator or the parenthesis marker.
    pub open spec fn shift(self, o: Operator) -> Yard {
        Yard { ops: self.ops.push(o), out: self.out }
    }

    /// Moves the top of the stack to the output.
    pub open spec fn unload(self) -> Yard {
        Yard { ops: self.ops.drop_last(), out: self.out.push(Symbol::Operator(self.ops.last())) }
    }

    /// The stack after every operator that yields to the incoming `o` has
    /// been moved to the output.
    pub open spec fn make_room(self, o: Operator) -> Yard
        decreases self.ops.len(),
    {
        if self.ops.len() > 0 && yields(self.ops.last(), o) {
            self.unload().make_room(o)
        } else {
            self
        }
    }

    /// The state after a `)`: everything above the nearest marker moved to
    /// the output and the marker dropped, or `None` where there is no marker.
    pub open spec fn close(self) -> Option<Yard>
        decreases self.ops.len(),
    {
        if self.ops.len() == 0 {
            None
        } else if self.ops.last() == Operator::Parenthesis {
            Some(Yard { ops: self.ops.drop_last(), out: self.out })
        } else {
            self.unload().close()
        }
    }

    /// The output at the end of the input: the remaining operators follow in
    /// the order in which they leave the stack. A marker that is still on
    /// the stack was never closed.
    pub open spec fn finish(self) -> Result<Seq<Symbol>, ParseError>
        decreases self.ops.len(),
    {
        if self.ops.len() == 0 {
            Ok(self.out)
        } else if self.ops.last() == Operator::Parenthesis {
            Err(ParseError::UnbalancedParentheses)
        } else {
            self.unload().finish()
        }
    }
}

/// Whether `top`, on the stack, leaves for the output when `incoming`
/// arrives: it binds tighter, or equally tight while `incoming` groups to
/// the left. The parenthesis marker never yields.
pub open spec fn yields(top: Operator, incoming: Operator) -> bool {
    top != Operator::Parenthesis && (top.spec_precedence() > incoming.spec_precedence() || (
        top.spec_precedence() == incoming.spec_precedence() && incoming.spec_associativity()
            == Associativity::Left))
}

/// The length of the run of letters at the front of `s`.
pub open spec fn word_len(s: Seq<char>) -> nat
    decreases s.len(),
{
    if s.len() > 0 && is_letter(s[0]) {
        1 + word_len(s.skip(1))
    } else {
        0
    }
}

/// Whether `c` is the letter given in lower and upper case.
pub open spec fn is_either(c: char, lower: char, upper: char) -> bool {
    c == lower || c == upper
}

/// The constant that a word spells, without regard to case: `true` or `t`,
/// `false` or `f`.
pub open spec fn truth_word(w: Seq<char>) -> Option<bool> {
    if w.len() == 1 && is_either(w[0], 't', 'T') {
        Some(true)
    } else if w.len() == 4 && is_either(w[0], 't', 'T') && is_either(w[1], 'r', 'R')
        && is_either(w[2], 'u', 'U') && is_either(w[3], 'e', 'E') {
        Some(true)
    } else if w.len() == 1 && is_either(w[0], 'f', 'F') {
        Some(false)
    } else if w.len() == 5 && is_either(w[0], 'f', 'F') && is_either(w[1], 'a', 'A')
        && is_either(w[2], 'l', 'L') && is_either(w[3], 's', 'S') && is_either(w[4], 'e', 'E') {
        Some(false)
    } else {
        None
    }
}

/// A word is a constant where it spells one, and a variable otherwise.
pub open spec fn word_symbol(w: Seq<char>) -> Symbol {
    match truth_word(w) {
        Some(b) => Symbol::Value(b),
        None => Symbol::Atom(w),
    }
}

/// A word at the front of a text is no longer than the text, and is not
/// empty where the text starts with a letter.
pub proof fn lemma_word_len_bound(s: Seq<char>)
    ensures
        word_len(s) <= s.len(),
        s.len() > 0 && is_letter(s[0]) ==> word_len(s) >= 1,
    decreases s.len(),
{
    if s.len() > 0 && is_letter(s[0]) {
        lemma_word_len_bound(s.skip(1));
    }
}

/// The postfix output of scanning `s` from the state `y`.
///
/// Whitespace is skipped. `(` pushes the marker and `)` closes it. A run of
/// letters is one word. An operator lexeme first makes room on the stack and
/// is then pushed. Any other character is a variable named by itself.
pub open spec fn scan(s: Seq<char>, y: Yard) -> Result<Seq<Symbol>, ParseError>
    decreases s.len(),
    via scan_decreases
{
    if s.len() == 0 {
        y.finish()
    } else if is_space(s[0]) {
        scan(s.skip(1), y)
    } else if s[0] == '(' {
        scan(s.skip(1), y.shift(Operator::Parenthesis))
    } else if s[0] == ')' {
        match y.close() {
            Some(closed) => scan(s.skip(1), closed),
            None => Err(ParseError::UnbalancedParentheses),
        }
    } else if is_letter(s[0]) {
        let n = word_len(s);
        scan(s.skip(n as int), y.emit(word_symbol(s.take(n as int))))
    } else {
        match Operator::spec_lexeme(s) {
            Some((o, n)) => scan(s.skip(n as int), y.make_room(o).shift(o)),
            None => scan(s.skip(1), y.emit(Symbol::Atom(seq![s[0]]))),
        }
    }
}

#[via_fn]
proof fn scan_decreases(s: Seq<char>, y: Yard) {
    lemma_word_len_bound(s);
}

/// The postfix token sequence of the infix text `s`, or the fault that its
/// parentheses show.
pub open spec fn spec_shunting_yard(s: Seq<char>) -> Result<Seq<Symbol>, ParseError> {
    scan(s, Yard::start())
}

/// A word: one letter or more, and nothing else.
pub open spec fn is_word(w: Seq<char>) -> bool {
    w.len() > 0 && forall|i: int| 0 <= i < w.len() ==> is_letter(#[trigger] w[i])
}

/// A character that is a variable by itself: no letter, no whitespace, no
/// parenthesis and none of the characters that always start an operator.
pub open spec fn is_symbol(c: char) -> bool {
    !is_letter(c) && !is_space(c) && c != '(' && c != ')' && c != '&' && c != '|' && c != '~' && c
        != '!'
}

/// The names that the tokenizer gives to variables: a word that spells no
/// constant, or a single symbol.
pub open spec fn is_name(name: Seq<char>) -> bool {
    (is_word(name) && truth_word(name) is None) || (name.len() == 1 && is_symbol(name[0]))
}

/// A symbol of a postfix sequence: a variable with a name that the
/// tokenizer gives, a constant, or an operator other than the marker.
pub open spec fn is_postfix_symbol(s: Symbol) -> bool {
    match s {
        Symbol::Atom(name) => is_name(name),
        Symbol::Value(_) => true,
        Symbol::Operator(o) => o != Operator::Parenthesis,
    }
}

/// Every symbol of the sequence is one of a postfix sequence.
pub open spec fn all_postfix(out: Seq<Symbol>) -> bool {
    forall|i: int| 0 <= i < out.len() ==> is_postfix_symbol(#[trigger] out[i])
}

proof fn lemma_make_room_postfix(y: Yard, o: Operator)
    requires
        all_postfix(y.out),
    ensures
        all_postfix(y.make_room(o).out),
    decreases y.ops.len(),
{
    if y.ops.len() > 0 && yields(y.ops.last(), o) {
        lemma_make_room_postfix(y.unload(), o);
    }
}

proof fn lemma_close_postfix(y: Yard)
    requires
        all_postfix(y.out),
    ensures
        y.close() is Some ==> all_postfix(y.close()->Some_0.out),
    decreases y.ops.len(),
{
    if y.ops.len() > 0 && y.ops.last() != Operator::Parenthesis {
        lemma_close_postfix(y.unload());
    }
}

proof fn lemma_finish_postfix(y: Yard)
    requires
        all_postfix(y.out),
    ensures
        y.finish() is Ok ==> all_postfix(y.finish()->Ok_0),
    decreases y.ops.len(),
{
    if y.ops.len() > 0 && y.ops.last() != Operator::Parenthesis {
        lemma_finish_postfix(y.unload());
    }
}

proof fn lemma_word_letters(s: Seq<char>)
    ensures
        forall|i: int| 0 <= i < word_len(s) ==> is_letter(#[trigger] s[i]),
        word_len(s) <= s.len(),
    decreases s.len(),
{
    if s.len() > 0 && is_letter(s[0]) {
        lemma_word_letters(s.skip(1));
        assert forall|i: int| 0 <= i < word_len(s) implies is_letter(#[trigger] s[i]) by {
            if i > 0 {
                assert(s[i] == s.skip(1)[i - 1]);
            }
        }
    }
}

/// The tokenizer adds nothing but postfix symbols to its output.
proof fn lemma_scan_postfix(s: Seq<char>, y: Yard)
    requires
        all_postfix(y.out),
    ensures
        scan(s, y) is Ok ==> all_postfix(scan(s, y)->Ok_0),
    decreases s.len(),
{
    if s.len() == 0 {
        lemma_finish_postfix(y);
    } else if is_space(s[0]) {
        lemma_scan_postfix(s.skip(1), y);
    } else if s[0] == '(' {
        lemma_scan_postfix(s.skip(1), y.shift(Operator::Parenthesis));
    } else if s[0] == ')' {
        lemma_close_postfix(y);
        if y.close() is Some {
            lemma_scan_postfix(s.skip(1), y.close()->Some_0);
        }
    } else if is_letter(s[0]) {
        let n = word_len(s);
        lemma_word_letters(s);
        let w = s.take(n as int);
        assert(is_word(w));
        lemma_scan_postfix(s.skip(n as int), y.emit(word_symbol(w)));
    } else {
        match Operator::spec_lexeme(s) {
            Some((o, n)) => {
                lemma_make_room_postfix(y, o);
                lemma_scan_postfix(s.skip(n as int), y.make_room(o).shift(o));
            },
            None => {
                assert(is_name(seq![s[0]]));
                lemma_scan_postfix(s.skip(1), y.emit(Symbol::Atom(seq![s[0]])));
            },
        }
    }
}

/// The output of the tokenizer holds no parenthesis marker, and names no
/// variable but by a word that spells no constant or by a single symbol.
pub proof fn lemma_tokens_are_postfix(s: Seq<char>)
    ensures
        spec_shunting_yard(s) is Ok ==> all_postfix(spec_shunting_yard(s)->Ok_0),
{
    lemma_scan_postfix(s, Yard::start());
}

/// The scan state that an operator stack and an output vector hold.
pub open spec fn yard_of(stack: Seq<Operator>, output: Seq<Token>) -> Yard {
    Yard { ops: stack, out: symbols(output) }
}

proof fn lemma_symbols_push(output: Seq<Token>, t: Token)
    ensures
        symbols(output.push(t)) == symbols(output).push(t@),
{
    assert(symbols(output.push(t)) =~= symbols(output).push(t@));
}

/// Moves to the output every operator that yields to `o`.
fn make_room(stack: &mut Vec<Operator>, output: &mut Vec<Token>, o: Operator)
    ensures
        yard_of(final(stack)@, final(output)@) == yard_of(old(stack)@, old(output)@).make_room(o),
{
    loop
        invariant
            yard_of(stack@, output@).make_room(o) == yard_of(old(stack)@, old(output)@).make_room(
                o,
            ),
        ensures
            yard_of(stack@, output@) == yard_of(old(stack)@, old(output)@).make_room(o),
        decreases stack.len(),
    {
        let n = stack.len();
        if n == 0 {
            break ;
        }
        let top = stack[n - 1];
        if top == Operator::Parenthesis {
            break ;
        }
        if top.precedence() <= o.precedence() && (top.precedence() != o.precedence()
            || o.associativity() == Associativity::Right) {
            break ;
        }
        proof {
            lemma_symbols_push(output@, Token::Operator(top));
        }
        stack.pop();
        output.push(Token::Operator(top));
    }
}

/// Moves to the output everything above the nearest marker and drops the
/// marker. Returns whether there was one.
fn close(stack: &mut Vec<Operator>, output: &mut Vec<Token>) -> (found: bool)
    ensures
        match yard_of(old(stack)@, old(output)@).close() {
            Some(closed) => found && yard_of(final(stack)@, final(output)@) == closed,
            None => !found,
        },
{
    loop
        invariant
            yard_of(stack@, output@).close() == yard_of(old(stack)@, old(output)@).close(),
        decreases stack.len(),
    {
        match stack.pop() {
            None => {
                return false;
            },
            Some(top) => {
                if top == Operator::Parenthesis {
                    return true;
                }
                proof {
                    lemma_symbols_push(output@, Token::Operator(top));
                }
                output.push(Token::Operator(top));
            },
        }
    }
}

/// Moves the remaining operators to the output. Returns whether no marker
/// was left among them.
fn finish(stack: &mut Vec<Operator>, output: &mut Vec<Token>) -> (balanced: bool)
    ensures
        match yard_of(old(stack)@, old(output)@).finish() {
            Ok(out) => balanced && symbols(final(output)@) == out,
            Err(e) => !balanced && e == ParseError::UnbalancedParentheses,
        },
{
    loop
        invariant
            yard_of(stack@, output@).finish() == yard_of(old(stack)@, old(output)@).finish(),
        decreases stack.len(),
    {
        match stack.pop() {
            None => {
                return true;
            },
            Some(top) => {
                if top == Operator::Parenthesis {
                    return false;
                }
                proof {
                    lemma_symbols_push(output@, Token::Operator(top));
                }
                output.push(Token::Operator(top));
            },
        }
    }
}

/// The constant that the word `chars[start..end]` spells, if any.
fn truth_value(chars: &[char], start: usize, end: usize) -> (r: Option<bool>)
    requires
        start <= end <= chars@.len(),
    ensures
        r == truth_word(chars@.subrange(start as int, end as int)),
{
    let ghost w = chars@.subrange(start as int, end as int);
    let n = end - start;
    assert(forall|k: int| 0 <= k < n ==> w[k] == chars@[start + k]);
    if n == 1 && either(chars[start], 't', 'T') {
        Some(true)
    } else if n == 4 && either(chars[start], 't', 'T') && either(chars[start + 1], 'r', 'R')
        && either(chars[start + 2], 'u', 'U') && either(chars[start + 3], 'e', 'E') {
        Some(true)
    } else if n == 1 && either(chars[start], 'f', 'F') {
        Some(false)
    } else if n == 5 && either(chars[start], 'f', 'F') && either(chars[start + 1], 'a', 'A')
        && either(chars[start + 2], 'l', 'L') && either(chars[start + 3], 's', 'S')
        && either(chars[start + 4], 'e', 'E') {
        Some(false)
    } else {
        None
    }
}

fn either(c: char, lower: char, upper: char) -> (r: bool)
    ensures
        r == is_either(c, lower, upper),
{
    c == lower || c == upper
}

/// Reads the word that starts at `chars[start]`. Returns its text and the
/// position just behind it.
fn read_word(chars: &[char], start: usize) -> (r: (String, usize))
    requires
        start < chars@.len(),
        is_letter(chars@[start as int]),
    ensures
        start < r.1 <= chars@.len(),
        r.1 - start == word_len(chars@.skip(start as int)),
        r.0@ == chars@.subrange(start as int, r.1 as int),
{
    let mut word = String::new();
    let mut end = start;
    while end < chars.len() && letter(chars[end])
        invariant
            start <= end <= chars@.len(),
            word@ == chars@.subrange(start as int, end as int),
            word_len(chars@.skip(start as int)) == (end - start) + word_len(
                chars@.skip(end as int),
            ),
        decreases chars@.len() - end,
    {
        proof {
            let rest = chars@.skip(end as int);
            assert(rest[0] == chars@[end as int]);
            assert(rest.skip(1) =~= chars@.skip(end + 1));
            assert(chars@.subrange(start as int, end + 1) =~= chars@.subrange(
                start as int,
                end as int,
            ).push(chars@[end as int]));
        }
        push_char(&mut word, chars[end]);
        end = end + 1;
    }
    proof {
        let rest = chars@.skip(end as int);
        if end < chars@.len() {
            assert(rest[0] == chars@[end as int]);
        }
        assert(word_len(rest) == 0);
        let first = chars@.skip(start as int);
        assert(first[0] == chars@[start as int]);
        assert(word_len(first) >= 1);
    }
    (word, end)
}

/// Tokenizes the infix text `input` into postfix order, parentheses
/// resolved away.
///
/// Fails exactly where the parentheses do not balance: a `)` with no open
/// `(` before it, or a `(` still open at the end.
pub fn shunting_yard(input: &str) -> (r: Result<Vec<Token>, ParseError>)
    ensures
        match r {
            Ok(tokens) => spec_shunting_yard(input@) == Ok::<Seq<Symbol>, ParseError>(
                symbols(tokens@),
            ) && all_postfix(symbols(tokens@)),
            Err(e) => spec_shunting_yard(input@) == Err::<Seq<Symbol>, ParseError>(e) && e
                == ParseError::UnbalancedParentheses,
        },
{
    proof {
        lemma_tokens_are_postfix(input@);
    }
    let chars = to_chars(input);
    let mut output: Vec<Token> = Vec::new();
    let mut stack: Vec<Operator> = Vec::new();
    let mut pos: usize = 0;
    assert(chars@.skip(0) =~= input@);
    assert(symbols(output@) =~= Seq::<Symbol>::empty());
    while pos < chars.len()
        invariant
            pos <= chars@.len(),
            chars@ == input@,
            scan(chars@.skip(pos as int), yard_of(stack@, output@)) == spec_shunting_yard(input@),
        decreases chars@.len() - pos,
    {
        let c = chars[pos];
        let ghost rest = chars@.skip(pos as int);
        let ghost y = yard_of(stack@, output@);
        assert(rest[0] == c);
        assert(rest.skip(1) =~= chars@.skip(pos + 1));
        if space(c) {
            pos = pos + 1;
        } else if c == '(' {
            stack.push(Operator::Parenthesis);
            pos = pos + 1;
        } else if c == ')' {
            if !close(&mut stack, &mut output) {
                return Err(ParseError::UnbalancedParentheses);
            }
            pos = pos + 1;
        } else if letter(c) {
            let (word, end) = read_word(chars.as_slice(), pos);
            let token = match truth_value(chars.as_slice(), pos, end) {
                Some(b) => Token::Value(b),
                None => Token::Atom(word),
            };
            proof {
                assert(rest.take(end - pos) =~= chars@.subrange(pos as int, end as int));
                assert(rest.skip(end - pos) =~= chars@.skip(end as int));
                assert(token@ == word_symbol(rest.take(end - pos)));
                lemma_symbols_push(output@, token);
            }
            output.push(token);
            pos = end;
        } else {
            match Operator::from_peekable(chars.as_slice(), pos) {
                Some((o, next)) => {
                    make_room(&mut stack, &mut output, o);
                    stack.push(o);
                    proof {
                        assert(rest.skip(next - pos) =~= chars@.skip(next as int));
                    }
                    pos = next;
                },
                None => {
                    let mut name = String::new();
                    push_char(&mut name, c);
                    let token = Token::Atom(name);
                    proof {
                        assert(name@ =~= seq![c]);
                        lemma_symbols_push(output@, token);
                    }
                    output.push(token);
                    pos = pos + 1;
                },
            }
        }
    }
    assert(chars@.skip(pos as int).len() == 0);
    if finish(&mut stack, &mut output) {
        Ok(output)
    } else {
        Err(ParseError::UnbalancedParentheses)
    }
}

} // verus!
