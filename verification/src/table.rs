//! Truth tables: every assignment to the variables of some formulas, with
//! the value of each formula under it.

use std::collections::HashMap;
use vstd::prelude::*;
use crate::formula::{bind, bindings, empty_assignment, Formula};
use crate::names::{ascending, insert_name, name_set};

verus! {

/// Two to the power `n`.
pub open spec fn pow2(n: nat) -> nat
    decreases n,
{
    if n == 0 {
        1
    } else {
        2 * pow2((n - 1) as nat)
    }
}

/// The number that a row of truth values spells in binary, the first
/// value being the most significant bit and `true` being one.
pub open spec fn row_number(values: Seq<bool>) -> nat
    decreases values.len(),
{
    if values.len() == 0 {
        0
    } else {
        2 * row_number(values.drop_last()) + if values.last() {
            1nat
        } else {
            0nat
        }
    }
}

/// The assignment that gives each name the value at its position.
pub open spec fn assignment(names: Seq<String>, values: Seq<bool>) -> Map<Seq<char>, bool>
    decreases names.len(),
{
    if names.len() == 0 || values.len() == 0 {
        Map::empty()
    } else {
        assignment(names.drop_last(), values.drop_last()).insert(names.last()@, values.last())
    }
}

/// The names of the variables of all the formulas together.
pub open spec fn all_atoms(formulas: Seq<Formula>) -> Set<Seq<char>> {
    Set::new(
        |n: Seq<char>|
            exists|f: int| 0 <= f < formulas.len() && (#[trigger] formulas[f]).tree().atoms().contains(n),
    )
}

/// One line of a truth table.
#[derive(Debug)]
pub struct Row {
    /// The value of each variable, in the order of the table's variables.
    pub values: Vec<bool>,
    /// The value of each formula, in the order of the table's formulas;
    /// `None` where the formula is undefined under the assignment.
    pub results: Vec<Option<bool>>,
}

/// A truth table over the variables of one or more formulas.
#[derive(Debug)]
pub struct TruthTable {
    /// The variables of all the formulas, each once, in ascending order.
    pub variables: Vec<String>,
    /// The canonical text of each formula.
    pub headers: Vec<String>,
    /// One row for each assignment, the all-true assignment first.
    pub rows: Vec<Row>,
}

impl TruthTable {
    /// The table is the truth table of `formulas`: its variables are theirs,
    /// row `k` of its `2^n` rows spells the number `2^n - 1 - k`, and each
    /// result is the value of its formula under the row's assignment.
    pub open spec fn tabulates(&self, formulas: Seq<Formula>) -> bool {
        &&& ascending(self.variables@)
        &&& name_set(self.variables@) == all_atoms(formulas)
        &&& self.headers@.len() == formulas.len()
        &&& forall|f: int|
            0 <= f < formulas.len() ==> (#[trigger] self.headers@[f])@ == formulas[f].tree().text(0)
        &&& self.rows@.len() == pow2(self.variables@.len())
        &&& forall|k: int|
            0 <= k < self.rows@.len() ==> (#[trigger] self.rows@[k]).describes(
                self.variables@,
                formulas,
                (pow2(self.variables@.len()) - 1 - k) as nat,
            )
    }
}

impl Row {
    /// The row gives one value to each of `names`, spells `number`, and
    /// holds the value of each of `formulas` under that assignment.
    pub open spec fn describes(&self, names: Seq<String>, formulas: Seq<Formula>, number: nat) -> bool {
        &&& self.values@.len() == names.len()
        &&& row_number(self.values@) == number
        &&& self.results@.len() == formulas.len()
        &&& forall|f: int|
            0 <= f < formulas.len() ==> #[trigger] self.results@[f] == formulas[f].tree().eval(
                assignment(names, self.values@),
            )
    }
}

/// The mark of a truth value: `T` or `F`.
pub open spec fn value_mark(b: bool) -> Seq<char> {
    if b {
        "T"@
    } else {
        "F"@
    }
}

/// The mark of the value of a formula: `T`, `F`, or `E` where the formula
/// is undefined.
pub open spec fn result_mark(r: Option<bool>) -> Seq<char> {
    match r {
        Some(b) => value_mark(b),
        None => "E"@,
    }
}

/// The texts as cells of one line, each followed by its separator.
pub open spec fn text_cells(texts: Seq<String>) -> Seq<char>
    decreases texts.len(),
{
    if texts.len() == 0 {
        Seq::empty()
    } else {
        text_cells(texts.drop_last()) + texts.last()@ + " | "@
    }
}

/// The truth values as cells of one line.
pub open spec fn value_cells(values: Seq<bool>) -> Seq<char>
    decreases values.len(),
{
    if values.len() == 0 {
        Seq::empty()
    } else {
        value_cells(values.drop_last()) + value_mark(values.last()) + " | "@
    }
}

/// The values of the formulas as cells of one line.
pub open spec fn result_cells(results: Seq<Option<bool>>) -> Seq<char>
    decreases results.len(),
{
    if results.len() == 0 {
        Seq::empty()
    } else {
        result_cells(results.drop_last()) + result_mark(results.last()) + " | "@
    }
}

/// The line below the header, for `n` centred columns.
pub open spec fn rule_cells(n: nat) -> Seq<char>
    decreases n,
{
    if n == 0 {
        Seq::empty()
    } else {
        rule_cells((n - 1) as nat) + ":-:|"@
    }
}

/// The lines of the rows, one after the other.
pub open spec fn rows_text(rows: Seq<Row>) -> Seq<char>
    decreases rows.len(),
{
    if rows.len() == 0 {
        Seq::empty()
    } else {
        rows_text(rows.drop_last()) + rows.last().text()
    }
}

impl Row {
    /// The line of the row: its values and then its results.
    pub open spec fn text(&self) -> Seq<char> {
        "| "@ + value_cells(self.values@) + result_cells(self.results@) + "\n"@
    }

    /// Appends the line of the row to `out`.
    pub fn render(&self, out: &mut String)
        ensures
            final(out)@ == old(out)@ + self.text(),
    {
        out.append("| ");
        let ghost start = out@;
        let mut i: usize = 0;
        assert(out@ =~= start + value_cells(self.values@.take(0)));
        while i < self.values.len()
            invariant
                i <= self.values@.len(),
                out@ == start + value_cells(self.values@.take(i as int)),
            decreases self.values@.len() - i,
        {
            assert(self.values@.take(i + 1).drop_last() =~= self.values@.take(i as int));
            let ghost before = out@;
            out.append(if self.values[i] { "T" } else { "F" });
            out.append(" | ");
            assert(out@ =~= start + value_cells(self.values@.take(i + 1)));
            i = i + 1;
        }
        assert(self.values@.take(i as int) =~= self.values@);
        let ghost middle = out@;
        let mut j: usize = 0;
        assert(out@ =~= middle + result_cells(self.results@.take(0)));
        while j < self.results.len()
            invariant
                j <= self.results@.len(),
                out@ == middle + result_cells(self.results@.take(j as int)),
            decreases self.results@.len() - j,
        {
            assert(self.results@.take(j + 1).drop_last() =~= self.results@.take(j as int));
            let mark = match self.results[j] {
                Some(true) => "T",
                Some(false) => "F",
                None => "E",
            };
            out.append(mark);
            out.append(" | ");
            assert(out@ =~= middle + result_cells(self.results@.take(j + 1)));
            j = j + 1;
        }
        assert(self.results@.take(j as int) =~= self.results@);
        out.append("\n");
        assert(out@ =~= old(out)@ + self.text());
    }
}

/// Appends each of `texts` to `out` as a cell.
fn render_cells(texts: &Vec<String>, out: &mut String)
    ensures
        final(out)@ == old(out)@ + text_cells(texts@),
{
    let mut i: usize = 0;
    assert(out@ =~= old(out)@ + text_cells(texts@.take(0)));
    while i < texts.len()
        invariant
            i <= texts@.len(),
            out@ == old(out)@ + text_cells(texts@.take(i as int)),
        decreases texts@.len() - i,
    {
        assert(texts@.take(i + 1).drop_last() =~= texts@.take(i as int));
        out.append(texts[i].as_str());
        out.append(" | ");
        assert(out@ =~= old(out)@ + text_cells(texts@.take(i + 1)));
        i = i + 1;
    }
    assert(texts@.take(i as int) =~= texts@);
}

impl TruthTable {
    /// The table as a grid of text: a header line with the variables and
    /// the formulas, a rule, one line for each row, and a legend.
    pub open spec fn text(&self) -> Seq<char> {
        "| "@ + text_cells(self.variables@) + text_cells(self.headers@) + "\n"@ + "|"@
            + rule_cells(self.variables@.len() + self.headers@.len()) + "\n"@ + rows_text(
            self.rows@,
        ) + "\nT: True, F: False, E: Error (undefined variable)\n"@
    }

    /// The table as a grid of text.
    pub fn render(&self) -> (out: String)
        ensures
            out@ == self.text(),
    {
        let mut out = String::new();
        out.append("| ");
        render_cells(&self.variables, &mut out);
        render_cells(&self.headers, &mut out);
        out.append("\n");
        out.append("|");
        let ghost start = out@;
        let columns = self.variables.len();
        let mut c: usize = 0;
        assert(out@ =~= start + rule_cells(0));
        while c < columns
            invariant
                c <= columns,
                out@ == start + rule_cells(c as nat),
            decreases columns - c,
        {
            out.append(":-:|");
            assert(out@ =~= start + rule_cells((c + 1) as nat));
            c = c + 1;
        }
        let others = self.headers.len();
        let mut d: usize = 0;
        while d < others
            invariant
                d <= others,
                out@ == start + rule_cells((columns + d) as nat),
            decreases others - d,
        {
            out.append(":-:|");
            assert(out@ =~= start + rule_cells((columns + d + 1) as nat));
            d = d + 1;
        }
        out.append("\n");
        let ghost head = out@;
        let mut k: usize = 0;
        assert(out@ =~= head + rows_text(self.rows@.take(0)));
        while k < self.rows.len()
            invariant
                k <= self.rows@.len(),
                out@ == head + rows_text(self.rows@.take(k as int)),
            decreases self.rows@.len() - k,
        {
            assert(self.rows@.take(k + 1).drop_last() =~= self.rows@.take(k as int));
            self.rows[k].render(&mut out);
            assert(out@ =~= head + rows_text(self.rows@.take(k + 1)));
            k = k + 1;
        }
        assert(self.rows@.take(k as int) =~= self.rows@);
        out.append("\nT: True, F: False, E: Error (undefined variable)\n");
        assert(out@ =~= self.text());
        out
    }
}

/// A power of two is at least one.
pub proof fn lemma_pow2_positive(n: nat)
    ensures
        pow2(n) >= 1,
    decreases n,
{
    if n > 0 {
        lemma_pow2_positive((n - 1) as nat);
    }
}

/// A row of `false` alone spells zero.
pub proof fn lemma_all_false_is_zero(values: Seq<bool>)
    requires
        forall|i: int| 0 <= i < values.len() ==> !values[i],
    ensures
        row_number(values) == 0,
    decreases values.len(),
{
    if values.len() > 0 {
        lemma_all_false_is_zero(values.drop_last());
    }
}

/// A row of `true` alone spells the largest number of its length.
pub proof fn lemma_all_true_is_last(values: Seq<bool>)
    requires
        forall|i: int| 0 <= i < values.len() ==> values[i],
    ensures
        row_number(values) == pow2(values.len()) - 1,
    decreases values.len(),
{
    if values.len() > 0 {
        lemma_all_true_is_last(values.drop_last());
    }
}

/// The number of a row is below two to the power of its length.
pub proof fn lemma_row_number_bound(values: Seq<bool>)
    ensures
        row_number(values) < pow2(values.len()),
    decreases values.len(),
{
    if values.len() > 0 {
        lemma_row_number_bound(values.drop_last());
    }
}

/// The bits of the front count as many times more as the back is long.
pub proof fn lemma_row_number_concat(a: Seq<bool>, b: Seq<bool>)
    ensures
        row_number(a + b) == row_number(a) * pow2(b.len()) + row_number(b),
    decreases b.len(),
{
    if b.len() == 0 {
        assert(a + b =~= a);
        assert(pow2(b.len()) == 1);
        assert(row_number(b) == 0);
    } else {
        assert((a + b).drop_last() =~= a + b.drop_last());
        lemma_row_number_concat(a, b.drop_last());
        let x = row_number(a) as int;
        let p = pow2((b.len() - 1) as nat) as int;
        let y = row_number(b.drop_last()) as int;
        assert(2 * (x * p + y) == x * (2 * p) + 2 * y) by (nonlinear_arith);
        assert((a + b).last() == b.last());
        assert(pow2(b.len()) == 2 * p);
        assert(row_number(a + b.drop_last()) == x * p + y);
        let bit = if b.last() { 1int } else { 0int };
        assert(row_number(a + b) == 2 * (x * p + y) + bit);
        assert(row_number(b) == 2 * y + bit);
        assert(row_number(a) * pow2(b.len()) == x * (2 * p));
    }
}

/// Turns a row into the row of the next smaller number. Returns `false`,
/// with nothing promised of the row, where the row spells zero.
fn step_down(values: &mut Vec<bool>) -> (more: bool)
    ensures
        final(values)@.len() == old(values)@.len(),
        more == (row_number(old(values)@) > 0),
        more ==> row_number(final(values)@) == row_number(old(values)@) - 1,
{
    let n = values.len();
    let mut j = n;
    while j > 0 && !values[j - 1]
        invariant
            j <= n,
            values@.len() == n,
            old(values)@.len() == n,
            forall|k: int| j <= k < n ==> values@[k] && !old(values)@[k],
            forall|k: int| 0 <= k < j ==> values@[k] == old(values)@[k],
        decreases j,
    {
        values.set(j - 1, true);
        j = j - 1;
    }
    if j == 0 {
        proof {
            lemma_all_false_is_zero(old(values)@);
        }
        return false;
    }
    values.set(j - 1, false);
    proof {
        let front = old(values)@.take(j - 1);
        let was = front.push(true) + old(values)@.skip(j as int);
        let now = front.push(false) + values@.skip(j as int);
        assert(old(values)@ =~= was);
        assert(values@ =~= now);
        lemma_row_number_concat(front.push(true), old(values)@.skip(j as int));
        lemma_row_number_concat(front.push(false), values@.skip(j as int));
        lemma_all_false_is_zero(old(values)@.skip(j as int));
        lemma_all_true_is_last(values@.skip(j as int));
        assert(front.push(true).drop_last() =~= front);
        assert(front.push(false).drop_last() =~= front);
        let x = row_number(front) as int;
        let p = pow2((n - j) as nat) as int;
        lemma_pow2_positive((n - j) as nat);
        assert((2 * x + 1) * p - 1 == (2 * x) * p + p - 1) by (nonlinear_arith);
        assert((2 * x + 1) * p >= 1) by (nonlinear_arith)
            requires
                x >= 0,
                p >= 1,
        ;
    }
    true
}

/// The variables of all the formulas, each once, in ascending order.
pub fn union_variables(formulas: &[Formula]) -> (variables: Vec<String>)
    ensures
        ascending(variables@),
        name_set(variables@) == all_atoms(formulas@),
{
    let mut variables: Vec<String> = Vec::new();
    let mut f: usize = 0;
    assert(name_set(variables@) =~= all_atoms(formulas@.take(0)));
    while f < formulas.len()
        invariant
            f <= formulas@.len(),
            ascending(variables@),
            name_set(variables@) == all_atoms(formulas@.take(f as int)),
        decreases formulas@.len() - f,
    {
        let own = formulas[f].variables();
        let ghost before = name_set(variables@);
        let mut j: usize = 0;
        assert(name_set(variables@) =~= before.union(name_set(own@.take(0))));
        while j < own.len()
            invariant
                j <= own@.len(),
                ascending(variables@),
                name_set(variables@) == before.union(name_set(own@.take(j as int))),
            decreases own@.len() - j,
        {
            insert_name(&mut variables, &own[j]);
            proof {
                let seen = own@.take(j as int);
                let next = own@.take(j + 1);
                assert(next =~= seen.push(own@[j as int]));
                assert forall|n: Seq<char>| name_set(next).contains(n) <==> name_set(seen).insert(
                    own@[j as int]@,
                ).contains(n) by {
                    if name_set(next).contains(n) {
                        let k = choose|k: int| 0 <= k < next.len() && #[trigger] next[k]@ == n;
                        if k < j {
                            assert(seen[k]@ == n);
                        }
                    }
                    if name_set(seen).contains(n) {
                        let k = choose|k: int| 0 <= k < seen.len() && #[trigger] seen[k]@ == n;
                        assert(next[k]@ == n);
                    }
                    if n == own@[j as int]@ {
                        assert(next[j as int]@ == n);
                    }
                }
                assert(name_set(variables@) =~= before.union(name_set(next)));
            }
            j = j + 1;
        }
        proof {
            assert(own@.take(own@.len() as int) =~= own@);
            let done = formulas@.take(f as int);
            let next = formulas@.take(f + 1);
            assert forall|n: Seq<char>| all_atoms(next).contains(n) <==> all_atoms(done).union(
                formulas@[f as int].tree().atoms(),
            ).contains(n) by {
                if all_atoms(next).contains(n) {
                    let k = choose|k: int|
                        0 <= k < next.len() && (#[trigger] next[k]).tree().atoms().contains(n);
                    if k < f {
                        assert(done[k].tree().atoms().contains(n));
                    }
                }
                if all_atoms(done).contains(n) {
                    let k = choose|k: int|
                        0 <= k < done.len() && (#[trigger] done[k]).tree().atoms().contains(n);
                    assert(next[k].tree().atoms().contains(n));
                }
                if formulas@[f as int].tree().atoms().contains(n) {
                    assert(next[f as int].tree().atoms().contains(n));
                }
            }
            assert(name_set(variables@) =~= all_atoms(next));
        }
        f = f + 1;
    }
    assert(formulas@.take(formulas@.len() as int) =~= formulas@);
    variables
}

/// The assignment that gives each of `names` the value at its position in
/// `values`.
fn row_assignment(names: &Vec<String>, values: &Vec<bool>) -> (vars: HashMap<String, bool>)
    requires
        names@.len() == values@.len(),
    ensures
        bindings(vars) == assignment(names@, values@),
{
    let mut vars = empty_assignment();
    let mut j: usize = 0;
    while j < names.len()
        invariant
            j <= names@.len(),
            names@.len() == values@.len(),
            bindings(vars) == assignment(names@.take(j as int), values@.take(j as int)),
        decreases names@.len() - j,
    {
        proof {
            assert(names@.take(j + 1).drop_last() =~= names@.take(j as int));
            assert(values@.take(j + 1).drop_last() =~= values@.take(j as int));
        }
        bind(&mut vars, names[j].clone(), values[j]);
        j = j + 1;
    }
    proof {
        assert(names@.take(names@.len() as int) =~= names@);
        assert(values@.take(values@.len() as int) =~= values@);
    }
    vars
}

/// The truth table of `formulas` over the variables of all of them.
///
/// The rows run from the assignment that makes every variable true down to
/// the one that makes every variable false; the first variable is the most
/// significant.
pub fn truth_table(formulas: &[Formula]) -> (table: TruthTable)
    ensures
        table.tabulates(formulas@),
{
    let variables = union_variables(formulas);
    let n = variables.len();
    let mut headers: Vec<String> = Vec::new();
    let mut f: usize = 0;
    while f < formulas.len()
        invariant
            f <= formulas@.len(),
            headers@.len() == f,
            forall|g: int| 0 <= g < f ==> (#[trigger] headers@[g])@ == formulas@[g].tree().text(0),
        decreases formulas@.len() - f,
    {
        headers.push(formulas[f].to_string());
        f = f + 1;
    }
    let mut values: Vec<bool> = Vec::new();
    while values.len() < n
        invariant
            values@.len() <= n,
            forall|i: int| 0 <= i < values@.len() ==> values@[i],
        decreases n - values@.len(),
    {
        values.push(true);
    }
    proof {
        lemma_all_true_is_last(values@);
    }
    let mut rows: Vec<Row> = Vec::new();
    let mut more = true;
    while more
        invariant
            n == variables@.len(),
            values@.len() == n,
            more ==> rows@.len() == pow2(n as nat) - 1 - row_number(values@),
            !more ==> rows@.len() == pow2(n as nat),
            forall|k: int|
                0 <= k < rows@.len() ==> (#[trigger] rows@[k]).describes(
                    variables@,
                    formulas@,
                    (pow2(n as nat) - 1 - k) as nat,
                ),
        decreases
                (if more {
                    row_number(values@) + 1
                } else {
                    0
                }),
    {
        let vars = row_assignment(&variables, &values);
        let mut results: Vec<Option<bool>> = Vec::new();
        let mut g: usize = 0;
        while g < formulas.len()
            invariant
                g <= formulas@.len(),
                results@.len() == g,
                bindings(vars) == assignment(variables@, values@),
                forall|h: int|
                    0 <= h < g ==> #[trigger] results@[h] == formulas@[h].tree().eval(
                        assignment(variables@, values@),
                    ),
            decreases formulas@.len() - g,
        {
            results.push(formulas[g].eval(&vars));
            g = g + 1;
        }
        let mut copy: Vec<bool> = Vec::new();
        let mut i: usize = 0;
        while i < values.len()
            invariant
                i <= values@.len(),
                copy@ == values@.take(i as int),
            decreases values@.len() - i,
        {
            copy.push(values[i]);
            assert(values@.take(i + 1) =~= values@.take(i as int).push(values@[i as int]));
            i = i + 1;
        }
        proof {
            assert(values@.take(values@.len() as int) =~= values@);
            lemma_row_number_bound(values@);
        }
        let row = Row { values: copy, results };
        assert(row.describes(variables@, formulas@, (pow2(n as nat) - 1 - rows@.len()) as nat));
        rows.push(row);
        more = step_down(&mut values);
    }
    TruthTable { variables, headers, rows }
}

} // verus!
