//! Lists of variable names, kept in ascending lexicographic order and
//! therefore free of duplicates.

use vstd::prelude::*;
use crate::text::to_chars;

verus! {

/// Strict lexicographic order on texts, character by character: a proper
/// prefix comes first, and otherwise the first difference decides.
pub open spec fn precedes(a: Seq<char>, b: Seq<char>) -> bool
    decreases a.len(),
{
    if b.len() == 0 {
        false
    } else if a.len() == 0 {
        true
    } else if a[0] != b[0] {
        a[0] < b[0]
    } else {
        precedes(a.skip(1), b.skip(1))
    }
}

/// The names are in strictly ascending order.
pub open spec fn ascending(names: Seq<String>) -> bool {
    forall|i: int, j: int| 0 <= i < j < names.len() ==> precedes(#[trigger] names[i]@, #[trigger] names[j]@)
}

/// The set of the names in a list.
pub open spec fn name_set(names: Seq<String>) -> Set<Seq<char>> {
    Set::new(|n: Seq<char>| exists|i: int| 0 <= i < names.len() && #[trigger] names[i]@ == n)
}

/// No text comes before itself.
pub proof fn lemma_precedes_irreflexive(a: Seq<char>)
    ensures
        !precedes(a, a),
    decreases a.len(),
{
    if a.len() > 0 {
        lemma_precedes_irreflexive(a.skip(1));
    }
}

/// An ascending list holds each name once.
pub proof fn lemma_ascending_distinct(names: Seq<String>, i: int, j: int)
    requires
        ascending(names),
        0 <= i < names.len(),
        0 <= j < names.len(),
        i != j,
    ensures
        names[i]@ != names[j]@,
{
    lemma_precedes_irreflexive(names[i]@);
    if i < j {
        assert(precedes(names[i]@, names[j]@));
    } else {
        assert(precedes(names[j]@, names[i]@));
    }
}

/// What comes before a text comes before everything behind that text.
pub proof fn lemma_precedes_transitive(a: Seq<char>, b: Seq<char>, c: Seq<char>)
    requires
        precedes(a, b),
        precedes(b, c),
    ensures
        precedes(a, c),
    decreases a.len(),
{
    if a.len() > 0 && a[0] == b[0] && b[0] == c[0] {
        lemma_precedes_transitive(a.skip(1), b.skip(1), c.skip(1));
    }
}

/// Of two different texts one comes before the other.
pub proof fn lemma_precedes_total(a: Seq<char>, b: Seq<char>)
    ensures
        a == b || precedes(a, b) || precedes(b, a),
    decreases a.len(),
{
    if a.len() > 0 && b.len() > 0 && a[0] == b[0] {
        lemma_precedes_total(a.skip(1), b.skip(1));
        if a.skip(1) == b.skip(1) {
            assert(a =~= seq![a[0]] + a.skip(1));
            assert(b =~= seq![b[0]] + b.skip(1));
        }
    } else if a.len() == 0 && b.len() == 0 {
        assert(a =~= b);
    }
}

/// Whether `a` comes strictly before `b` in lexicographic order.
pub fn comes_before(a: &str, b: &str) -> (r: bool)
    ensures
        r == precedes(a@, b@),
{
    let x = to_chars(a);
    let y = to_chars(b);
    let mut i: usize = 0;
    assert(x@.skip(0) =~= x@ && y@.skip(0) =~= y@);
    while i < x.len() && i < y.len()
        invariant
            i <= x@.len(),
            i <= y@.len(),
            x@ == a@,
            y@ == b@,
            precedes(x@.skip(i as int), y@.skip(i as int)) == precedes(x@, y@),
        decreases x@.len() - i,
    {
        proof {
            assert(x@.skip(i as int)[0] == x@[i as int]);
            assert(y@.skip(i as int)[0] == y@[i as int]);
            assert(x@.skip(i as int).skip(1) =~= x@.skip(i + 1));
            assert(y@.skip(i as int).skip(1) =~= y@.skip(i + 1));
        }
        if x[i] != y[i] {
            let before = x[i] < y[i];
            assert(x@.skip(i as int).len() > 0 && y@.skip(i as int).len() > 0);
            assert(precedes(x@.skip(i as int), y@.skip(i as int)) == before);
            return before;
        }
        i = i + 1;
    }
    i < y.len()
}

/// Adds `name` to the list, unless the name found at its place is `name`
/// already. An ascending list stays ascending, and so holds each name once.
pub fn insert_name(names: &mut Vec<String>, name: &String)
    ensures
        name_set(final(names)@) == name_set(old(names)@).insert(name@),
        ascending(old(names)@) ==> ascending(final(names)@),
{
    let mut i: usize = 0;
    while i < names.len() && comes_before(names[i].as_str(), name.as_str())
        invariant
            i <= names@.len(),
            names@ == old(names)@,
            forall|j: int| 0 <= j < i ==> precedes(#[trigger] names@[j]@, name@),
        decreases names@.len() - i,
    {
        i = i + 1;
    }
    if i < names.len() && names[i] == *name {
        assert(name_set(names@) =~= name_set(old(names)@).insert(name@));
        return ;
    }
    let ghost before = names@;
    names.insert(i, name.clone());
    proof {
        let after = names@;
        assert forall|p: int, q: int| ascending(before) && 0 <= p < q < after.len() implies precedes(
            #[trigger] after[p]@,
            #[trigger] after[q]@,
        ) by {
            if i < before.len() {
                lemma_precedes_total(name@, before[i as int]@);
            }
            if p == i {
                assert(after[q] == before[q - 1]);
                if q - 1 > i {
                    lemma_precedes_transitive(name@, before[i as int]@, before[q - 1]@);
                }
            } else if q == i {
                assert(after[p] == before[p]);
            } else {
                let from_p = if p < i { p } else { p - 1 };
                let from_q = if q < i { q } else { q - 1 };
                assert(after[p] == before[from_p] && after[q] == before[from_q]);
            }
        }
        assert forall|n: Seq<char>| name_set(after).contains(n) <==> name_set(before).insert(
            name@,
        ).contains(n) by {
            if name_set(after).contains(n) {
                let k = choose|k: int| 0 <= k < after.len() && #[trigger] after[k]@ == n;
                if k != i {
                    let k0 = if k < i { k } else { k - 1 };
                    assert(after[k] == before[k0]);
                }
            }
            if name_set(before).contains(n) {
                let k = choose|k: int| 0 <= k < before.len() && #[trigger] before[k]@ == n;
                let k1 = if k < i { k } else { k + 1 };
                assert(after[k1] == before[k]);
            }
            if n == name@ {
                assert(after[i as int]@ == n);
            }
        }
        assert(name_set(after) =~= name_set(before).insert(name@));
    }
}

} // verus!
