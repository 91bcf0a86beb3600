//! Small general lemmas about sequences.

use vstd::prelude::*;

verus! {

/// Membership in a pushed sequence: the new element, or an old member.
pub proof fn lemma_push_contains<A>(s: Seq<A>, x: A, y: A)
    ensures
        s.push(x).contains(y) <==> s.contains(y) || y == x,
{
    if s.push(x).contains(y) {
        let i = choose|i: int| 0 <= i < s.push(x).len() && s.push(x)[i] == y;
        if i < s.len() {
            assert(s[i] == y);
        }
    }
    if s.contains(y) {
        let i = choose|i: int| 0 <= i < s.len() && s[i] == y;
        assert(s.push(x)[i] == y);
    }
    if y == x {
        assert(s.push(x)[s.len() as int] == y);
    }
}

/// Membership in a pushed sequence, for every element at once.
pub proof fn lemma_push_contains_all<A>(s: Seq<A>, x: A)
    ensures
        forall|y: A| #[trigger] s.push(x).contains(y) <==> s.contains(y) || y == x,
{
    assert forall|y: A| #[trigger] s.push(x).contains(y) <==> s.contains(y) || y == x by {
        lemma_push_contains(s, x, y);
    }
}

/// Pushing a fresh element keeps a sequence duplicate-free.
pub proof fn lemma_push_nodup<A>(s: Seq<A>, x: A)
    requires
        s.no_duplicates(),
        !s.contains(x),
    ensures
        s.push(x).no_duplicates(),
{
    let t = s.push(x);
    assert forall|i: int, j: int|
        0 <= i < t.len() && 0 <= j < t.len() && i != j implies t[i] != t[j] by {
        if i < s.len() && j < s.len() {
        } else if j == s.len() {
            assert(t[i] == s[i]);
            assert(s.contains(s[i]));
        } else {
            assert(t[j] == s[j]);
            assert(s.contains(s[j]));
        }
    }
}

/// How many of the first `upto` entries are false.
pub open spec fn count_false_upto(s: Seq<bool>, upto: int) -> nat
    decreases upto,
{
    if upto <= 0 {
        0
    } else {
        count_false_upto(s, upto - 1) + (if !s[upto - 1] {
            1nat
        } else {
            0nat
        })
    }
}

/// How many entries are false.
pub open spec fn count_false(s: Seq<bool>) -> nat {
    count_false_upto(s, s.len() as int)
}

/// How many entries are true.
pub open spec fn count_true(s: Seq<bool>) -> nat {
    (s.len() - count_false(s)) as nat
}

/// Setting a false entry to true lowers the false count by exactly one;
/// setting a true one changes nothing.
pub proof fn lemma_count_false_set_true(s: Seq<bool>, i: int, upto: int)
    requires
        0 <= i < s.len(),
        upto <= s.len(),
    ensures
        count_false_upto(s, upto) == count_false_upto(s.update(i, true), upto) + (if i < upto
            && !s[i] {
            1nat
        } else {
            0nat
        }),
    decreases upto,
{
    if upto > 0 {
        lemma_count_false_set_true(s, i, upto - 1);
    }
}

} // verus!
