//! Facts about sequences that hold lists without repeats.

use vstd::prelude::*;

verus! {

/// What a sequence holds after one more element is pushed.
pub proof fn lemma_push_contains<A>(s: Seq<A>, x: A)
    ensures
        forall|y: A| #[trigger] s.push(x).contains(y) <==> (s.contains(y) || y == x),
{
    assert forall|y: A| #[trigger] s.push(x).contains(y) <==> (s.contains(y) || y == x) by {
        if s.contains(y) {
            let i = choose|i: int| 0 <= i < s.len() && s[i] == y;
            assert(s.push(x)[i] == y);
        }
        if y == x {
            assert(s.push(x)[s.len() as int] == y);
        }
        if s.push(x).contains(y) {
            let i = choose|i: int| 0 <= i < s.push(x).len() && s.push(x)[i] == y;
            if i < s.len() {
                assert(s[i] == y);
            }
        }
    }
}

/// Pushing an element that is not there keeps a sequence free of repeats.
pub proof fn lemma_push_no_duplicates<A>(s: Seq<A>, x: A)
    requires
        s.no_duplicates(),
        !s.contains(x),
    ensures
        s.push(x).no_duplicates(),
{
    let t = s.push(x);
    assert forall|i: int, j: int| 0 <= i < t.len() && 0 <= j < t.len() && i != j implies t[i]
        != t[j] by {
        if i < s.len() && j < s.len() {
        } else if i < s.len() {
            assert(s[i] == t[i]);
        } else {
            assert(s[j] == t[j]);
        }
    }
}

/// What a concatenation holds.
pub proof fn lemma_concat_contains<A>(s: Seq<A>, t: Seq<A>)
    ensures
        forall|y: A| #[trigger] (s + t).contains(y) <==> (s.contains(y) || t.contains(y)),
{
    assert forall|y: A| #[trigger] (s + t).contains(y) <==> (s.contains(y) || t.contains(y)) by {
        if s.contains(y) {
            let i = choose|i: int| 0 <= i < s.len() && s[i] == y;
            assert((s + t)[i] == y);
        }
        if t.contains(y) {
            let i = choose|i: int| 0 <= i < t.len() && t[i] == y;
            assert((s + t)[s.len() + i] == y);
        }
        if (s + t).contains(y) {
            let i = choose|i: int| 0 <= i < (s + t).len() && (s + t)[i] == y;
            if i < s.len() {
                assert(s[i] == y);
            } else {
                assert(t[i - s.len()] == y);
            }
        }
    }
}

/// A sequence without repeats is no longer than a sequence that holds all
/// its elements.
pub proof fn lemma_no_longer_than_cover<A>(s: Seq<A>, cover: Seq<A>)
    requires
        s.no_duplicates(),
        forall|y: A| s.contains(y) ==> cover.contains(y),
    ensures
        s.len() <= cover.len(),
{
    s.unique_seq_to_set();
    cover.lemma_cardinality_of_set();
    vstd::seq_lib::seq_to_set_is_finite(cover);
    assert(s.to_set().subset_of(cover.to_set()));
    vstd::set_lib::lemma_len_subset(s.to_set(), cover.to_set());
}

/// Removing one element of a sequence without repeats takes away that
/// element and nothing else.
pub proof fn lemma_remove_contains<A>(s: Seq<A>, i: int)
    requires
        s.no_duplicates(),
        0 <= i < s.len(),
    ensures
        s.remove(i).no_duplicates(),
        forall|y: A| #[trigger] s.remove(i).contains(y) <==> (s.contains(y) && y != s[i]),
{
    let t = s.remove(i);
    assert forall|a: int, b: int| 0 <= a < t.len() && 0 <= b < t.len() && a != b implies t[a]
        != t[b] by {
        let a0 = if a < i { a } else { a + 1 };
        let b0 = if b < i { b } else { b + 1 };
        assert(t[a] == s[a0] && t[b] == s[b0]);
    }
    assert forall|y: A| #[trigger] t.contains(y) <==> (s.contains(y) && y != s[i]) by {
        if t.contains(y) {
            let a = choose|a: int| 0 <= a < t.len() && t[a] == y;
            let a0 = if a < i { a } else { a + 1 };
            assert(s[a0] == y);
        }
        if s.contains(y) && y != s[i] {
            let a0 = choose|a: int| 0 <= a < s.len() && s[a] == y;
            let a = if a0 < i { a0 } else { a0 - 1 };
            assert(t[a] == y);
        }
    }
}

/// A sequence without repeats is no longer than two sequences that hold
/// all its elements between them.
pub proof fn lemma_no_longer_than_two_covers<A>(s: Seq<A>, first: Seq<A>, second: Seq<A>)
    requires
        s.no_duplicates(),
        forall|y: A| s.contains(y) ==> first.contains(y) || second.contains(y),
    ensures
        s.len() <= first.len() + second.len(),
{
    lemma_concat_contains(first, second);
    lemma_no_longer_than_cover(s, first + second);
}

} // verus!
