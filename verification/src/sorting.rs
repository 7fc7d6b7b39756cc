//! Stable insertion sort, specified as a recursive function on sequences.
//!
//! The ordering is a caller-supplied total preorder `ord`, where `ord(a, b)`
//! says that `a` may stand before `b`. [`insert_ord`] places a new element
//! behind every existing element it is tied with, and [`sort_ord`] inserts
//! the elements in their original order, so the sort is stable: elements the
//! ordering cannot distinguish keep their relative order.

use vstd::prelude::*;

verus! {

/// `ord` can compare any two elements, one way or the other.
pub open spec fn ord_total<T>(ord: spec_fn(T, T) -> bool) -> bool {
    forall|a: T, b: T| #[trigger] ord(a, b) || #[trigger] ord(b, a)
}

/// `ord` chains: whatever may stand before `b` may stand before anything
/// `b` may stand before.
pub open spec fn ord_transitive<T>(ord: spec_fn(T, T) -> bool) -> bool {
    forall|a: T, b: T, c: T| #[trigger] ord(a, b) && #[trigger] ord(b, c) ==> ord(a, c)
}

/// Every pair of positions in `s`, not only adjacent ones, respects `ord`.
pub open spec fn pairwise_ord<T>(ord: spec_fn(T, T) -> bool, s: Seq<T>) -> bool {
    forall|i: int, j: int| 0 <= i < j < s.len() ==> ord(#[trigger] s[i], #[trigger] s[j])
}

/// `x` inserted behind the longest prefix of `s` whose elements may all
/// stand before it. Ties keep the existing element first, which is what
/// makes the sort stable.
pub open spec fn insert_ord<T>(ord: spec_fn(T, T) -> bool, x: T, s: Seq<T>) -> Seq<T>
    decreases s.len(),
{
    if s.len() == 0 {
        seq![x]
    } else if ord(s[0], x) {
        seq![s[0]] + insert_ord(ord, x, s.drop_first())
    } else {
        seq![x] + s
    }
}

/// The elements of `s`, inserted one after another in their original order.
pub open spec fn sort_ord<T>(ord: spec_fn(T, T) -> bool, s: Seq<T>) -> Seq<T>
    decreases s.len(),
{
    if s.len() == 0 {
        Seq::<T>::empty()
    } else {
        insert_ord(ord, s.last(), sort_ord(ord, s.drop_last()))
    }
}

/// Inserting adds exactly one element.
pub proof fn lemma_insert_ord_len<T>(ord: spec_fn(T, T) -> bool, x: T, s: Seq<T>)
    ensures
        insert_ord(ord, x, s).len() == s.len() + 1,
    decreases s.len(),
{
    if s.len() > 0 && ord(s[0], x) {
        lemma_insert_ord_len(ord, x, s.drop_first());
    }
}

/// Sorting keeps the length.
pub proof fn lemma_sort_ord_len<T>(ord: spec_fn(T, T) -> bool, s: Seq<T>)
    ensures
        sort_ord(ord, s).len() == s.len(),
    decreases s.len(),
{
    if s.len() > 0 {
        lemma_sort_ord_len(ord, s.drop_last());
        lemma_insert_ord_len(ord, s.last(), sort_ord(ord, s.drop_last()));
    }
}

/// Inserting at the split point: if every element before position `k` may
/// stand before `x` and the element at `k` (if any) may not, then inserting
/// `x` places it exactly at position `k`.
pub proof fn lemma_insert_ord_split<T>(ord: spec_fn(T, T) -> bool, x: T, s: Seq<T>, k: int)
    requires
        0 <= k <= s.len(),
        forall|j: int| 0 <= j < k ==> ord(#[trigger] s[j], x),
        k < s.len() ==> !ord(s[k], x),
    ensures
        insert_ord(ord, x, s) == s.subrange(0, k) + seq![x] + s.subrange(k, s.len() as int),
    decreases s.len(),
{
    if s.len() == 0 {
        assert(insert_ord(ord, x, s) =~= s.subrange(0, 0) + seq![x] + s.subrange(0, 0));
    } else if k == 0 {
        assert(!ord(s[0], x));
        assert(insert_ord(ord, x, s) =~= s.subrange(0, 0) + seq![x] + s.subrange(
            0,
            s.len() as int,
        ));
    } else {
        assert(ord(s[0], x));
        let rest = s.drop_first();
        assert(forall|j: int| 0 <= j < k - 1 ==> ord(#[trigger] rest[j], x));
        lemma_insert_ord_split(ord, x, rest, k - 1);
        assert(seq![s[0]] + (rest.subrange(0, k - 1) + seq![x] + rest.subrange(
            k - 1,
            rest.len() as int,
        )) =~= s.subrange(0, k) + seq![x] + s.subrange(k, s.len() as int));
    }
}

/// Every element of the inserted sequence is `x` or one of the originals.
pub proof fn lemma_insert_ord_elems<T>(ord: spec_fn(T, T) -> bool, x: T, s: Seq<T>)
    ensures
        forall|i: int|
            0 <= i < insert_ord(ord, x, s).len() ==> insert_ord(ord, x, s)[i] == x || s.contains(
                insert_ord(ord, x, s)[i],
            ),
    decreases s.len(),
{
    if s.len() > 0 && ord(s[0], x) {
        lemma_insert_ord_elems(ord, x, s.drop_first());
        assert forall|i: int| 0 <= i < insert_ord(ord, x, s).len() implies insert_ord(ord, x, s)[i]
            == x || s.contains(insert_ord(ord, x, s)[i]) by {
            if i > 0 {
                let rest = s.drop_first();
                let e = insert_ord(ord, x, rest)[i - 1];
                assert(insert_ord(ord, x, s)[i] == e);
                if e != x {
                    let w = choose|w: int| 0 <= w < rest.len() && rest[w] == e;
                    assert(s[w + 1] == e);
                }
            }
        }
    }
}

/// Inserting into a sorted sequence keeps it sorted.
pub proof fn lemma_insert_ord_sorted<T>(ord: spec_fn(T, T) -> bool, x: T, s: Seq<T>)
    requires
        ord_total(ord),
        ord_transitive(ord),
        pairwise_ord(ord, s),
    ensures
        pairwise_ord(ord, insert_ord(ord, x, s)),
    decreases s.len(),
{
    if s.len() == 0 {
    } else if ord(s[0], x) {
        let rest = s.drop_first();
        assert(pairwise_ord(ord, rest)) by {
            assert(forall|i: int, j: int|
                0 <= i < j < rest.len() ==> ord(#[trigger] rest[i], #[trigger] rest[j]));
        }
        lemma_insert_ord_sorted(ord, x, rest);
        lemma_insert_ord_elems(ord, x, rest);
        let t = insert_ord(ord, x, s);
        let ti = insert_ord(ord, x, rest);
        assert forall|i: int, j: int| 0 <= i < j < t.len() implies ord(
            #[trigger] t[i],
            #[trigger] t[j],
        ) by {
            if i == 0 {
                let e = ti[j - 1];
                assert(t[j] == e);
                if e == x {
                    assert(ord(s[0], x));
                } else {
                    let w = choose|w: int| 0 <= w < rest.len() && rest[w] == e;
                    assert(s[w + 1] == e);
                    assert(ord(s[0], s[w + 1]));
                }
            } else {
                assert(t[i] == ti[i - 1] && t[j] == ti[j - 1]);
            }
        }
    } else {
        assert(ord(x, s[0]));
        let t = insert_ord(ord, x, s);
        assert forall|i: int, j: int| 0 <= i < j < t.len() implies ord(
            #[trigger] t[i],
            #[trigger] t[j],
        ) by {
            if i == 0 {
                assert(t[j] == s[j - 1]);
                if j > 1 {
                    assert(ord(s[0], s[j - 1]));
                }
            } else {
                assert(t[i] == s[i - 1] && t[j] == s[j - 1]);
            }
        }
    }
}

/// The sorted sequence respects `ord` between every pair of positions.
pub proof fn lemma_sort_ord_sorted<T>(ord: spec_fn(T, T) -> bool, s: Seq<T>)
    requires
        ord_total(ord),
        ord_transitive(ord),
    ensures
        pairwise_ord(ord, sort_ord(ord, s)),
    decreases s.len(),
{
    if s.len() > 0 {
        lemma_sort_ord_sorted(ord, s.drop_last());
        lemma_insert_ord_sorted(ord, s.last(), sort_ord(ord, s.drop_last()));
    }
}

} // verus!
