//! Merging two independently fetched record streams into one ordered feed.
//!
//! Each source is a list of slots, where a slot may be empty (the remote
//! service pads its answers with nulls) or hold a record together with its
//! extracted timestamp. The merge drops the empty slots, keeps every present
//! record — a record fetched through both sources stays twice, since each
//! occurrence is a distinct facet of the same event — and orders the result
//! by timestamp, newest first. A record without a timestamp goes after every
//! record with one; records the ordering cannot distinguish keep their
//! relative order (the sort is stable).

use vstd::prelude::*;

use crate::sorting::{
    lemma_insert_ord_split, lemma_sort_ord_len, lemma_sort_ord_sorted, ord_total, ord_transitive,
    pairwise_ord, sort_ord,
};

verus! {

/// A record paired with its extracted timestamp, if it has one.
///
/// The record itself stays opaque to the feed: the caller extracts the
/// timestamp (milliseconds, block time, any monotone stamp) before merging,
/// and a record whose timestamp cannot be extracted carries `None`.
pub struct Timestamped<T> {
    pub time: Option<u64>,
    pub record: T,
}

/// The feed ordering: `a` may stand before `b` when `a` is no older, where
/// a record with a timestamp is newer than any record without one and two
/// records without timestamps are tied.
pub open spec fn time_ge<T>(a: Timestamped<T>, b: Timestamped<T>) -> bool {
    match (a.time, b.time) {
        (Option::Some(x), Option::Some(y)) => x >= y,
        (Option::Some(_), Option::None) => true,
        (Option::None, Option::Some(_)) => false,
        (Option::None, Option::None) => true,
    }
}

/// [`time_ge`] as an ordering value, for the sort specifications.
pub open spec fn time_order<T>() -> spec_fn(Timestamped<T>, Timestamped<T>) -> bool {
    |a: Timestamped<T>, b: Timestamped<T>| time_ge(a, b)
}

/// The present records of a slot sequence, in order, with empty slots
/// dropped.
pub open spec fn present_of<T>(s: Seq<Option<Timestamped<T>>>) -> Seq<Timestamped<T>>
    decreases s.len(),
{
    if s.len() == 0 {
        Seq::<Timestamped<T>>::empty()
    } else {
        present_of(s.drop_last()) + match s.last() {
            Option::Some(e) => seq![e],
            Option::None => Seq::<Timestamped<T>>::empty(),
        }
    }
}

/// How many slots of `s` hold a record.
pub open spec fn count_present<T>(s: Seq<Option<Timestamped<T>>>) -> nat {
    present_of(s).len()
}

/// The present records sorted newest first, stably.
pub open spec fn sort_by_time<T>(s: Seq<Timestamped<T>>) -> Seq<Timestamped<T>> {
    sort_ord(time_order::<T>(), s)
}

/// What the merge returns: both sources filtered, concatenated and stably
/// sorted newest first.
pub open spec fn merged_feed<T>(
    a: Seq<Option<Timestamped<T>>>,
    b: Seq<Option<Timestamped<T>>>,
) -> Seq<Timestamped<T>> {
    sort_by_time(present_of(a) + present_of(b))
}

/// The feed ordering is a total preorder, so sorting by it is meaningful.
pub proof fn lemma_time_order_properties<T>()
    ensures
        ord_total(time_order::<T>()),
        ord_transitive(time_order::<T>()),
{
    let ord = time_order::<T>();
    assert forall|a: Timestamped<T>, b: Timestamped<T>| #[trigger]
        ord(a, b) || #[trigger] ord(b, a) by {
        assert(time_ge(a, b) || time_ge(b, a));
    }
}

/// Merge conservation: the feed holds exactly as many records as the two
/// sources have present slots. Nothing is dropped beyond the empty slots
/// and nothing is deduplicated.
pub proof fn lemma_merge_conserves_length<T>(
    a: Seq<Option<Timestamped<T>>>,
    b: Seq<Option<Timestamped<T>>>,
)
    ensures
        merged_feed(a, b).len() == count_present(a) + count_present(b),
{
    lemma_sort_ord_len(time_order::<T>(), present_of(a) + present_of(b));
}

/// Merge ordering: between any two positions of the feed, the earlier
/// record is no older than the later one. In particular, records with
/// timestamps are in descending timestamp order, and every record without
/// a timestamp stands after every record with one.
pub proof fn lemma_merge_ordered<T>(
    a: Seq<Option<Timestamped<T>>>,
    b: Seq<Option<Timestamped<T>>>,
)
    ensures
        forall|i: int, j: int|
            0 <= i < j < merged_feed(a, b).len() ==> time_ge(
                #[trigger] merged_feed(a, b)[i],
                #[trigger] merged_feed(a, b)[j],
            ),
{
    lemma_time_order_properties::<T>();
    lemma_sort_ord_sorted(time_order::<T>(), present_of(a) + present_of(b));
    let m = merged_feed(a, b);
    assert forall|i: int, j: int| 0 <= i < j < m.len() implies time_ge(
        #[trigger] m[i],
        #[trigger] m[j],
    ) by {
        assert(pairwise_ord(time_order::<T>(), m));
        assert(time_order::<T>()(m[i], m[j]));
    }
}

/// Runtime comparison matching [`time_ge`].
fn time_ge_exec<T>(a: &Timestamped<T>, b: &Timestamped<T>) -> (r: bool)
    ensures
        r == time_ge(*a, *b),
{
    match (a.time, b.time) {
        (Option::Some(x), Option::Some(y)) => x >= y,
        (Option::Some(_), Option::None) => true,
        (Option::None, Option::Some(_)) => false,
        (Option::None, Option::None) => true,
    }
}

/// The present records of `src`, in order.
fn keep_present<T>(src: Vec<Option<Timestamped<T>>>) -> (out: Vec<Timestamped<T>>)
    ensures
        out@ == present_of(src@),
{
    let ghost orig = src@;
    let mut rest = src;
    let mut out: Vec<Timestamped<T>> = Vec::new();
    let ghost mut i: int = 0;
    while rest.len() > 0
        invariant
            0 <= i <= orig.len(),
            rest@ == orig.subrange(i, orig.len() as int),
            out@ == present_of(orig.subrange(0, i)),
        decreases rest.len(),
    {
        let x = rest.remove(0);
        proof {
            assert(x == orig[i]);
            assert(rest@ =~= orig.subrange(i + 1, orig.len() as int));
        }
        match x {
            Option::Some(e) => out.push(e),
            Option::None => (),
        }
        proof {
            assert(orig.subrange(0, i + 1).drop_last() =~= orig.subrange(0, i));
            assert(orig.subrange(0, i + 1).last() == orig[i]);
            assert(out@ =~= present_of(orig.subrange(0, i + 1)));
            i = i + 1;
        }
    }
    proof {
        assert(orig.subrange(0, orig.len() as int) =~= orig);
    }
    out
}

/// The position at which the sort inserts `x`: just behind every element
/// that may stand before it.
fn insert_position<T>(v: &Vec<Timestamped<T>>, x: &Timestamped<T>) -> (k: usize)
    ensures
        k <= v@.len(),
        forall|j: int| 0 <= j < k ==> time_ge(#[trigger] v@[j], *x),
        k < v@.len() ==> !time_ge(v@[k as int], *x),
{
    let mut k: usize = 0;
    while k < v.len()
        invariant
            k <= v@.len(),
            forall|j: int| 0 <= j < k ==> time_ge(#[trigger] v@[j], *x),
        decreases v@.len() - k,
    {
        if !time_ge_exec(&v[k], x) {
            return k;
        }
        k = k + 1;
    }
    k
}

/// Stable insertion sort by [`time_ge`], newest first.
fn sort_desc<T>(items: Vec<Timestamped<T>>) -> (out: Vec<Timestamped<T>>)
    ensures
        out@ == sort_by_time(items@),
{
    let ghost orig = items@;
    let mut rest = items;
    let mut out: Vec<Timestamped<T>> = Vec::new();
    let ghost mut i: int = 0;
    while rest.len() > 0
        invariant
            0 <= i <= orig.len(),
            rest@ == orig.subrange(i, orig.len() as int),
            out@ == sort_by_time(orig.subrange(0, i)),
        decreases rest.len(),
    {
        let x = rest.remove(0);
        proof {
            assert(x == orig[i]);
            assert(rest@ =~= orig.subrange(i + 1, orig.len() as int));
        }
        let k = insert_position(&out, &x);
        proof {
            let ord = time_order::<T>();
            assert(forall|j: int| 0 <= j < k ==> ord(#[trigger] out@[j], x));
            assert((k as int) < out@.len() ==> !ord(out@[k as int], x));
            lemma_insert_ord_split(ord, x, out@, k as int);
        }
        let ghost before = out@;
        out.insert(k, x);
        proof {
            assert(out@ =~= before.subrange(0, k as int) + seq![x] + before.subrange(
                k as int,
                before.len() as int,
            ));
            assert(orig.subrange(0, i + 1).drop_last() =~= orig.subrange(0, i));
            assert(orig.subrange(0, i + 1).last() == orig[i]);
            assert(out@ == sort_by_time(orig.subrange(0, i + 1)));
            i = i + 1;
        }
    }
    proof {
        assert(orig.subrange(0, orig.len() as int) =~= orig);
    }
    out
}

/// The two sources filtered of empty slots, concatenated and stably sorted
/// newest first; see [`merged_feed`].
///
/// The feed length equals the two sources' present-record counts together,
/// and every pair of feed positions respects the time ordering; both also
/// stand alone as [`lemma_merge_conserves_length`] and
/// [`lemma_merge_ordered`].
pub fn merge<T>(
    source_a: Vec<Option<Timestamped<T>>>,
    source_b: Vec<Option<Timestamped<T>>>,
) -> (feed: Vec<Timestamped<T>>)
    ensures
        feed@ == merged_feed(source_a@, source_b@),
        feed@.len() == count_present(source_a@) + count_present(source_b@),
        forall|i: int, j: int|
            0 <= i < j < feed@.len() ==> time_ge(#[trigger] feed@[i], #[trigger] feed@[j]),
{
    let ghost sa = source_a@;
    let ghost sb = source_b@;
    let mut fa = keep_present(source_a);
    let mut fb = keep_present(source_b);
    fa.append(&mut fb);
    let feed = sort_desc(fa);
    proof {
        lemma_merge_conserves_length(sa, sb);
        lemma_merge_ordered(sa, sb);
    }
    feed
}

} // verus!
