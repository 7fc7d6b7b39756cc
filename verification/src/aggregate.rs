//! Top-N-plus-remainder aggregation for summary charts.
//!
//! Records arrive as key/value pairs (the caller has already applied its
//! key and value accessors). The aggregator sums values per key — groups
//! accumulate in order of first appearance — sorts the groups by summed
//! value, largest first and stably, keeps the first `top_k` groups, and
//! collapses whatever remains into one synthetic entry under a caller-given
//! label. The split is value-preserving: the output sums to exactly what
//! the input sums to.

use vstd::prelude::*;

use crate::sorting::{
    insert_ord, lemma_insert_ord_split, lemma_sort_ord_sorted, ord_total, ord_transitive,
    pairwise_ord, sort_ord,
};
use crate::CoreError;
use vstd::math::abs;

verus! {

/// One aggregated entry: a key and its summed value.
///
/// Values pass through uninterpreted — the aggregator performs no domain
/// validation, so negative values are summed like any others.
#[derive(Debug, Clone, PartialEq)]
pub struct AggregateEntry {
    pub key: String,
    pub value: i64,
}

/// The mathematical shadow of an entry: the key's characters and the value
/// as an unbounded integer.
pub open spec fn entry_view(e: AggregateEntry) -> (Seq<char>, int) {
    (e.key@, e.value as int)
}

/// The mathematical shadow of an entry sequence.
pub open spec fn entries_view(s: Seq<AggregateEntry>) -> Seq<(Seq<char>, int)> {
    s.map_values(|e: AggregateEntry| entry_view(e))
}

/// `v` added into the first group with key `key`, or a new group appended
/// if no group has it.
pub open spec fn bump_key(
    groups: Seq<(Seq<char>, int)>,
    key: Seq<char>,
    v: int,
) -> Seq<(Seq<char>, int)>
    decreases groups.len(),
{
    if groups.len() == 0 {
        seq![(key, v)]
    } else if groups[0].0 == key {
        seq![(groups[0].0, groups[0].1 + v)] + groups.drop_first()
    } else {
        seq![groups[0]] + bump_key(groups.drop_first(), key, v)
    }
}

/// Per-key sums over `s`, one group per distinct key, in order of the
/// key's first appearance.
pub open spec fn group_by_key(s: Seq<(Seq<char>, int)>) -> Seq<(Seq<char>, int)>
    decreases s.len(),
{
    if s.len() == 0 {
        Seq::<(Seq<char>, int)>::empty()
    } else {
        bump_key(group_by_key(s.drop_last()), s.last().0, s.last().1)
    }
}

/// The chart ordering: larger summed values first; keys play no part.
pub open spec fn value_ge(a: (Seq<char>, int), b: (Seq<char>, int)) -> bool {
    a.1 >= b.1
}

/// [`value_ge`] as an ordering value, for the sort specifications.
pub open spec fn value_order() -> spec_fn((Seq<char>, int), (Seq<char>, int)) -> bool {
    |a: (Seq<char>, int), b: (Seq<char>, int)| value_ge(a, b)
}

/// The sum of all values in `s`.
pub open spec fn sum_values(s: Seq<(Seq<char>, int)>) -> int
    decreases s.len(),
{
    if s.len() == 0 {
        0
    } else {
        sum_values(s.drop_last()) + s.last().1
    }
}

/// The sum of the absolute values in `s`; bounds every partial sum the
/// aggregator forms.
pub open spec fn sum_abs(s: Seq<(Seq<char>, int)>) -> int
    decreases s.len(),
{
    if s.len() == 0 {
        0
    } else {
        sum_abs(s.drop_last()) + abs(s.last().1)
    }
}

/// The first `k` groups kept verbatim; any groups beyond them collapsed
/// into one entry under `label` holding their summed value. A sequence of
/// at most `k` groups passes through unchanged, with no synthetic entry.
pub open spec fn cap_with_other(
    s: Seq<(Seq<char>, int)>,
    k: int,
    label: Seq<char>,
) -> Seq<(Seq<char>, int)> {
    if s.len() <= k {
        s
    } else {
        s.subrange(0, k) + seq![(label, sum_values(s.subrange(k, s.len() as int)))]
    }
}

/// What the aggregator returns: per-key sums, sorted largest first, capped
/// at `k` groups plus the remainder entry.
pub open spec fn aggregate_spec(
    s: Seq<(Seq<char>, int)>,
    k: int,
    label: Seq<char>,
) -> Seq<(Seq<char>, int)> {
    cap_with_other(sort_ord(value_order(), group_by_key(s)), k, label)
}

/// The chart ordering is a total preorder, so sorting by it is meaningful.
pub proof fn lemma_value_order_properties()
    ensures
        ord_total(value_order()),
        ord_transitive(value_order()),
{
    let ord = value_order();
    assert forall|a: (Seq<char>, int), b: (Seq<char>, int)| #[trigger]
        ord(a, b) || #[trigger] ord(b, a) by {
        assert(value_ge(a, b) || value_ge(b, a));
    }
}

/// Both sums split at any cut point.
pub proof fn lemma_sum_split(s: Seq<(Seq<char>, int)>, m: int)
    requires
        0 <= m <= s.len(),
    ensures
        sum_values(s) == sum_values(s.subrange(0, m)) + sum_values(s.subrange(m, s.len() as int)),
        sum_abs(s) == sum_abs(s.subrange(0, m)) + sum_abs(s.subrange(m, s.len() as int)),
    decreases s.len() - m,
{
    if m == s.len() {
        assert(s.subrange(0, m) =~= s);
        assert(s.subrange(m, s.len() as int) =~= Seq::<(Seq<char>, int)>::empty());
    } else {
        lemma_sum_split(s.drop_last(), m);
        assert(s.drop_last().subrange(0, m) =~= s.subrange(0, m));
        assert(s.drop_last().subrange(m, s.len() - 1) =~= s.subrange(m, s.len() as int).drop_last());
        assert(s.subrange(m, s.len() as int).last() == s.last());
    }
}

/// Absolute values sum to something non-negative.
pub proof fn lemma_sum_abs_nonneg(s: Seq<(Seq<char>, int)>)
    ensures
        sum_abs(s) >= 0,
    decreases s.len(),
{
    if s.len() > 0 {
        lemma_sum_abs_nonneg(s.drop_last());
    }
}

/// No single element outweighs the absolute sum.
pub proof fn lemma_abs_elem_le_sum_abs(s: Seq<(Seq<char>, int)>, j: int)
    requires
        0 <= j < s.len(),
    ensures
        abs(s[j].1) <= sum_abs(s),
    decreases s.len(),
{
    if j == s.len() - 1 {
        lemma_sum_abs_nonneg(s.drop_last());
    } else {
        lemma_abs_elem_le_sum_abs(s.drop_last(), j);
    }
}

/// Both sums distribute over concatenation.
pub proof fn lemma_sum_add(a: Seq<(Seq<char>, int)>, b: Seq<(Seq<char>, int)>)
    ensures
        sum_values(a + b) == sum_values(a) + sum_values(b),
        sum_abs(a + b) == sum_abs(a) + sum_abs(b),
    decreases b.len(),
{
    if b.len() == 0 {
        assert(a + b =~= a);
    } else {
        lemma_sum_add(a, b.drop_last());
        assert((a + b).drop_last() =~= a + b.drop_last());
        assert((a + b).last() == b.last());
    }
}

/// Both sums over a single entry.
pub proof fn lemma_sum_singleton(p: (Seq<char>, int))
    ensures
        sum_values(seq![p]) == p.1,
        sum_abs(seq![p]) == abs(p.1),
{
    assert(seq![p].drop_last() =~= Seq::<(Seq<char>, int)>::empty());
    assert(sum_values(Seq::<(Seq<char>, int)>::empty()) == 0);
    assert(sum_abs(Seq::<(Seq<char>, int)>::empty()) == 0);
    assert(seq![p].last() == p);
}

/// Bumping a key adds exactly `v` to the total and at most `|v|` to the
/// absolute total.
pub proof fn lemma_bump_key_sum(groups: Seq<(Seq<char>, int)>, key: Seq<char>, v: int)
    ensures
        sum_values(bump_key(groups, key, v)) == sum_values(groups) + v,
        sum_abs(bump_key(groups, key, v)) <= sum_abs(groups) + abs(v),
        sum_abs(bump_key(groups, key, v)) >= 0,
    decreases groups.len(),
{
    lemma_sum_abs_nonneg(bump_key(groups, key, v));
    if groups.len() == 0 {
        assert(bump_key(groups, key, v) == seq![(key, v)]);
        lemma_sum_singleton((key, v));
    } else if groups[0].0 == key {
        let head = seq![(groups[0].0, groups[0].1 + v)];
        assert(bump_key(groups, key, v) == head + groups.drop_first());
        lemma_sum_singleton((groups[0].0, groups[0].1 + v));
        lemma_sum_singleton(groups[0]);
        lemma_sum_add(head, groups.drop_first());
        lemma_sum_add(seq![groups[0]], groups.drop_first());
        assert(seq![groups[0]] + groups.drop_first() =~= groups);
    } else {
        assert(bump_key(groups, key, v) == seq![groups[0]] + bump_key(
            groups.drop_first(),
            key,
            v,
        ));
        lemma_bump_key_sum(groups.drop_first(), key, v);
        lemma_sum_singleton(groups[0]);
        lemma_sum_add(seq![groups[0]], bump_key(groups.drop_first(), key, v));
        lemma_sum_add(seq![groups[0]], groups.drop_first());
        assert(seq![groups[0]] + groups.drop_first() =~= groups);
    }
}

/// Grouping conserves the total and never grows the absolute total.
pub proof fn lemma_group_by_key_sum(s: Seq<(Seq<char>, int)>)
    ensures
        sum_values(group_by_key(s)) == sum_values(s),
        sum_abs(group_by_key(s)) <= sum_abs(s),
    decreases s.len(),
{
    if s.len() > 0 {
        lemma_group_by_key_sum(s.drop_last());
        lemma_bump_key_sum(group_by_key(s.drop_last()), s.last().0, s.last().1);
    }
}

/// Inserting into the sorted sequence adds exactly the inserted value to
/// both sums.
pub proof fn lemma_insert_ord_sum(x: (Seq<char>, int), s: Seq<(Seq<char>, int)>)
    ensures
        sum_values(insert_ord(value_order(), x, s)) == sum_values(s) + x.1,
        sum_abs(insert_ord(value_order(), x, s)) == sum_abs(s) + abs(x.1),
    decreases s.len(),
{
    let ord = value_order();
    if s.len() == 0 {
        assert(insert_ord(ord, x, s) == seq![x]);
        lemma_sum_singleton(x);
    } else if ord(s[0], x) {
        assert(insert_ord(ord, x, s) == seq![s[0]] + insert_ord(ord, x, s.drop_first()));
        lemma_insert_ord_sum(x, s.drop_first());
        lemma_sum_singleton(s[0]);
        lemma_sum_add(seq![s[0]], insert_ord(ord, x, s.drop_first()));
        lemma_sum_add(seq![s[0]], s.drop_first());
        assert(seq![s[0]] + s.drop_first() =~= s);
    } else {
        assert(insert_ord(ord, x, s) == seq![x] + s);
        lemma_sum_singleton(x);
        lemma_sum_add(seq![x], s);
    }
}

/// Sorting permutes, so it conserves both sums.
pub proof fn lemma_sort_ord_sum(s: Seq<(Seq<char>, int)>)
    ensures
        sum_values(sort_ord(value_order(), s)) == sum_values(s),
        sum_abs(sort_ord(value_order(), s)) == sum_abs(s),
    decreases s.len(),
{
    if s.len() > 0 {
        lemma_sort_ord_sum(s.drop_last());
        lemma_insert_ord_sum(s.last(), sort_ord(value_order(), s.drop_last()));
    }
}

/// Capping conserves the total: the kept groups and the remainder entry
/// together sum to the uncapped total.
pub proof fn lemma_cap_with_other_sum(s: Seq<(Seq<char>, int)>, k: int, label: Seq<char>)
    requires
        0 <= k,
    ensures
        sum_values(cap_with_other(s, k, label)) == sum_values(s),
{
    if s.len() > k {
        let kept = s.subrange(0, k);
        let rest = s.subrange(k, s.len() as int);
        let other = seq![(label, sum_values(rest))];
        assert(cap_with_other(s, k, label) == kept + other);
        lemma_sum_singleton((label, sum_values(rest)));
        lemma_sum_add(kept, other);
        lemma_sum_split(s, k);
    }
}

/// Aggregator conservation: the aggregate sums to exactly what the records
/// sum to. The top-K-plus-remainder split is value-preserving.
pub proof fn lemma_aggregate_conserves_sum(s: Seq<(Seq<char>, int)>, k: int, label: Seq<char>)
    requires
        0 <= k,
    ensures
        sum_values(aggregate_spec(s, k, label)) == sum_values(s),
{
    lemma_group_by_key_sum(s);
    lemma_sort_ord_sum(group_by_key(s));
    lemma_cap_with_other_sum(sort_ord(value_order(), group_by_key(s)), k, label);
}

/// Aggregator bound: the aggregate never holds more than `k` groups plus
/// the one remainder entry.
pub proof fn lemma_aggregate_bounded(s: Seq<(Seq<char>, int)>, k: int, label: Seq<char>)
    requires
        0 <= k,
    ensures
        aggregate_spec(s, k, label).len() <= k + 1,
{
}

/// Bumping a key whose first occurrence in the groups is at `j` updates
/// exactly that group.
proof fn lemma_bump_key_found(g: Seq<(Seq<char>, int)>, key: Seq<char>, v: int, j: int)
    requires
        0 <= j < g.len(),
        g[j].0 == key,
        forall|t: int| 0 <= t < j ==> (#[trigger] g[t]).0 != key,
    ensures
        bump_key(g, key, v) == g.update(j, (g[j].0, g[j].1 + v)),
    decreases g.len(),
{
    if j == 0 {
        assert(bump_key(g, key, v) == seq![(g[0].0, g[0].1 + v)] + g.drop_first());
        assert(seq![(g[0].0, g[0].1 + v)] + g.drop_first() =~= g.update(0, (g[0].0, g[0].1 + v)));
    } else {
        assert(g[0].0 != key);
        assert(bump_key(g, key, v) == seq![g[0]] + bump_key(g.drop_first(), key, v));
        assert(forall|t: int| 0 <= t < j - 1 ==> (#[trigger] g.drop_first()[t]).0 != key);
        assert(g.drop_first()[j - 1] == g[j]);
        lemma_bump_key_found(g.drop_first(), key, v, j - 1);
        assert(seq![g[0]] + g.drop_first().update(j - 1, (g[j].0, g[j].1 + v)) =~= g.update(
            j,
            (g[j].0, g[j].1 + v),
        ));
    }
}

/// Bumping a key no group has appends a new group.
proof fn lemma_bump_key_absent(g: Seq<(Seq<char>, int)>, key: Seq<char>, v: int)
    requires
        forall|t: int| 0 <= t < g.len() ==> (#[trigger] g[t]).0 != key,
    ensures
        bump_key(g, key, v) == g + seq![(key, v)],
    decreases g.len(),
{
    if g.len() == 0 {
        assert(bump_key(g, key, v) =~= g + seq![(key, v)]);
    } else {
        assert(g[0].0 != key);
        assert(bump_key(g, key, v) == seq![g[0]] + bump_key(g.drop_first(), key, v));
        assert(forall|t: int|
            0 <= t < g.drop_first().len() ==> (#[trigger] g.drop_first()[t]).0 != key);
        lemma_bump_key_absent(g.drop_first(), key, v);
        assert(seq![g[0]] + (g.drop_first() + seq![(key, v)]) =~= g + seq![(key, v)]);
    }
}

/// The aggregate's kept groups stand in descending value order, and no
/// value among them is smaller than any value folded after them.
pub proof fn lemma_aggregate_sorted(s: Seq<(Seq<char>, int)>, k: int, label: Seq<char>)
    requires
        0 <= k,
    ensures
        forall|i: int, j: int|
            0 <= i < j < aggregate_spec(s, k, label).len() && j < k ==> value_ge(
                #[trigger] aggregate_spec(s, k, label)[i],
                #[trigger] aggregate_spec(s, k, label)[j],
            ),
{
    lemma_value_order_properties();
    let sorted = sort_ord(value_order(), group_by_key(s));
    lemma_sort_ord_sorted(value_order(), group_by_key(s));
    let agg = aggregate_spec(s, k, label);
    assert forall|i: int, j: int| 0 <= i < j < agg.len() && j < k implies value_ge(
        #[trigger] agg[i],
        #[trigger] agg[j],
    ) by {
        assert(pairwise_ord(value_order(), sorted));
        assert(value_order()(sorted[i], sorted[j]));
        assert(agg[i] == sorted[i] && agg[j] == sorted[j]);
    }
}

/// The first group holding `key`, if any group does.
fn find_key(groups: &Vec<AggregateEntry>, key: &String) -> (r: Option<usize>)
    ensures
        match r {
            Option::Some(j) => j < groups@.len() && groups@[j as int].key@ == key@ && (forall|
                t: int,
            |
                0 <= t < j ==> (#[trigger] groups@[t]).key@ != key@),
            Option::None => forall|t: int|
                0 <= t < groups@.len() ==> (#[trigger] groups@[t]).key@ != key@,
        },
{
    let mut j: usize = 0;
    while j < groups.len()
        invariant
            j <= groups@.len(),
            forall|t: int| 0 <= t < j ==> (#[trigger] groups@[t]).key@ != key@,
        decreases groups@.len() - j,
    {
        if groups[j].key == *key {
            return Some(j);
        }
        j = j + 1;
    }
    None
}

/// Per-key sums over the records, one group per distinct key, in order of
/// first appearance; see [`group_by_key`].
fn group_sums(records: &Vec<AggregateEntry>) -> (groups: Vec<AggregateEntry>)
    requires
        sum_abs(entries_view(records@)) <= i64::MAX as int,
    ensures
        entries_view(groups@) == group_by_key(entries_view(records@)),
        sum_abs(entries_view(groups@)) <= sum_abs(entries_view(records@)),
{
    let ghost rv = entries_view(records@);
    let mut groups: Vec<AggregateEntry> = Vec::new();
    let mut i: usize = 0;
    while i < records.len()
        invariant
            i <= records@.len(),
            rv == entries_view(records@),
            rv.len() == records@.len(),
            sum_abs(rv) <= i64::MAX as int,
            entries_view(groups@) == group_by_key(rv.subrange(0, i as int)),
            sum_abs(entries_view(groups@)) <= sum_abs(rv.subrange(0, i as int)),
        decreases records@.len() - i,
    {
        let v = records[i].value;
        let ghost gv = entries_view(groups@);
        let ghost pre = rv.subrange(0, i as int);
        let ghost post = rv.subrange(0, i as int + 1);
        proof {
            assert(rv[i as int] == entry_view(records@[i as int]));
            assert(post.drop_last() =~= pre);
            assert(post.last() == rv[i as int]);
            assert(sum_abs(post) == sum_abs(pre) + abs(v as int));
            lemma_sum_split(rv, i as int + 1);
            lemma_sum_abs_nonneg(rv.subrange(i as int + 1, rv.len() as int));
            assert(post =~= rv.subrange(0, i as int + 1));
            assert(sum_abs(post) <= sum_abs(rv));
        }
        match find_key(&groups, &records[i].key) {
            Option::Some(j) => {
                proof {
                    assert(gv[j as int] == entry_view(groups@[j as int]));
                    lemma_abs_elem_le_sum_abs(gv, j as int);
                    assert(abs(gv[j as int].1 + v as int) <= abs(gv[j as int].1) + abs(v as int));
                    assert(-(i64::MAX as int) <= gv[j as int].1 + v as int <= i64::MAX as int);
                }
                let nv = groups[j].value + v;
                let k2 = groups[j].key.clone();
                let ghost bumped = (gv[j as int].0, gv[j as int].1 + v as int);
                groups.set(j, AggregateEntry { key: k2, value: nv });
                proof {
                    assert(entries_view(groups@) =~= gv.update(j as int, bumped));
                    lemma_bump_key_found(gv, rv[i as int].0, v as int, j as int);
                    lemma_bump_key_sum(gv, rv[i as int].0, v as int);
                    assert(entries_view(groups@) == bump_key(gv, rv[i as int].0, v as int));
                }
            },
            Option::None => {
                let k2 = records[i].key.clone();
                groups.push(AggregateEntry { key: k2, value: v });
                proof {
                    assert(entries_view(groups@) =~= gv + seq![(rv[i as int].0, v as int)]);
                    lemma_bump_key_absent(gv, rv[i as int].0, v as int);
                    lemma_bump_key_sum(gv, rv[i as int].0, v as int);
                    assert(entries_view(groups@) == bump_key(gv, rv[i as int].0, v as int));
                }
            },
        }
        proof {
            assert(group_by_key(post) == bump_key(group_by_key(pre), rv[i as int].0, rv[
                i as int].1));
            assert(rv[i as int].1 == v as int);
            assert(entries_view(groups@) == group_by_key(post));
            assert(sum_abs(entries_view(groups@)) <= sum_abs(gv) + abs(v as int));
        }
        i = i + 1;
    }
    proof {
        assert(rv.subrange(0, rv.len() as int) =~= rv);
    }
    groups
}

/// Runtime comparison matching [`value_ge`].
fn value_ge_exec(a: &AggregateEntry, b: &AggregateEntry) -> (r: bool)
    ensures
        r == value_ge(entry_view(*a), entry_view(*b)),
{
    a.value >= b.value
}

/// The position at which the value sort inserts `x`: just behind every
/// group whose value is at least as large.
fn insert_position_by_value(v: &Vec<AggregateEntry>, x: &AggregateEntry) -> (k: usize)
    ensures
        k <= v@.len(),
        forall|j: int| 0 <= j < k ==> value_ge(entry_view(#[trigger] v@[j]), entry_view(*x)),
        k < v@.len() ==> !value_ge(entry_view(v@[k as int]), entry_view(*x)),
{
    let mut k: usize = 0;
    while k < v.len()
        invariant
            k <= v@.len(),
            forall|j: int| 0 <= j < k ==> value_ge(entry_view(#[trigger] v@[j]), entry_view(*x)),
        decreases v@.len() - k,
    {
        if !value_ge_exec(&v[k], x) {
            return k;
        }
        k = k + 1;
    }
    k
}

/// Stable insertion sort by summed value, largest first.
fn sort_desc_by_value(groups: Vec<AggregateEntry>) -> (out: Vec<AggregateEntry>)
    ensures
        entries_view(out@) == sort_ord(value_order(), entries_view(groups@)),
{
    let ghost orig = groups@;
    let ghost vs = entries_view(orig);
    let mut rest = groups;
    let mut out: Vec<AggregateEntry> = Vec::new();
    let ghost mut i: int = 0;
    while rest.len() > 0
        invariant
            0 <= i <= orig.len(),
            vs == entries_view(orig),
            vs.len() == orig.len(),
            rest@ == orig.subrange(i, orig.len() as int),
            entries_view(out@) == sort_ord(value_order(), vs.subrange(0, i)),
        decreases rest.len(),
    {
        let x = rest.remove(0);
        proof {
            assert(x == orig[i]);
            assert(rest@ =~= orig.subrange(i + 1, orig.len() as int));
            assert(entry_view(x) == vs[i]);
        }
        let k = insert_position_by_value(&out, &x);
        let ghost ov = entries_view(out@);
        proof {
            let ord = value_order();
            assert forall|j: int| 0 <= j < k implies ord(#[trigger] ov[j], vs[i]) by {
                assert(ov[j] == entry_view(out@[j]));
            }
            if (k as int) < ov.len() {
                assert(ov[k as int] == entry_view(out@[k as int]));
                assert(!ord(ov[k as int], vs[i]));
            }
            lemma_insert_ord_split(ord, vs[i], ov, k as int);
        }
        let ghost before = out@;
        out.insert(k, x);
        proof {
            assert(entries_view(out@) =~= ov.subrange(0, k as int) + seq![vs[i]] + ov.subrange(
                k as int,
                ov.len() as int,
            ));
            assert(vs.subrange(0, i + 1).drop_last() =~= vs.subrange(0, i));
            assert(vs.subrange(0, i + 1).last() == vs[i]);
            assert(entries_view(out@) == sort_ord(value_order(), vs.subrange(0, i + 1)));
            i = i + 1;
        }
    }
    proof {
        assert(vs.subrange(0, vs.len() as int) =~= vs);
    }
    out
}

/// Per-key sums sorted largest first, the first `top_k` groups kept and
/// any remainder collapsed into one entry under `other_label`; see
/// [`aggregate_spec`].
///
/// A zero `top_k` is a contract violation and is rejected. The absolute
/// values of the records must together fit the value type — every partial
/// sum the aggregator forms is bounded by that total. The conservation and
/// bound laws stand as [`lemma_aggregate_conserves_sum`] and
/// [`lemma_aggregate_bounded`].
pub fn aggregate(records: &Vec<AggregateEntry>, top_k: usize, other_label: String) -> (r: Result<
    Vec<AggregateEntry>,
    CoreError,
>)
    requires
        sum_abs(entries_view(records@)) <= i64::MAX as int,
    ensures
        match r {
            Ok(out) => top_k >= 1 && entries_view(out@) == aggregate_spec(
                entries_view(records@),
                top_k as int,
                other_label@,
            ),
            Err(e) => top_k == 0 && e == CoreError::InvalidArgument,
        },
{
    if top_k == 0 {
        return Err(CoreError::InvalidArgument);
    }
    let ghost rv = entries_view(records@);
    let groups = group_sums(records);
    let mut sorted = sort_desc_by_value(groups);
    let ghost sv = entries_view(sorted@);
    proof {
        lemma_group_by_key_sum(rv);
        lemma_sort_ord_sum(group_by_key(rv));
        assert(sum_abs(sv) <= i64::MAX as int);
    }
    if sorted.len() > top_k {
        let a = top_k;
        let mut acc: i64 = 0;
        let mut t = top_k;
        proof {
            assert(sv.subrange(a as int, a as int) =~= Seq::<(Seq<char>, int)>::empty());
        }
        while t < sorted.len()
            invariant
                a == top_k,
                a <= t <= sorted@.len(),
                sv == entries_view(sorted@),
                sv.len() == sorted@.len(),
                sum_abs(sv) <= i64::MAX as int,
                acc as int == sum_values(sv.subrange(a as int, t as int)),
                abs(acc as int) <= sum_abs(sv.subrange(a as int, t as int)),
            decreases sorted@.len() - t,
        {
            proof {
                let ai = a as int;
                let bi = t as int;
                assert(sv[bi] == entry_view(sorted@[bi]));
                assert(sv.subrange(ai, bi + 1).drop_last() =~= sv.subrange(ai, bi));
                assert(sv.subrange(ai, bi + 1).last() == sv[bi]);
                let tail = sv.subrange(ai, sv.len() as int);
                lemma_sum_split(sv, ai);
                lemma_sum_abs_nonneg(sv.subrange(0, ai));
                lemma_sum_split(tail, bi + 1 - ai);
                assert(tail.subrange(0, bi + 1 - ai) =~= sv.subrange(ai, bi + 1));
                lemma_sum_abs_nonneg(tail.subrange(bi + 1 - ai, tail.len() as int));
                assert(sum_abs(sv.subrange(ai, bi + 1)) <= sum_abs(sv));
                assert(abs(acc as int + sorted@[bi].value) <= sum_abs(sv.subrange(ai, bi + 1)));
            }
            acc = acc + sorted[t].value;
            t = t + 1;
        }
        let ghost keep = sv.subrange(0, a as int);
        let ghost rest = sv.subrange(a as int, sv.len() as int);
        proof {
            assert(sv.subrange(a as int, t as int) =~= rest);
        }
        sorted.truncate(a);
        proof {
            assert(entries_view(sorted@) =~= keep);
        }
        sorted.push(AggregateEntry { key: other_label, value: acc });
        proof {
            assert(entries_view(sorted@) =~= keep + seq![(other_label@, acc as int)]);
            assert(entries_view(sorted@) == cap_with_other(sv, a as int, other_label@));
        }
    } else {
        proof {
            assert(cap_with_other(sv, top_k as int, other_label@) == sv);
        }
    }
    Ok(sorted)
}

} // verus!
