use crate::aggregate::aggregates_of;
use crate::keymap::KeyMap;
use crate::model::{
    distinct_seq, grouped, lemma_distinct_no_duplicates, lemma_distinct_of_unique,
    lemma_distinct_same_values,
};
use vstd::multiset::Multiset;
use vstd::prelude::*;
use vstd::seq_lib::{group_to_multiset_ensures, to_multiset_build};

verus! {

/// The keys of a map, in particular of a map of groups, are pairwise distinct.
pub proof fn lemma_keys_unique<K, V>(m: KeyMap<K, V>)
    requires
        m.wf(),
    ensures
        m.key_order().no_duplicates(),
{
    m.lemma_entries();
}

/// Removing duplicates twice gives what removing them once gives, and the
/// result has as many elements as `xs` has distinct values.
pub proof fn lemma_distinct_idempotent<T>(xs: Seq<T>)
    ensures
        distinct_seq(distinct_seq(xs)) == distinct_seq(xs),
        distinct_seq(xs).len() == xs.to_set().len(),
{
    let d = distinct_seq(xs);
    lemma_distinct_no_duplicates(xs);
    lemma_distinct_of_unique(d);
    lemma_distinct_same_values(xs);
    assert(d.to_set() =~= xs.to_set());
    d.unique_seq_to_set();
}

/// Empty input gives no groups, no aggregated keys and no values.
pub proof fn lemma_empty_input<T, K, N, R, A: Fn(&Vec<T>) -> R>(
    ks: Seq<K>,
    aggrs: Map<N, A>,
    r: KeyMap<K, KeyMap<N, R>>,
)
    requires
        aggregates_of(aggrs, grouped(Seq::<T>::empty(), ks), r),
    ensures
        grouped(Seq::<T>::empty(), ks) == Map::<K, Seq<T>>::empty(),
        r@ == Map::<K, KeyMap<N, R>>::empty(),
        distinct_seq(Seq::<T>::empty()) == Seq::<T>::empty(),
{
    assert(r@ =~= Map::<K, KeyMap<N, R>>::empty());
}

/// Every element lands in the group of its own key, and the groups' keys are
/// exactly the keys that occur.
pub proof fn lemma_each_element_in_its_group<T, K>(xs: Seq<T>, ks: Seq<K>)
    requires
        ks.len() == xs.len(),
    ensures
        forall|i: int|
            0 <= i < xs.len() ==> #[trigger] grouped(xs, ks).contains_key(ks[i]) && grouped(
                xs,
                ks,
            )[ks[i]].contains(xs[i]),
        forall|k: K| #[trigger] grouped(xs, ks).contains_key(k) <==> ks.contains(k),
    decreases xs.len(),
{
    if xs.len() > 0 {
        let p = xs.drop_last();
        let q = ks.drop_last();
        lemma_each_element_in_its_group(p, q);
        let m = grouped(p, q);
        let n = xs.len() - 1;
        assert forall|i: int| 0 <= i < xs.len() implies #[trigger] grouped(xs, ks).contains_key(ks[i])
            && grouped(xs, ks)[ks[i]].contains(xs[i]) by {
            if i < n {
                assert(q[i] == ks[i] && p[i] == xs[i]);
                assert(m.contains_key(q[i]));
                let j = choose|j: int| 0 <= j < m[q[i]].len() && m[q[i]][j] == p[i];
                if ks[i] == ks.last() {
                    assert(grouped(xs, ks)[ks[i]][j] == xs[i]);
                }
            } else {
                let g = grouped(xs, ks)[ks[i]];
                assert(g[g.len() - 1] == xs[i]);
            }
        }
        assert forall|k: K| #[trigger] grouped(xs, ks).contains_key(k) <==> ks.contains(k) by {
            if q.contains(k) {
                let j = choose|j: int| 0 <= j < q.len() && q[j] == k;
                assert(ks[j] == k);
            }
            if ks.contains(k) && k != ks.last() {
                let j = choose|j: int| 0 <= j < ks.len() && ks[j] == k;
                assert(q[j] == k);
            }
            if k == ks.last() {
                assert(ks[n] == k);
            }
        }
    }
}

/// How many of the first `n` keys equal `k`.
pub open spec fn rank<K>(ks: Seq<K>, k: K, n: int) -> nat
    decreases n,
{
    if n <= 0 {
        0
    } else {
        rank(ks, k, n - 1) + (if ks[n - 1] == k {
            1nat
        } else {
            0nat
        })
    }
}

/// The rank among the first `n` keys does not look past them.
proof fn lemma_rank_prefix<K>(ks: Seq<K>, k: K, n: int)
    requires
        0 <= n < ks.len(),
    ensures
        rank(ks, k, n) == rank(ks.drop_last(), k, n),
    decreases n,
{
    if n > 0 {
        lemma_rank_prefix(ks, k, n - 1);
    }
}

/// Rank only grows.
proof fn lemma_rank_monotone<K>(ks: Seq<K>, k: K, a: int, b: int)
    requires
        0 <= a <= b,
    ensures
        rank(ks, k, a) <= rank(ks, k, b),
    decreases b,
{
    if a < b {
        lemma_rank_monotone(ks, k, a, b - 1);
    }
}

/// The `i`th element sits in its group at the place that its rank gives, and
/// a group is as long as its key's rank over the whole input.
proof fn lemma_group_positions<T, K>(xs: Seq<T>, ks: Seq<K>)
    requires
        ks.len() == xs.len(),
    ensures
        forall|i: int|
            0 <= i < xs.len() ==> {
                let g = #[trigger] grouped(xs, ks)[ks[i]];
                &&& rank(ks, ks[i], i) < g.len()
                &&& g[rank(ks, ks[i], i) as int] == xs[i]
            },
        forall|k: K|
            (if #[trigger] grouped(xs, ks).contains_key(k) {
                grouped(xs, ks)[k].len()
            } else {
                0
            }) == rank(ks, k, xs.len() as int),
    decreases xs.len(),
{
    if xs.len() > 0 {
        let p = xs.drop_last();
        let q = ks.drop_last();
        let n = xs.len() - 1;
        lemma_group_positions(p, q);
        let m = grouped(p, q);
        let last = ks.last();
        assert forall|k: K|
            (if #[trigger] grouped(xs, ks).contains_key(k) {
                grouped(xs, ks)[k].len()
            } else {
                0
            }) == rank(ks, k, xs.len() as int) by {
            lemma_rank_prefix(ks, k, n);
            if m.contains_key(k) {
            }
        }
        assert forall|i: int| 0 <= i < xs.len() implies {
            let g = #[trigger] grouped(xs, ks)[ks[i]];
            &&& rank(ks, ks[i], i) < g.len()
            &&& g[rank(ks, ks[i], i) as int] == xs[i]
        } by {
            lemma_rank_prefix(ks, ks[i], n);
            if i < n {
                lemma_rank_prefix(ks, ks[i], i);
                assert(q[i] == ks[i] && p[i] == xs[i]);
                let g0 = grouped(p, q)[q[i]];
                assert(rank(q, q[i], i) < g0.len());
                if ks[i] == last {
                    assert(m.contains_key(last)) by {
                        assert(rank(q, q[i], i + 1) > 0);
                        lemma_rank_monotone(q, q[i], i + 1, n);
                    }
                } else {
                    assert(m.contains_key(ks[i])) by {
                        assert(rank(q, q[i], i + 1) > 0);
                        lemma_rank_monotone(q, q[i], i + 1, n);
                    }
                }
            } else {
                if m.contains_key(last) {
                }
            }
        }
    }
}

/// Two elements with one key keep their input order inside their group.
pub proof fn lemma_group_order<T, K>(xs: Seq<T>, ks: Seq<K>, i: int, j: int)
    requires
        ks.len() == xs.len(),
        0 <= i < j < xs.len(),
        ks[i] == ks[j],
    ensures
        exists|a: int, b: int|
            0 <= a < b < grouped(xs, ks)[ks[i]].len() && grouped(xs, ks)[ks[i]][a] == xs[i]
                && grouped(xs, ks)[ks[i]][b] == xs[j],
{
    lemma_group_positions(xs, ks);
    let g = grouped(xs, ks)[ks[i]];
    let a = rank(ks, ks[i], i) as int;
    let b = rank(ks, ks[j], j) as int;
    lemma_rank_monotone(ks, ks[i], i + 1, j);
    assert(g[a] == xs[i]);
    assert(g[b] == xs[j]);
}

/// The elements of the groups listed in `order`, taken together.
pub open spec fn groups_total<K, T>(m: Map<K, Seq<T>>, order: Seq<K>) -> Multiset<T>
    decreases order.len(),
{
    if order.len() == 0 {
        Multiset::empty()
    } else {
        groups_total(m, order.drop_last()).add(m[order.last()].to_multiset())
    }
}

/// A group whose key is not listed does not count.
proof fn lemma_total_frame<K, T>(m: Map<K, Seq<T>>, order: Seq<K>, k: K, v: Seq<T>)
    requires
        !order.contains(k),
    ensures
        groups_total(m.insert(k, v), order) == groups_total(m, order),
    decreases order.len(),
{
    if order.len() > 0 {
        let p = order.drop_last();
        if p.contains(k) {
            let i = choose|i: int| 0 <= i < p.len() && p[i] == k;
            assert(order[i] == k);
        }
        lemma_total_frame(m, p, k, v);
        assert(order[order.len() - 1] != k);
    }
}

/// One more element in a listed group is one more element in the total.
proof fn lemma_total_bump<K, T>(m: Map<K, Seq<T>>, order: Seq<K>, k: K, x: T)
    requires
        order.no_duplicates(),
        order.contains(k),
    ensures
        groups_total(m.insert(k, m[k].push(x)), order) == groups_total(m, order).insert(x),
    decreases order.len(),
{
    let m2 = m.insert(k, m[k].push(x));
    let p = order.drop_last();
    to_multiset_build(m[k], x);
    if order.last() == k {
        if p.contains(k) {
            let i = choose|i: int| 0 <= i < p.len() && p[i] == k;
            assert(order[i] == order[order.len() - 1]);
        }
        lemma_total_frame(m, p, k, m[k].push(x));
        assert(groups_total(m2, order) =~= groups_total(m, order).insert(x));
    } else {
        let i = choose|i: int| 0 <= i < order.len() && order[i] == k;
        assert(p[i] == k);
        lemma_total_bump(m, p, k, x);
        assert(groups_total(m2, order) =~= groups_total(m, order).insert(x));
    }
}

/// The groups, each taken once in order of first occurrence of its key,
/// hold together exactly the input's elements, each as often as in the input.
pub proof fn lemma_partition_complete<T, K>(xs: Seq<T>, ks: Seq<K>)
    requires
        ks.len() == xs.len(),
    ensures
        distinct_seq(ks).no_duplicates(),
        forall|k: K| #[trigger] grouped(xs, ks).contains_key(k) <==> distinct_seq(ks).contains(k),
        groups_total(grouped(xs, ks), distinct_seq(ks)) == xs.to_multiset(),
    decreases xs.len(),
{
    broadcast use group_to_multiset_ensures;

    lemma_distinct_no_duplicates(ks);
    lemma_distinct_same_values(ks);
    lemma_each_element_in_its_group(xs, ks);
    if xs.len() == 0 {
        assert(xs.to_multiset().len() == 0);
        assert(xs.to_multiset() =~= Multiset::empty());
    } else {
        let p = xs.drop_last();
        let q = ks.drop_last();
        lemma_partition_complete(p, q);
        lemma_each_element_in_its_group(p, q);
        let m = grouped(p, q);
        let k = ks.last();
        let x = xs.last();
        assert(xs == p.push(x));
        to_multiset_build(p, x);
        if distinct_seq(q).contains(k) {
            lemma_total_bump(m, distinct_seq(q), k, x);
        } else {
            lemma_total_frame(m, distinct_seq(q), k, seq![x]);
            let o = distinct_seq(ks);
            assert(o.drop_last() == distinct_seq(q));
            assert(Seq::<T>::empty().push(x) == seq![x]);
            to_multiset_build(Seq::<T>::empty(), x);
            assert(Seq::<T>::empty().to_multiset().len() == 0);
            assert(Seq::<T>::empty().to_multiset() =~= Multiset::<T>::empty());
            assert(groups_total(grouped(xs, ks), o) =~= xs.to_multiset());
        }
    }
}

} // verus!
