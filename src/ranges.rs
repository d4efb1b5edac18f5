use crate::aggregate::{accepts_groups, aggregate, aggregates_of};
use crate::keymap::KeyMap;
use crate::laws::lemma_each_element_in_its_group;
use crate::model::{
    distinct_seq, grouped, groups_of, image, images_returned, is_deterministic, keys_of, lemma_call_image,
    lemma_distinct_same_values,
};
use std::collections::VecDeque;
use vstd::laws_eq::obeys_concrete_eq;
use vstd::prelude::*;

verus! {

/// Materialises a sequence into a `Vec`, in order.
pub trait ToVec<T>: Sized + View<V = Seq<T>> {
    fn to_vec(self) -> (r: Vec<T>)
        ensures
            r@ == self@,
    ;
}

impl<T> ToVec<T> for VecDeque<T> {
    fn to_vec(self) -> (r: Vec<T>) {
        let mut rest = self;
        let mut result: Vec<T> = Vec::new();
        while rest.len() > 0
            invariant
                result@ + rest@ == self@,
            decreases rest@.len(),
        {
            let x = rest.pop_front().unwrap();
            result.push(x);
        }
        result
    }
}

/// Whether `x` occurs in `v`.
fn holds<T: PartialEq>(v: &Vec<T>, x: &T) -> (r: bool)
    requires
        obeys_concrete_eq::<T>(),
    ensures
        r == v@.contains(*x),
{
    proof {
        reveal(obeys_concrete_eq);
    }
    let mut i: usize = 0;
    while i < v.len()
        invariant
            i <= v@.len(),
            obeys_concrete_eq::<T>(),
            forall|j: int| 0 <= j < i ==> v@[j] != *x,
        decreases v@.len() - i,
    {
        proof {
            reveal(obeys_concrete_eq);
        }
        if v[i] == *x {
            return true;
        }
        i = i + 1;
    }
    false
}

/// Removes duplicate values, keeping first occurrences in order.
pub trait Distinct<T: PartialEq>: Sized + View<V = Seq<T>> {
    fn distinct(self) -> (r: Vec<T>)
        requires
            obeys_concrete_eq::<T>(),
        ensures
            r@ == distinct_seq(self@),
    ;
}

impl<T: PartialEq> Distinct<T> for Vec<T> {
    fn distinct(self) -> (r: Vec<T>) {
        let ghost xs = self@;
        let mut tmp: Vec<T> = Vec::new();
        proof {
            assert(xs.take(0) =~= Seq::<T>::empty());
        }
        for v in it: self.into_iter()
            invariant
                xs == self@,
                it.seq() == xs,
                obeys_concrete_eq::<T>(),
                tmp@ == distinct_seq(xs.take(it.index() as int)),
        {
            let ghost n = it.index() as int;
            proof {
                assert(v == xs[n]);
                assert(xs.take(n + 1).drop_last() =~= xs.take(n));
            }
            if !holds(&tmp, &v) {
                tmp.push(v);
            }
        }
        proof {
            assert(xs.take(xs.len() as int) =~= xs);
        }
        tmp
    }
}

/// Partitions a sequence into groups by a derived key.
pub trait GroupBy<T>: Sized + View<V = Seq<T>> {
    /// Each key that some element has maps to the elements with that key, in
    /// input order.
    fn group_by<K: PartialEq, F: Fn(&T) -> K>(self, get_key: F) -> (r: KeyMap<K, Vec<T>>)
        requires
            obeys_concrete_eq::<K>(),
            is_deterministic(get_key),
            forall|i: int| 0 <= i < self@.len() ==> get_key.requires((&#[trigger] self@[i],)),
        ensures
            r.wf(),
            groups_of(r@) == grouped(self@, keys_of(get_key, self@)),
            r.key_order() == distinct_seq(keys_of(get_key, self@)),
            images_returned(get_key, self@),
    ;
}

impl<T> GroupBy<T> for Vec<T> {
    fn group_by<K: PartialEq, F: Fn(&T) -> K>(self, get_key: F) -> (r: KeyMap<K, Vec<T>>) {
        let ghost xs = self@;
        let ghost ks = keys_of(get_key, xs);
        let mut dict: KeyMap<K, Vec<T>> = KeyMap::new();
        proof {
            assert(groups_of(dict@) =~= grouped(xs.take(0), ks.take(0)));
            assert(dict.key_order() =~= distinct_seq(ks.take(0)));
        }
        for v in it: self.into_iter()
            invariant
                xs == self@,
                ks == keys_of(get_key, xs),
                it.seq() == xs,
                dict.wf(),
                obeys_concrete_eq::<K>(),
                is_deterministic(get_key),
                forall|t: int| 0 <= t < xs.len() ==> get_key.requires((&#[trigger] xs[t],)),
                groups_of(dict@) == grouped(xs.take(it.index() as int), ks.take(it.index() as int)),
                dict.key_order() == distinct_seq(ks.take(it.index() as int)),
                images_returned(get_key, xs.take(it.index() as int)),
        {
            let ghost n = it.index() as int;
            let k = get_key(&v);
            proof {
                lemma_call_image(get_key, v, k);
                assert(v == xs[n]);
                assert(k == ks[n]);
            }
            proof {
                lemma_each_element_in_its_group(xs.take(n), ks.take(n));
                lemma_distinct_same_values(ks.take(n));
                assert(groups_of(dict@).contains_key(k) == dict@.contains_key(k));
            }
            dict.push_to(k, v);
            proof {
                let xs1 = xs.take(n + 1);
                let ks1 = ks.take(n + 1);
                assert forall|i: int| 0 <= i < xs1.len() implies get_key.ensures(
                    (&xs1[i],),
                    #[trigger] image(get_key, xs1[i]),
                ) by {
                    if i < n {
                        assert(xs1[i] == xs.take(n)[i]);
                    }
                }
                assert(xs1.drop_last() =~= xs.take(n));
                assert(ks1.drop_last() =~= ks.take(n));
                assert(groups_of(dict@) =~= grouped(xs1, ks1));
            }
        }
        proof {
            assert(xs.take(xs.len() as int) =~= xs);
            assert(ks.take(ks.len() as int) =~= ks);
        }
        dict
    }
}

/// Groups a sequence by key, then reduces every group with each of a set of
/// named aggregators, for key types that are `Copy`.
pub trait GroupByAggrCopy<T>: Sized + View<V = Seq<T>> {
    fn group_by_aggr<'a, K: PartialEq + Copy, F: Fn(&T) -> K, R, A: Fn(&Vec<T>) -> R>(
        self,
        get_key: F,
        aggrs: KeyMap<&'a str, A>,
    ) -> (r: KeyMap<K, KeyMap<&'a str, R>>)
        requires
            obeys_concrete_eq::<K>(),
            is_deterministic(get_key),
            forall|i: int| 0 <= i < self@.len() ==> get_key.requires((&#[trigger] self@[i],)),
            aggrs.wf(),
            accepts_groups(aggrs@, grouped(self@, keys_of(get_key, self@))),
        ensures
            aggregates_of(aggrs@, grouped(self@, keys_of(get_key, self@)), r),
            images_returned(get_key, self@),
    ;
}

/// Groups a sequence by key, then reduces every group with each of a set of
/// named aggregators, for key types that are `Clone`. The result is the one
/// that `GroupByAggrCopy` gives: each key moves from the partition into the
/// result, so neither variant needs to duplicate it.
pub trait GroupByAggrClone<T>: Sized + View<V = Seq<T>> {
    fn group_by_aggr_clone<'a, K: PartialEq + Clone, F: Fn(&T) -> K, R, A: Fn(&Vec<T>) -> R>(
        self,
        get_key: F,
        aggrs: KeyMap<&'a str, A>,
    ) -> (r: KeyMap<K, KeyMap<&'a str, R>>)
        requires
            obeys_concrete_eq::<K>(),
            is_deterministic(get_key),
            forall|i: int| 0 <= i < self@.len() ==> get_key.requires((&#[trigger] self@[i],)),
            aggrs.wf(),
            accepts_groups(aggrs@, grouped(self@, keys_of(get_key, self@))),
        ensures
            aggregates_of(aggrs@, grouped(self@, keys_of(get_key, self@)), r),
            images_returned(get_key, self@),
    ;
}

/// Groups `xs` and reduces each group; every key moves from the partition
/// into the result, so no key is ever duplicated.
pub fn group_and_aggregate<'a, T, K: PartialEq, F: Fn(&T) -> K, R, A: Fn(&Vec<T>) -> R>(
    xs: Vec<T>,
    get_key: F,
    aggrs: &KeyMap<&'a str, A>,
) -> (r: KeyMap<K, KeyMap<&'a str, R>>)
    requires
        obeys_concrete_eq::<K>(),
        is_deterministic(get_key),
        forall|i: int| 0 <= i < xs@.len() ==> get_key.requires((&#[trigger] xs@[i],)),
        aggrs.wf(),
        accepts_groups(aggrs@, grouped(xs@, keys_of(get_key, xs@))),
    ensures
        aggregates_of(aggrs@, grouped(xs@, keys_of(get_key, xs@)), r),
        images_returned(get_key, xs@),
{
    let ghost gs = grouped(xs@, keys_of(get_key, xs@));
    let groups = xs.group_by(get_key);
    let ghost gm = groups@;
    let r = aggregate(groups, aggrs);
    proof {
        assert(groups_of(gm).dom() =~= gm.dom());
        assert(gs.dom() =~= r@.dom());
        assert forall|k: K| #[trigger] gs.contains_key(k) implies {
            &&& r@[k].wf()
            &&& r@[k]@.dom() == aggrs@.dom()
            &&& forall|n: &'a str| #[trigger]
                aggrs@.contains_key(n) ==> exists|g: Vec<T>|
                    g@ == gs[k] && aggrs@[n].ensures((&g,), r@[k]@[n])
        } by {
            assert(gm.contains_key(k));
            assert(groups_of(gm)[k] == gm[k]@);
            assert forall|n: &'a str| #[trigger] aggrs@.contains_key(n) implies exists|g: Vec<T>|
                g@ == gs[k] && aggrs@[n].ensures((&g,), r@[k]@[n]) by {
                assert(gm[k]@ == gs[k]);
            }
        }
    }
    r
}

impl<T> GroupByAggrCopy<T> for Vec<T> {
    fn group_by_aggr<'a, K: PartialEq + Copy, F: Fn(&T) -> K, R, A: Fn(&Vec<T>) -> R>(
        self,
        get_key: F,
        aggrs: KeyMap<&'a str, A>,
    ) -> (r: KeyMap<K, KeyMap<&'a str, R>>) {
        group_and_aggregate(self, get_key, &aggrs)
    }
}

impl<T> GroupByAggrClone<T> for Vec<T> {
    fn group_by_aggr_clone<'a, K: PartialEq + Clone, F: Fn(&T) -> K, R, A: Fn(&Vec<T>) -> R>(
        self,
        get_key: F,
        aggrs: KeyMap<&'a str, A>,
    ) -> (r: KeyMap<K, KeyMap<&'a str, R>>) {
        group_and_aggregate(self, get_key, &aggrs)
    }
}

} // verus!
