use crate::keymap::KeyMap;
use crate::model::{image, images_returned, is_deterministic, lemma_call_image};
use vstd::laws_eq::obeys_concrete_eq;
use vstd::prelude::*;

verus! {

/// The map that rewriting every entry of `es` gives: each key `k` becomes
/// `image(kf, k)` and each value `v` becomes `image(vf, v)`. Where two keys
/// meet, the later entry wins.
pub open spec fn remapped<K1, V1, K, V, A: Fn(&K1) -> K, B: Fn(&V1) -> V>(
    es: Seq<(K1, V1)>,
    kf: A,
    vf: B,
) -> Map<K, V>
    decreases es.len(),
{
    if es.len() == 0 {
        Map::empty()
    } else {
        remapped(es.drop_last(), kf, vf).insert(image(kf, es.last().0), image(vf, es.last().1))
    }
}

impl<K1, V1> KeyMap<K1, V1> {
    /// Rewrites keys and values. Entries are visited in key order, so where
    /// two keys map to one new key, the value of the later entry is kept.
    pub fn map<K: PartialEq, V, A: Fn(&K1) -> K, B: Fn(&V1) -> V>(self, kfn: A, vfn: B) -> (r: KeyMap<
        K,
        V,
    >)
        requires
            self.wf(),
            obeys_concrete_eq::<K>(),
            is_deterministic(kfn),
            is_deterministic(vfn),
            forall|i: int|
                0 <= i < self.entry_seq().len() ==> kfn.requires((&#[trigger] self.entry_seq()[i].0,)),
            forall|i: int|
                0 <= i < self.entry_seq().len() ==> vfn.requires((&#[trigger] self.entry_seq()[i].1,)),
        ensures
            r.wf(),
            r@ == remapped(self.entry_seq(), kfn, vfn),
            images_returned(kfn, self.key_order()),
            images_returned(vfn, self.entry_seq().map_values(|e: (K1, V1)| e.1)),
    {
        let ghost es = self.entry_seq();
        let mut dict: KeyMap<K, V> = KeyMap::new();
        let n = self.entry_count();
        let mut i: usize = 0;
        proof {
            assert(es.take(0) =~= Seq::<(K1, V1)>::empty());
        }
        while i < n
            invariant
                n == es.len(),
                es == self.entry_seq(),
                i <= n,
                obeys_concrete_eq::<K>(),
                is_deterministic(kfn),
                is_deterministic(vfn),
                forall|t: int| 0 <= t < es.len() ==> kfn.requires((&#[trigger] es[t].0,)),
                forall|t: int| 0 <= t < es.len() ==> vfn.requires((&#[trigger] es[t].1,)),
                dict.wf(),
                dict@ == remapped(es.take(i as int), kfn, vfn),
                forall|t: int| 0 <= t < i ==> kfn.ensures((&es[t].0,), #[trigger] image(kfn, es[t].0)),
                forall|t: int| 0 <= t < i ==> vfn.ensures((&es[t].1,), #[trigger] image(vfn, es[t].1)),
            decreases n - i,
        {
            let k2 = kfn(self.key_at(i));
            let v2 = vfn(self.value_at(i));
            proof {
                lemma_call_image(kfn, es[i as int].0, k2);
                lemma_call_image(vfn, es[i as int].1, v2);
                assert(es.take(i + 1).drop_last() =~= es.take(i as int));
            }
            dict.insert(k2, v2);
            i = i + 1;
        }
        proof {
            assert(es.take(n as int) =~= es);
            let ko = self.key_order();
            let vo = es.map_values(|e: (K1, V1)| e.1);
            assert forall|t: int| 0 <= t < ko.len() implies kfn.ensures((&ko[t],), #[trigger] image(kfn, ko[t])) by {
                assert(ko[t] == es[t].0);
            }
            assert forall|t: int| 0 <= t < vo.len() implies vfn.ensures((&vo[t],), #[trigger] image(vfn, vo[t])) by {
                assert(vo[t] == es[t].1);
            }
        }
        dict
    }

    /// Rewrites every value and keeps every key.
    pub fn map1<V, A: Fn(&V1) -> V>(self, vfn: A) -> (r: KeyMap<K1, V>)
        where
            K1: Copy,
        requires
            self.wf(),
            is_deterministic(vfn),
            forall|i: int|
                0 <= i < self.entry_seq().len() ==> vfn.requires((&#[trigger] self.entry_seq()[i].1,)),
        ensures
            r.wf(),
            r@ == self@.map_values(|v: V1| image(vfn, v)),
            images_returned(vfn, self.entry_seq().map_values(|e: (K1, V1)| e.1)),
    {
        let ghost es = self.entry_seq();
        proof {
            self.lemma_entries();
        }
        let mut dict: KeyMap<K1, V> = KeyMap::new();
        let n = self.entry_count();
        let mut i: usize = 0;
        while i < n
            invariant
                n == es.len(),
                es == self.entry_seq(),
                i <= n,
                self.wf(),
                is_deterministic(vfn),
                forall|t: int| 0 <= t < es.len() ==> vfn.requires((&#[trigger] es[t].1,)),
                forall|s: int, t: int| 0 <= s < t < es.len() ==> es[s].0 != es[t].0,
                forall|t: int|
                    0 <= t < es.len() ==> #[trigger] self@.contains_key(es[t].0) && self@[es[t].0]
                        == es[t].1,
                dict.wf(),
                dict@.dom() == Set::new(|k: K1| exists|t: int| 0 <= t < i && es[t].0 == k),
                forall|t: int| 0 <= t < i ==> #[trigger] dict@[es[t].0] == image(vfn, es[t].1),
                forall|t: int| 0 <= t < i ==> vfn.ensures((&es[t].1,), #[trigger] image(vfn, es[t].1)),
            decreases n - i,
        {
            let k: K1 = *self.key_at(i);
            let v2 = vfn(self.value_at(i));
            proof {
                lemma_call_image(vfn, es[i as int].1, v2);
                if dict@.contains_key(k) {
                    let t = choose|t: int| 0 <= t < i && es[t].0 == k;
                }
            }
            let ghost before = dict@;
            dict.insert_new(k, v2);
            proof {
                assert(dict@.dom() =~= Set::new(|m: K1| exists|t: int| 0 <= t < i + 1 && es[t].0 == m))
                    by {
                    assert forall|m: K1| dict@.dom().contains(m) implies exists|t: int|
                        0 <= t < i + 1 && es[t].0 == m by {
                        if m != k {
                            let t = choose|t: int| 0 <= t < i && es[t].0 == m;
                        } else {
                            assert(es[i as int].0 == m);
                        }
                    }
                }
                assert forall|t: int| 0 <= t < i + 1 implies #[trigger] dict@[es[t].0] == image(
                    vfn,
                    es[t].1,
                ) by {
                    if t < i {
                        assert(before.dom().contains(es[t].0));
                    }
                }
            }
            i = i + 1;
        }
        proof {
            let target = self@.map_values(|v: V1| image(vfn, v));
            assert(dict@.dom() =~= target.dom()) by {
                assert forall|m: K1| target.dom().contains(m) implies dict@.dom().contains(m) by {
                    let t = choose|t: int| 0 <= t < es.len() && es[t].0 == m;
                }
                assert forall|m: K1| dict@.dom().contains(m) implies target.dom().contains(m) by {
                    let t = choose|t: int| 0 <= t < i && es[t].0 == m;
                }
            }
            assert forall|m: K1| #[trigger] target.contains_key(m) implies dict@[m] == target[m] by {
                let t = choose|t: int| 0 <= t < es.len() && es[t].0 == m;
                assert(dict@[es[t].0] == image(vfn, es[t].1));
            }
            assert(dict@ =~= target);
            let vo = es.map_values(|e: (K1, V1)| e.1);
            assert forall|t: int| 0 <= t < vo.len() implies vfn.ensures((&vo[t],), #[trigger] image(vfn, vo[t])) by {
                assert(vo[t] == es[t].1);
            }
        }
        dict
    }
}

} // verus!
