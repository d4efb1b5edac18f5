use crate::keymap::KeyMap;
use crate::model::groups_of;
use vstd::prelude::*;

verus! {

/// Every aggregator accepts a list that holds the group `s`.
pub open spec fn accepts_group<N, T, R, A: Fn(&Vec<T>) -> R>(aggrs: Map<N, A>, s: Seq<T>) -> bool {
    forall|n: N, g: &Vec<T>| aggrs.contains_key(n) && g@ == s ==> #[trigger] aggrs[n].requires((g,))
}

/// Every aggregator accepts each of the groups, and nothing more is asked of it.
pub open spec fn accepts_groups<K, N, T, R, A: Fn(&Vec<T>) -> R>(
    aggrs: Map<N, A>,
    groups: Map<K, Seq<T>>,
) -> bool {
    forall|k: K| #[trigger] groups.contains_key(k) ==> accepts_group(aggrs, groups[k])
}

/// `r` holds, under each aggregator's name, what that aggregator returned on `g`.
pub open spec fn aggregated_from<N, T, R, A: Fn(&Vec<T>) -> R>(
    aggrs: Map<N, A>,
    g: Vec<T>,
    r: KeyMap<N, R>,
) -> bool {
    &&& r.wf()
    &&& r@.dom() == aggrs.dom()
    &&& forall|n: N| #[trigger] aggrs.contains_key(n) ==> aggrs[n].ensures((&g,), r@[n])
}

/// `r` maps each key of `groups` to the results of every aggregator on that
/// key's group, under the aggregators' names, and holds no other key.
pub open spec fn aggregates_of<K, N, T, R, A: Fn(&Vec<T>) -> R>(
    aggrs: Map<N, A>,
    groups: Map<K, Seq<T>>,
    r: KeyMap<K, KeyMap<N, R>>,
) -> bool {
    &&& r.wf()
    &&& r@.dom() == groups.dom()
    &&& forall|k: K| #[trigger]
        groups.contains_key(k) ==> {
            &&& r@[k].wf()
            &&& r@[k]@.dom() == aggrs.dom()
            &&& forall|n: N| #[trigger]
                aggrs.contains_key(n) ==> exists|g: Vec<T>|
                    g@ == groups[k] && aggrs[n].ensures((&g,), r@[k]@[n])
        }
}

/// Applies every aggregator to one group, in the aggregators' order.
pub fn aggregate_group<N: Copy, T, R, A: Fn(&Vec<T>) -> R>(
    g: &Vec<T>,
    aggrs: &KeyMap<N, A>,
) -> (r: KeyMap<N, R>)
    requires
        aggrs.wf(),
        accepts_group(aggrs@, g@),
    ensures
        aggregated_from(aggrs@, *g, r),
{
    let ghost es = aggrs.entry_seq();
    proof {
        aggrs.lemma_entries();
    }
    let mut sub: KeyMap<N, R> = KeyMap::new();
    let n = aggrs.entry_count();
    let mut i: usize = 0;
    while i < n
        invariant
            n == es.len(),
            es == aggrs.entry_seq(),
            i <= n,
            aggrs.wf(),
            accepts_group(aggrs@, g@),
            forall|s: int, t: int| 0 <= s < t < es.len() ==> es[s].0 != es[t].0,
            forall|t: int|
                0 <= t < es.len() ==> #[trigger] aggrs@.contains_key(es[t].0) && aggrs@[es[t].0]
                    == es[t].1,
            sub.wf(),
            sub@.dom() == Set::new(|m: N| exists|t: int| 0 <= t < i && es[t].0 == m),
            forall|t: int| 0 <= t < i ==> es[t].1.ensures((g,), #[trigger] sub@[es[t].0]),
        decreases n - i,
    {
        let name: N = *aggrs.key_at(i);
        let aggr = aggrs.value_at(i);
        proof {
            assert(aggrs@.contains_key(es[i as int].0));
        }
        let res = aggr(g);
        proof {
            if sub@.contains_key(name) {
                let t = choose|t: int| 0 <= t < i && es[t].0 == name;
            }
        }
        let ghost before = sub@;
        sub.insert_new(name, res);
        proof {
            assert(sub@.dom() =~= Set::new(|m: N| exists|t: int| 0 <= t < i + 1 && es[t].0 == m)) by {
                assert forall|m: N| sub@.dom().contains(m) implies exists|t: int|
                    0 <= t < i + 1 && es[t].0 == m by {
                    if m != name {
                        let t = choose|t: int| 0 <= t < i && es[t].0 == m;
                    } else {
                        assert(es[i as int].0 == m);
                    }
                }
            }
            assert forall|t: int| 0 <= t < i + 1 implies es[t].1.ensures((g,), #[trigger] sub@[es[t].0]) by {
                if t < i {
                    assert(before.dom().contains(es[t].0));
                }
            }
        }
        i = i + 1;
    }
    proof {
        assert(sub@.dom() =~= aggrs@.dom()) by {
            assert forall|m: N| aggrs@.dom().contains(m) implies sub@.dom().contains(m) by {
                let t = choose|t: int| 0 <= t < es.len() && es[t].0 == m;
                assert(exists|t: int| 0 <= t < i && es[t].0 == m);
            }
            assert forall|m: N| sub@.dom().contains(m) implies aggrs@.dom().contains(m) by {
                let t = choose|t: int| 0 <= t < i && es[t].0 == m;
            }
        }
        assert forall|m: N| #[trigger] aggrs@.contains_key(m) implies aggrs@[m].ensures((g,), sub@[m]) by {
            let t = choose|t: int| 0 <= t < es.len() && es[t].0 == m;
            assert(sub@[es[t].0] == sub@[m]);
        }
    }
    sub
}

/// Reduces each group with every aggregator: the result maps each group's key
/// to the aggregators' results on that group, under the aggregators' names.
pub fn aggregate<K, N: Copy, T, R, A: Fn(&Vec<T>) -> R>(
    groups: KeyMap<K, Vec<T>>,
    aggrs: &KeyMap<N, A>,
) -> (r: KeyMap<K, KeyMap<N, R>>)
    requires
        groups.wf(),
        aggrs.wf(),
        accepts_groups(aggrs@, groups_of(groups@)),
    ensures
        r.wf(),
        r@.dom() == groups@.dom(),
        forall|k: K| #[trigger]
            groups@.contains_key(k) ==> aggregated_from(aggrs@, groups@[k], r@[k]),
{
    let ghost es = groups.entry_seq();
    let ghost gm = groups@;
    proof {
        groups.lemma_entries();
    }
    let mut dict: KeyMap<K, KeyMap<N, R>> = KeyMap::new();
    let entries = groups.into_entries();
    for e in it: entries.into_iter()
        invariant
            it.seq() == es,
            aggrs.wf(),
            accepts_groups(aggrs@, groups_of(gm)),
            forall|s: int, t: int| 0 <= s < t < es.len() ==> es[s].0 != es[t].0,
            forall|t: int|
                0 <= t < es.len() ==> #[trigger] gm.contains_key(es[t].0) && gm[es[t].0] == es[t].1,
            dict.wf(),
            dict@.dom() == Set::new(|k: K| exists|t: int| 0 <= t < it.index() && es[t].0 == k),
            forall|t: int|
                0 <= t < it.index() ==> aggregated_from(aggrs@, es[t].1, #[trigger] dict@[es[t].0]),
    {
        let ghost i = it.index() as int;
        let (k, g) = e;
        proof {
            assert(gm.contains_key(es[i].0));
            assert(groups_of(gm).contains_key(k));
            assert(groups_of(gm)[k] == g@);
            if dict@.contains_key(k) {
                let t = choose|t: int| 0 <= t < i && es[t].0 == k;
            }
        }
        let sub = aggregate_group(&g, aggrs);
        let ghost before = dict@;
        dict.insert_new(k, sub);
        proof {
            assert(dict@.dom() =~= Set::new(|m: K| exists|t: int| 0 <= t < i + 1 && es[t].0 == m)) by {
                assert forall|m: K| dict@.dom().contains(m) implies exists|t: int|
                    0 <= t < i + 1 && es[t].0 == m by {
                    if m != k {
                        let t = choose|t: int| 0 <= t < i && es[t].0 == m;
                    } else {
                        assert(es[i].0 == m);
                    }
                }
            }
            assert forall|t: int| 0 <= t < i + 1 implies aggregated_from(
                aggrs@,
                es[t].1,
                #[trigger] dict@[es[t].0],
            ) by {
                if t < i {
                    assert(before.dom().contains(es[t].0));
                }
            }
        }
    }
    proof {
        assert(dict@.dom() =~= gm.dom()) by {
            assert forall|m: K| gm.dom().contains(m) implies dict@.dom().contains(m) by {
                let t = choose|t: int| 0 <= t < es.len() && es[t].0 == m;
            }
            assert forall|m: K| dict@.dom().contains(m) implies gm.dom().contains(m) by {
                let t = choose|t: int| 0 <= t < es.len() && es[t].0 == m;
            }
        }
        assert forall|m: K| #[trigger] gm.contains_key(m) implies aggregated_from(
            aggrs@,
            gm[m],
            dict@[m],
        ) by {
            let t = choose|t: int| 0 <= t < es.len() && es[t].0 == m;
            assert(dict@[es[t].0] == dict@[m]);
        }
    }
    dict
}

} // verus!
