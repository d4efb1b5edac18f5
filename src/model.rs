use vstd::prelude::*;

verus! {

/// A caller's function gives at most one result for each argument.
pub open spec fn is_deterministic<T, K, F: Fn(&T) -> K>(f: F) -> bool {
    forall|v: &T, k1: K, k2: K|
        #[trigger] f.ensures((v,), k1) && #[trigger] f.ensures((v,), k2) ==> k1 == k2
}

/// What the function `f` gives for `v`.
pub open spec fn image<T, K, F: Fn(&T) -> K>(f: F, v: T) -> K {
    choose|k: K| f.ensures((&v,), k)
}

/// Each element of `xs` has an image that `f` returned for it.
pub open spec fn images_returned<T, K, F: Fn(&T) -> K>(f: F, xs: Seq<T>) -> bool {
    forall|i: int| 0 <= i < xs.len() ==> f.ensures((&xs[i],), #[trigger] image(f, xs[i]))
}

/// The keys of a sequence, element by element.
pub open spec fn keys_of<T, K, F: Fn(&T) -> K>(f: F, xs: Seq<T>) -> Seq<K> {
    xs.map_values(|v: T| image(f, v))
}

/// The groups of `xs` when its `i`th element has key `ks[i]`: each key that
/// occurs maps to the elements that carry it, in input order.
pub open spec fn grouped<T, K>(xs: Seq<T>, ks: Seq<K>) -> Map<K, Seq<T>>
    decreases xs.len(),
{
    if xs.len() == 0 || ks.len() == 0 {
        Map::empty()
    } else {
        let m = grouped(xs.drop_last(), ks.drop_last());
        let k = ks.last();
        m.insert(k, (if m.contains_key(k) { m[k] } else { Seq::empty() }).push(xs.last()))
    }
}

/// The lists of a map of groups, seen as sequences.
pub open spec fn groups_of<K, T>(m: Map<K, Vec<T>>) -> Map<K, Seq<T>> {
    m.map_values(|g: Vec<T>| g@)
}

/// A call of a function returns its image.
pub proof fn lemma_call_image<T, K, F: Fn(&T) -> K>(f: F, v: T, k: K)
    requires
        is_deterministic(f),
        f.ensures((&v,), k),
    ensures
        image(f, v) == k,
{
}

/// The values of `xs`, each once, in order of first occurrence.
pub open spec fn distinct_seq<T>(xs: Seq<T>) -> Seq<T>
    decreases xs.len(),
{
    if xs.len() == 0 {
        Seq::empty()
    } else {
        let d = distinct_seq(xs.drop_last());
        if d.contains(xs.last()) {
            d
        } else {
            d.push(xs.last())
        }
    }
}

/// Removing duplicates keeps exactly the values that occur.
pub proof fn lemma_distinct_same_values<T>(xs: Seq<T>)
    ensures
        forall|x: T| #[trigger] distinct_seq(xs).contains(x) <==> xs.contains(x),
    decreases xs.len(),
{
    if xs.len() > 0 {
        let p = xs.drop_last();
        lemma_distinct_same_values(p);
        assert forall|x: T| #[trigger] distinct_seq(xs).contains(x) <==> xs.contains(x) by {
            if xs.contains(x) && x != xs.last() {
                let i = choose|i: int| 0 <= i < xs.len() && xs[i] == x;
                assert(p[i] == x);
            }
            if p.contains(x) {
                let i = choose|i: int| 0 <= i < p.len() && p[i] == x;
                assert(xs[i] == x);
            }
            if distinct_seq(xs).contains(x) && !distinct_seq(p).contains(x) {
                assert(x == xs.last());
                assert(xs[xs.len() - 1] == x);
            }
            if x == xs.last() && !distinct_seq(p).contains(x) {
                assert(distinct_seq(xs) == distinct_seq(p).push(x));
                assert(distinct_seq(xs)[distinct_seq(p).len() as int] == x);
            }
            if distinct_seq(p).contains(x) {
                let j = choose|j: int| 0 <= j < distinct_seq(p).len() && distinct_seq(p)[j] == x;
                assert(distinct_seq(xs)[j] == x);
            }
        }
    }
}

/// Removing duplicates leaves no duplicates.
pub proof fn lemma_distinct_no_duplicates<T>(xs: Seq<T>)
    ensures
        distinct_seq(xs).no_duplicates(),
    decreases xs.len(),
{
    if xs.len() > 0 {
        lemma_distinct_no_duplicates(xs.drop_last());
    }
}

/// A sequence without duplicates is its own duplicate-free form.
pub proof fn lemma_distinct_of_unique<T>(xs: Seq<T>)
    requires
        xs.no_duplicates(),
    ensures
        distinct_seq(xs) == xs,
    decreases xs.len(),
{
    if xs.len() > 0 {
        let p = xs.drop_last();
        assert(p.no_duplicates());
        lemma_distinct_of_unique(p);
        if p.contains(xs.last()) {
            let i = choose|i: int| 0 <= i < p.len() && p[i] == xs.last();
            assert(xs[i] == xs[xs.len() - 1]);
        }
        assert(p.push(xs.last()) =~= xs);
    }
}

} // verus!
