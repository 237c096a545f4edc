//! Grouping duration samples by key sequence, keeping first-seen order.

use vstd::prelude::*;
use crate::key::PhonemeKey;
use crate::model::{
    cluster_entries, copy_samples, copy_u16s, distinct_groups, generic_entries, group_of, has_group,
    lemma_group_of_distinct,
    strings_view, ClusterTiming, GenericTiming, PhonemeType,
};
use crate::table::{view_entries, KeyedTable};
use crate::tree::samples_view;

verus! {

/// Samples grouped by key sequence.
pub type SampleGroups<K> = KeyedTable<Vec<K>, Vec<Vec<u16>>>;

/// The groups as (key, samples) views, in first-seen order.
pub open spec fn groups_view<K: PhonemeKey>(t: SampleGroups<K>) -> Seq<(Seq<K::V>, Seq<Seq<u16>>)> {
    t.items().map_values(|e: (Seq<K::V>, Vec<Vec<u16>>)| (e.0, samples_view(e.1@)))
}

/// The groups hold exactly the samples of `es`, grouped by key.
pub open spec fn groups_match<K: PhonemeKey>(t: SampleGroups<K>, es: Seq<(Seq<K::V>, Seq<Seq<u16>>)>) -> bool {
    &&& t.wf()
    &&& forall|p: Seq<K::V>| #[trigger] t.map().contains_key(p) == has_group(es, p)
    &&& forall|p: Seq<K::V>| t.map().contains_key(p) ==> samples_view((#[trigger] t.map()[p])@) == group_of(es, p)
}

/// A table's map and its groups agree.
pub proof fn lemma_groups_view<K: PhonemeKey>(t: SampleGroups<K>)
    requires
        t.wf(),
    ensures
        distinct_groups(groups_view(t)),
        forall|p: Seq<K::V>| #[trigger] has_group(groups_view(t), p) == t.map().contains_key(p),
        forall|i: int| 0 <= i < groups_view(t).len() ==>
            samples_view(t.map()[(#[trigger] groups_view(t)[i]).0]@) == groups_view(t)[i].1,
{
    let g = groups_view(t);
    assert forall|i: int| 0 <= i < g.len() implies #[trigger] g[i].0 == t.items()[i].0 by {}
    assert forall|p: Seq<K::V>| #[trigger] has_group(g, p) == t.map().contains_key(p) by {
        if has_group(g, p) {
            let i = choose|i: int| 0 <= i < g.len() && #[trigger] g[i].0 == p;
            assert(t.items()[i].0 == p);
        }
        if t.has_key(p) {
            let i = t.index_of(p);
            assert(g[i].0 == p);
        }
    }
    assert forall|i: int| 0 <= i < g.len() implies samples_view(t.map()[(#[trigger] g[i]).0]@) == g[i].1 by {
        let p = g[i].0;
        assert(t.items()[i].0 == p);
        assert(t.has_key(p));
        let c = t.index_of(p);
        assert(t.items()[c].0 == p);
        assert(c == i);
    }
}

/// Add `samples` to the group of `key`, creating the group if needed.
pub fn add_samples<K: PhonemeKey>(t: &mut SampleGroups<K>, key: &Vec<K>, samples: &Vec<Vec<u16>>)
    requires
        old(t).wf(),
    ensures
        final(t).wf(),
        forall|es: Seq<(Seq<K::V>, Seq<Seq<u16>>)>| groups_match(*old(t), es) ==>
            groups_match(*final(t), es.push((key.deep_view(), samples_view(samples@)))),
{
    let mut v: Vec<Vec<u16>> = match t.get(key) {
        Some(prev) => copy_samples(prev),
        None => Vec::new(),
    };
    let ghost base = samples_view(v@);
    let n = samples.len();
    let mut i: usize = 0;
    while i < n
        invariant
            n == samples@.len(),
            0 <= i <= n,
            samples_view(v@) == base + samples_view(samples@.take(i as int)),
        decreases n - i,
    {
        let ghost before = v@;
        v.push(copy_u16s(&samples[i]));
        assert(samples_view(v@) =~= samples_view(before).push(samples@[i as int]@));
        assert(samples_view(samples@.take(i + 1)) =~= samples_view(samples@.take(i as int)).push(samples@[i as int]@));
        i = i + 1;
    }
    assert(samples@.take(n as int) =~= samples@);
    let ghost t0 = *t;
    t.insert(key.key_clone(), v);
    proof {
        let k = key.deep_view();
        assert forall|es: Seq<(Seq<K::V>, Seq<Seq<u16>>)>| groups_match(t0, es) implies
            groups_match(*t, es.push((k, samples_view(samples@)))) by {
            let es2 = es.push((k, samples_view(samples@)));
            assert(es2.drop_last() =~= es);
            assert forall|p: Seq<K::V>| #[trigger] t.map().contains_key(p) == has_group(es2, p) by {
                if has_group(es, p) {
                    let i = choose|i: int| 0 <= i < es.len() && #[trigger] es[i].0 == p;
                    assert(es2[i].0 == p);
                }
                if p == k {
                    assert(es2[es.len() as int].0 == p);
                }
                if has_group(es2, p) && p != k {
                    let i = choose|i: int| 0 <= i < es2.len() && #[trigger] es2[i].0 == p;
                    assert(es[i].0 == p);
                }
            }
            assert forall|p: Seq<K::V>| t.map().contains_key(p) implies samples_view((#[trigger] t.map()[p])@) == group_of(es2, p) by {
                if p == k {
                    if !t0.map().contains_key(p) {
                        assert(group_of(es, p) =~= Seq::<Seq<u16>>::empty()) by {
                            lemma_group_of_absent(es, p);
                        }
                        assert(base =~= Seq::<Seq<u16>>::empty());
                    }
                }
            }
        }
    }
}

/// The groups of a table that matches `es` group exactly as `es` does, with
/// each key once.
pub proof fn lemma_groups_result<K: PhonemeKey>(t: SampleGroups<K>, es: Seq<(Seq<K::V>, Seq<Seq<u16>>)>)
    requires
        groups_match(t, es),
    ensures
        distinct_groups(groups_view(t)),
        forall|p: Seq<K::V>| #[trigger] has_group(groups_view(t), p) == has_group(es, p),
        forall|p: Seq<K::V>| #[trigger] group_of(groups_view(t), p) == group_of(es, p),
{
    lemma_groups_view(t);
    let g = groups_view(t);
    assert forall|p: Seq<K::V>| #[trigger] group_of(g, p) == group_of(es, p) by {
        lemma_group_of_distinct(g, p);
        if has_group(g, p) {
            let i = choose|i: int| 0 <= i < g.len() && #[trigger] g[i].0 == p;
            assert(group_of(g, p) == g[i].1);
        } else {
            lemma_group_of_absent(es, p);
        }
    }
}

/// A key that no entry has has no samples.
pub proof fn lemma_group_of_absent<V>(es: Seq<(Seq<V>, Seq<Seq<u16>>)>, p: Seq<V>)
    requires
        !has_group(es, p),
    ensures
        group_of(es, p) == Seq::<Seq<u16>>::empty(),
    decreases es.len(),
{
    if es.len() > 0 {
        let d = es.drop_last();
        assert(!has_group(d, p)) by {
            if has_group(d, p) {
                let i = choose|i: int| 0 <= i < d.len() && #[trigger] d[i].0 == p;
                assert(es[i].0 == p);
            }
        }
        lemma_group_of_absent(d, p);
        assert(es[es.len() - 1].0 != p);
        assert(group_of(es, p) =~= Seq::<Seq<u16>>::empty());
    }
}

/// One cluster timing per group, in first-seen order.
pub fn groups_to_cluster_timings(t: SampleGroups<String>) -> (r: Vec<ClusterTiming>)
    requires
        t.wf(),
    ensures
        cluster_entries(r@) == groups_view(t),
{
    let ghost g = groups_view(t);
    let items = t.into_entries();
    let mut out: Vec<ClusterTiming> = Vec::new();
    let n = items.len();
    let mut i: usize = 0;
    while i < n
        invariant
            n == items@.len(),
            view_entries(items@) == t.items(),
            g == groups_view(t),
            0 <= i <= n,
            cluster_entries(out@) == g.take(i as int),
        decreases n - i,
    {
        let phonemes = crate::model::copy_strings(&items[i].0);
        let samples = copy_samples(&items[i].1);
        let ghost before = out@;
        proof {
            assert(view_entries(items@)[i as int] == (items@[i as int].0.deep_view(), items@[i as int].1));
            assert(strings_view(phonemes@) =~= items@[i as int].0.deep_view());
            assert(samples_view(samples@) =~= samples_view(items@[i as int].1@));
        }
        out.push(ClusterTiming { phonemes, samples });
        assert(cluster_entries(out@) =~= cluster_entries(before).push(g[i as int]));
        assert(g.take(i + 1) =~= g.take(i as int).push(g[i as int]));
        i = i + 1;
    }
    assert(g.take(n as int) =~= g);
    out
}

/// One generic timing per group, in first-seen order.
pub fn groups_to_generic_timings(t: SampleGroups<PhonemeType>) -> (r: Vec<GenericTiming>)
    requires
        t.wf(),
    ensures
        generic_entries(r@) == groups_view(t),
{
    let ghost g = groups_view(t);
    let items = t.into_entries();
    let mut out: Vec<GenericTiming> = Vec::new();
    let n = items.len();
    let mut i: usize = 0;
    while i < n
        invariant
            n == items@.len(),
            view_entries(items@) == t.items(),
            g == groups_view(t),
            0 <= i <= n,
            generic_entries(out@) == g.take(i as int),
        decreases n - i,
    {
        let types = crate::tree::copy_types(&items[i].0);
        let samples = copy_samples(&items[i].1);
        let ghost before = out@;
        proof {
            assert(view_entries(items@)[i as int] == (items@[i as int].0.deep_view(), items@[i as int].1));
            assert(types@ =~= items@[i as int].0.deep_view());
            assert(samples_view(samples@) =~= samples_view(items@[i as int].1@));
        }
        out.push(GenericTiming { types, samples });
        assert(generic_entries(out@) =~= generic_entries(before).push(g[i as int]));
        assert(g.take(i + 1) =~= g.take(i as int).push(g[i as int]));
        i = i + 1;
    }
    assert(g.take(n as int) =~= g);
    out
}

} // verus!
