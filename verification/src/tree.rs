//! Prefix trees holding duration samples, keyed by phoneme or phoneme type.

use vstd::prelude::*;
use crate::key::PhonemeKey;
use crate::model::{
    distinct_groups, group_of, has_group, cluster_entries, cluster_group, copy_samples, generic_entries, generic_group, strings_view, ClusterTiming, GenericTiming, PhonemeType,
    TimingMetadata, TimingModel,
};

verus! {

/// A node in a phoneme timing trie.
///
/// Each child is reached through one key; a node's `entries` hold the
/// duration samples recorded for the path from the root to it.
#[derive(Debug)]
pub struct TreeNode<K> {
    /// Child nodes, each reached through its key. A key should occur at
    /// most once (see `wf`); lookups follow the first child with a key.
    pub children: Vec<(K, TreeNode<K>)>,
    /// Duration samples in milliseconds. Each inner list is one
    /// observation: `[duration_phoneme_1, duration_phoneme_2, ...]`.
    pub entries: Vec<Vec<u16>>,
}

/// The first child whose key has view `k`.
pub open spec fn find_child<K: DeepView>(cs: Seq<(K, TreeNode<K>)>, k: K::V) -> Option<TreeNode<K>>
    decreases cs.len(),
{
    if cs.len() == 0 {
        None
    } else if cs[0].0.deep_view() == k {
        Some(cs[0].1)
    } else {
        find_child(cs.drop_first(), k)
    }
}

/// Whether some child key has view `k`.
pub open spec fn has_child_key<K: DeepView>(cs: Seq<(K, TreeNode<K>)>, k: K::V) -> bool {
    exists|j: int| 0 <= j < cs.len() && #[trigger] cs[j].0.deep_view() == k
}

/// The view of a list of keys.
pub open spec fn keys_view<K: DeepView>(p: Seq<K>) -> Seq<K::V> {
    p.map_values(|k: K| k.deep_view())
}

/// The view of a list of samples.
pub open spec fn samples_view(s: Seq<Vec<u16>>) -> Seq<Seq<u16>> {
    s.map_values(|v: Vec<u16>| v@)
}

impl<K: PhonemeKey> TreeNode<K> {
    /// The children of this node, in insertion order.
    pub open spec fn child_seq(&self) -> Seq<(K, TreeNode<K>)> {
        self.children@
    }

    /// The node reached from this one along `path`, if any.
    pub open spec fn node_at(&self, path: Seq<K::V>) -> Option<TreeNode<K>>
        decreases path.len(),
    {
        if path.len() == 0 {
            Some(*self)
        } else {
            match find_child(self.child_seq(), path[0]) {
                Some(c) => c.node_at(path.drop_first()),
                None => None,
            }
        }
    }

    /// The samples recorded for `path` (empty where there is no node).
    pub open spec fn entries_at(&self, path: Seq<K::V>) -> Seq<Seq<u16>> {
        match self.node_at(path) {
            Some(n) => samples_view(n.entries@),
            None => Seq::empty(),
        }
    }

    /// No node has two children under the same key.
    pub open spec fn wf(&self) -> bool {
        forall|p: Seq<K::V>| #[trigger] self.node_at(p) is Some ==> distinct_child_keys(self.node_at(p).unwrap().child_seq())
    }

    /// Create an empty node.
    pub fn new() -> (t: Self)
        ensures
            t.child_seq().len() == 0,
            t.entries@.len() == 0,
            t.wf(),
            forall|p: Seq<K::V>| #[trigger] t.entries_at(p) == Seq::<Seq<u16>>::empty(),
    {
        let t = TreeNode { children: Vec::new(), entries: Vec::new() };
        assert forall|p: Seq<K::V>| #[trigger] t.node_at(p) is Some implies p.len() == 0 by {
            if p.len() > 0 {
                assert(find_child(t.child_seq(), p[0]) is None);
            }
        }
        assert forall|p: Seq<K::V>| #[trigger] t.entries_at(p) == Seq::<Seq<u16>>::empty() by {
            if p.len() == 0 {
                assert(samples_view(t.entries@) =~= Seq::<Seq<u16>>::empty());
            }
        }
        t
    }

    /// Index of the child under `key`, if there is one.
    fn child_index(&self, key: &K) -> (r: Option<usize>)
        ensures
            match r {
                Some(i) => {
                    &&& i < self.child_seq().len()
                    &&& self.child_seq()[i as int].0.deep_view() == key.deep_view()
                    &&& forall|j: int| 0 <= j < i ==> self.child_seq()[j].0.deep_view() != key.deep_view()
                    &&& find_child(self.child_seq(), key.deep_view()) == Some(self.child_seq()[i as int].1)
                },
                None => {
                    &&& !has_child_key(self.child_seq(), key.deep_view())
                    &&& find_child(self.child_seq(), key.deep_view()) is None
                },
            },
    {
        let n = self.children.len();
        let ghost cs = self.child_seq();
        let ghost k = key.deep_view();
        let mut i: usize = 0;
        assert(cs.skip(0) =~= cs);
        while i < n
            invariant
                n == cs.len(),
                cs == self.child_seq(),
                k == key.deep_view(),
                0 <= i <= n,
                forall|j: int| 0 <= j < i ==> cs[j].0.deep_view() != k,
                find_child(cs, k) == find_child(cs.skip(i as int), k),
            decreases n - i,
        {
            if self.children[i].0.key_eq(key) {
                return Some(i);
            }
            assert(cs.skip(i as int).drop_first() =~= cs.skip(i + 1));
            i = i + 1;
        }
        assert(cs.skip(n as int).len() == 0);
        None
    }

    /// Record `samples` at `path`, creating the nodes along it as needed.
    pub fn insert_path(&mut self, path: &[K], samples: &[Vec<u16>])
        ensures
            forall|p: Seq<K::V>| #[trigger] final(self).entries_at(p) == (if p == keys_view(path@) {
                old(self).entries_at(p) + samples_view(samples@)
            } else {
                old(self).entries_at(p)
            }),
            old(self).wf() ==> final(self).wf(),
            forall|k: int| 0 <= k <= path@.len() ==> #[trigger] final(self).node_at(keys_view(path@).take(k)) is Some,
            forall|p: Seq<K::V>| #[trigger] old(self).node_at(p) is Some ==> final(self).node_at(p) is Some,
    {
        assert(path@.skip(0) =~= path@);
        self.insert_from(path, 0, samples);
        proof {
            let kp = keys_view(path@);
            assert forall|k: int| 0 <= k <= path@.len() implies #[trigger] self.node_at(kp.take(k)) is Some by {
                assert(kp =~= kp.take(k) + kp.skip(k));
                self.lemma_node_at_concat(kp.take(k), kp.skip(k));
            }
        }
    }

    /// Record `samples` at the part of `path` that starts at position `i`.
    fn insert_from(&mut self, path: &[K], i: usize, samples: &[Vec<u16>])
        requires
            i <= path@.len(),
        ensures
            forall|p: Seq<K::V>| #[trigger] final(self).entries_at(p) == (if p == keys_view(path@.skip(i as int)) {
                old(self).entries_at(p) + samples_view(samples@)
            } else {
                old(self).entries_at(p)
            }),
            old(self).wf() ==> final(self).wf(),
            final(self).node_at(keys_view(path@.skip(i as int))) is Some,
            forall|p: Seq<K::V>| #[trigger] old(self).node_at(p) is Some ==> final(self).node_at(p) is Some,
        decreases path@.len() - i,
    {
        let ghost target = keys_view(path@.skip(i as int));
        if i == path.len() {
            let ghost before = self.entries@;
            let n = samples.len();
            let mut t: usize = 0;
            while t < n
                invariant
                    n == samples@.len(),
                    0 <= t <= n,
                    self.children == old(self).children,
                    self.entries@.len() == before.len() + t,
                    samples_view(self.entries@) == samples_view(before) + samples_view(samples@.take(t as int)),
                decreases n - t,
            {
                let ghost prev = self.entries@;
                self.entries.push(crate::model::copy_u16s(&samples[t]));
                assert(samples_view(self.entries@) =~= samples_view(prev).push(samples@[t as int]@));
                assert(samples_view(samples@.take(t + 1)) =~= samples_view(samples@.take(t as int)).push(samples@[t as int]@));
                t = t + 1;
            }
            assert(samples@.take(n as int) =~= samples@);
            assert(target.len() == 0);
            assert forall|p: Seq<K::V>| #[trigger] self.entries_at(p) == (if p == target {
                old(self).entries_at(p) + samples_view(samples@)
            } else {
                old(self).entries_at(p)
            }) by {
                if p.len() == 0 {
                    assert(p =~= target);
                }
            }
            assert forall|p: Seq<K::V>| #[trigger] self.node_at(p) is Some && p.len() > 0 implies
                self.node_at(p) == old(self).node_at(p) by {}
            assert(self.child_seq() == old(self).child_seq());
            assert(self.node_at(target) == Some(*self));
            return;
        }
        let ghost kv = path@[i as int].deep_view();
        assert(target[0] == kv);
        assert(target.drop_first() =~= keys_view(path@.skip(i + 1)));
        let ghost cs0 = self.child_seq();
        let j: usize = match self.child_index(&path[i]) {
            Some(j) => j,
            None => {
                let fresh: TreeNode<K> = TreeNode::new();
                let k = path[i].key_clone();
                proof {
                    lemma_find_child_found(cs0, kv);
                }
                self.children.push((k, fresh));
                self.children.len() - 1
            },
        };
        let ghost cs1 = self.child_seq();
        let ghost was_present = has_child_key(cs0, kv);
        proof {
            lemma_find_child_found(cs0, kv);
            assert(cs1[j as int].0.deep_view() == kv);
            assert forall|l: int| 0 <= l < j implies #[trigger] cs1[l].0.deep_view() != kv by {
                if !was_present {
                    assert(cs1[l] == cs0[l]);
                }
            }
        }
        let (k, mut child) = self.children.remove(j);
        let ghost child_before = child;
        child.insert_from(path, i + 1, samples);
        let ghost child_after = child;
        self.children.insert(j, (k, child));
        proof {
            let cs2 = self.child_seq();
            assert(cs2 =~= cs1.update(j as int, (k, child_after)));
            assert forall|q: K::V| #[trigger] find_child(cs2, q) == (if q == kv { Some(child_after) } else { find_child(cs0, q) }) by {
                lemma_find_child_update(cs1, j as int, k, child_after, q);
                if !was_present {
                    lemma_find_child_push(cs0, cs1[j as int].0, cs1[j as int].1, q);
                }
            }
            // what the old tree held under `kv`
            assert forall|r: Seq<K::V>| #[trigger] child_before.entries_at(r) == old(self).entries_at(seq![kv] + r) by {
                let p = seq![kv] + r;
                assert(p[0] == kv);
                assert(p.drop_first() =~= r);
                if !was_present {
                    lemma_find_child_push(cs0, cs1[j as int].0, cs1[j as int].1, kv);
                    assert(find_child(cs0, kv) is None);
                }
            }
            assert forall|p: Seq<K::V>| #[trigger] self.entries_at(p) == (if p == target {
                old(self).entries_at(p) + samples_view(samples@)
            } else {
                old(self).entries_at(p)
            }) by {
                if p.len() == 0 {
                    assert(self.entries == old(self).entries);
                    assert(p != target);
                } else {
                    let r = p.drop_first();
                    assert(p =~= seq![p[0]] + r);
                    assert(find_child(cs2, p[0]) == (if p[0] == kv { Some(child_after) } else { find_child(cs0, p[0]) }));
                    if p[0] != kv {
                        assert(self.node_at(p) == old(self).node_at(p));
                        assert(p != target);
                    } else {
                        assert(self.node_at(p) == child_after.node_at(r));
                        assert(self.entries_at(p) == child_after.entries_at(r));
                        assert(child_before.entries_at(r) == old(self).entries_at(seq![kv] + r));
                        assert(target =~= seq![kv] + target.drop_first());
                        if p == target {
                            assert(r =~= keys_view(path@.skip(i + 1)));
                        } else {
                            assert(r != keys_view(path@.skip(i + 1)));
                        }
                    }
                }
            }
            if old(self).wf() {
                if was_present {
                    assert forall|r: Seq<K::V>| #[trigger] child_before.node_at(r) == old(self).node_at(seq![kv] + r) by {
                        let p = seq![kv] + r;
                        assert(p[0] == kv);
                        assert(p.drop_first() =~= r);
                    }
                    assert forall|r: Seq<K::V>| #[trigger] child_before.node_at(r) is Some implies
                        distinct_child_keys(child_before.node_at(r).unwrap().child_seq()) by {
                        assert(old(self).node_at(seq![kv] + r) is Some);
                    }
                } else {
                    assert forall|r: Seq<K::V>| #[trigger] child_before.node_at(r) is Some implies
                        distinct_child_keys(child_before.node_at(r).unwrap().child_seq()) by {
                        assert(child_before.wf());
                    }
                }
                assert(child_before.wf());
                assert(child_after.wf());
                assert(distinct_child_keys(cs0)) by {
                    assert(old(self).node_at(Seq::<K::V>::empty()) is Some);
                }
                assert(distinct_child_keys(cs2)) by {
                    assert forall|a: int, b: int| 0 <= a < cs2.len() && 0 <= b < cs2.len() && a != b implies
                        #[trigger] cs2[a].0.deep_view() != #[trigger] cs2[b].0.deep_view() by {
                        if !was_present {
                            if a == j as int || b == j as int {
                                if a == j as int {
                                    assert(cs2[b] == cs0[b]);
                                } else {
                                    assert(cs2[a] == cs0[a]);
                                }
                            } else {
                                assert(cs2[a] == cs0[a]);
                                assert(cs2[b] == cs0[b]);
                            }
                        } else {
                            assert(cs1 == cs0);
                        }
                    }
                }
                assert forall|p: Seq<K::V>| #[trigger] self.node_at(p) is Some implies
                    distinct_child_keys(self.node_at(p).unwrap().child_seq()) by {
                    if p.len() == 0 {
                    } else {
                        let r = p.drop_first();
                        if p[0] == kv {
                            assert(self.node_at(p) == child_after.node_at(r));
                            assert(child_after.node_at(r) is Some);
                        } else {
                            assert(self.node_at(p) == old(self).node_at(p));
                        }
                    }
                }
            }
            // the nodes along the path exist, and no node is lost
            assert(target =~= seq![kv] + keys_view(path@.skip(i + 1)));
            assert(self.node_at(target) == child_after.node_at(keys_view(path@.skip(i + 1))));
            assert forall|p: Seq<K::V>| #[trigger] old(self).node_at(p) is Some implies self.node_at(p) is Some by {
                if p.len() > 0 {
                    let r = p.drop_first();
                    if p[0] == kv {
                        if was_present {
                            assert(old(self).node_at(p) == child_before.node_at(r));
                        } else {
                            lemma_find_child_found(cs0, kv);
                        }
                        assert(self.node_at(p) == child_after.node_at(r));
                    } else {
                        assert(self.node_at(p) == old(self).node_at(p));
                    }
                }
            }
        }
    }

    /// Following `p` and then `q` reaches the node that `p + q` reaches.
    pub proof fn lemma_node_at_concat(&self, p: Seq<K::V>, q: Seq<K::V>)
        ensures
            self.node_at(p + q) == (match self.node_at(p) {
                Some(n) => n.node_at(q),
                None => None,
            }),
        decreases p.len(),
    {
        if p.len() == 0 {
            assert(p + q =~= q);
        } else {
            let pq = p + q;
            assert(pq[0] == p[0]);
            assert(pq.drop_first() =~= p.drop_first() + q);
            match find_child(self.child_seq(), p[0]) {
                Some(c) => {
                    c.lemma_node_at_concat(p.drop_first(), q);
                },
                None => {},
            }
        }
    }

    /// The node that `path` leads to from this one, if any.
    pub fn find_node<'t>(&'t self, path: &[K]) -> (r: Option<&'t TreeNode<K>>)
        ensures
            r.is_some() == self.node_at(keys_view(path@)).is_some(),
            r matches Some(n) ==> self.node_at(keys_view(path@)) == Some(*n),
    {
        let n = path.len();
        let mut node: &'t TreeNode<K> = self;
        let mut i: usize = 0;
        assert(keys_view(path@.take(0)) =~= Seq::<K::V>::empty());
        while i < n
            invariant
                n == path@.len(),
                0 <= i <= n,
                self.node_at(keys_view(path@.take(i as int))) == Some(*node),
            decreases n - i,
        {
            let ghost pre = keys_view(path@.take(i as int));
            let ghost k = path@[i as int].deep_view();
            proof {
                assert(keys_view(path@.take(i + 1)) =~= pre + seq![k]);
                self.lemma_node_at_concat(pre, seq![k]);
                assert(seq![k].drop_first() =~= Seq::<K::V>::empty());
            }
            match node.child(&path[i]) {
                Some(c) => {
                    proof {
                        assert(seq![k][0] == k);
                        assert(node.node_at(seq![k]) == c.node_at(Seq::<K::V>::empty()));
                    }
                    node = c;
                },
                None => {
                    proof {
                        let rest = keys_view(path@).skip(i + 1);
                        assert(keys_view(path@) =~= keys_view(path@.take(i + 1)) + rest);
                        self.lemma_node_at_concat(keys_view(path@.take(i + 1)), rest);
                    }
                    return None;
                },
            }
            i = i + 1;
        }
        assert(path@.take(n as int) =~= path@);
        Some(node)
    }

    /// Every populated path in the tree with its samples, in depth-first order.
    pub fn collect_paths(&self) -> (r: Vec<(Vec<K>, Vec<Vec<u16>>)>)
        ensures
            collected_view(r@) == paths_below(*self, Seq::<K::V>::empty()),
    {
        let mut results: Vec<(Vec<K>, Vec<Vec<u16>>)> = Vec::new();
        let prefix: Vec<K> = Vec::new();
        assert(keys_view(prefix@) =~= Seq::<K::V>::empty());
        self.collect_into(prefix, &mut results);
        assert(collected_view(results@) =~= paths_below(*self, Seq::<K::V>::empty()));
        results
    }

    /// Append the populated paths below this node, each prefixed by `prefix`.
    fn collect_into(&self, prefix: Vec<K>, results: &mut Vec<(Vec<K>, Vec<Vec<u16>>)>)
        ensures
            collected_view(final(results)@) == collected_view(old(results)@) + paths_below(*self, keys_view(prefix@)),
        decreases self,
    {
        let ghost pv = keys_view(prefix@);
        let ghost start = collected_view(results@);
        if self.entries.len() > 0 {
            let ghost before = results@;
            let pc = prefix.key_clone();
            let sc = copy_samples(&self.entries);
            proof {
                assert(keys_view(pc@) =~= pc.deep_view());
                assert(keys_view(prefix@) =~= prefix.deep_view());
                assert(samples_view(sc@) =~= samples_view(self.entries@));
            }
            results.push((pc, sc));
            assert(collected_view(results@) =~= collected_view(before).push((pv, samples_view(self.entries@))));
        }
        let ghost own = if self.entries@.len() > 0 {
            seq![(pv, samples_view(self.entries@))]
        } else {
            Seq::empty()
        };
        assert(collected_view(results@) =~= start + own);
        let n = self.children.len();
        let mut i: usize = 0;
        assert(self.children@.take(0) =~= Seq::<(K, TreeNode<K>)>::empty());
        while i < n
            invariant
                n == self.children@.len(),
                0 <= i <= n,
                pv == keys_view(prefix@),
                collected_view(results@) == start + own + children_paths(self.children@.take(i as int), pv),
            decreases n - i,
        {
            let mut path = prefix.key_clone();
            proof {
                assert(keys_view(path@) =~= path.deep_view());
                assert(keys_view(prefix@) =~= prefix.deep_view());
            }
            path.push(self.children[i].0.key_clone());
            let ghost kv = self.children@[i as int].0.deep_view();
            assert(keys_view(path@) =~= pv.push(kv));
            let ghost before = collected_view(results@);
            let child = &self.children[i].1;
            assert(decreases_to!(*self => self.children));
            assert(decreases_to!(self.children => self.children@));
            assert(decreases_to!(self.children@ => self.children@[i as int]));
            assert(decreases_to!(self.children@[i as int] => self.children@[i as int].1));
            child.collect_into(path, results);
            proof {
                let t1 = self.children@.take(i + 1);
                assert(t1.drop_last() =~= self.children@.take(i as int));
                assert(t1.last() == self.children@[i as int]);
            }
            i = i + 1;
        }
        assert(self.children@.take(n as int) =~= self.children@);
    }

    /// The child reached through `key`, if any.
    pub fn child(&self, key: &K) -> (r: Option<&TreeNode<K>>)
        ensures
            r.is_some() == find_child(self.child_seq(), key.deep_view()).is_some(),
            r matches Some(c) ==> find_child(self.child_seq(), key.deep_view()) == Some(*c),
    {
        match self.child_index(key) {
            Some(i) => Some(&self.children[i].1),
            None => None,
        }
    }
}

/// Replacing the first child under a key changes what that key finds and
/// nothing else.
pub proof fn lemma_find_child_update<K: DeepView>(cs: Seq<(K, TreeNode<K>)>, j: int, k: K, c: TreeNode<K>, q: K::V)
    requires
        0 <= j < cs.len(),
        cs[j].0.deep_view() == k.deep_view(),
        forall|l: int| 0 <= l < j ==> cs[l].0.deep_view() != k.deep_view(),
    ensures
        find_child(cs.update(j, (k, c)), q) == (if q == k.deep_view() { Some(c) } else { find_child(cs, q) }),
    decreases j,
{
    let cs2 = cs.update(j, (k, c));
    if j == 0 {
        assert(cs2.drop_first() =~= cs.drop_first());
    } else {
        assert(cs2.drop_first() =~= cs.drop_first().update(j - 1, (k, c)));
        lemma_find_child_update(cs.drop_first(), j - 1, k, c, q);
    }
}

/// Appending a child under a new key changes what that key finds and
/// nothing else.
pub proof fn lemma_find_child_push<K: DeepView>(cs: Seq<(K, TreeNode<K>)>, k: K, c: TreeNode<K>, q: K::V)
    requires
        !has_child_key(cs, k.deep_view()),
    ensures
        find_child(cs.push((k, c)), q) == (if q == k.deep_view() { Some(c) } else { find_child(cs, q) }),
    decreases cs.len(),
{
    let cs2 = cs.push((k, c));
    assert(cs2[0] == (if cs.len() == 0 { (k, c) } else { cs[0] }));
    if cs.len() == 0 {
        assert(cs2.drop_first() =~= Seq::<(K, TreeNode<K>)>::empty());
        assert(find_child(cs2.drop_first(), q) is None);
    } else {
        assert(cs2.drop_first() =~= cs.drop_first().push((k, c)));
        assert(cs[0].0.deep_view() != k.deep_view());
        assert forall|j: int| 0 <= j < cs.drop_first().len() implies
            #[trigger] cs.drop_first()[j].0.deep_view() != k.deep_view() by {
            assert(cs.drop_first()[j] == cs[j + 1]);
        }
        lemma_find_child_push(cs.drop_first(), k, c, q);
    }
}

/// What `find_child` finds is one of the children, under that key.
pub proof fn lemma_find_child_found<K: DeepView>(cs: Seq<(K, TreeNode<K>)>, q: K::V)
    ensures
        find_child(cs, q) is Some ==> exists|j: int| 0 <= j < cs.len() && #[trigger] cs[j].0.deep_view() == q && cs[j].1 == find_child(cs, q).unwrap(),
        find_child(cs, q) is None ==> !has_child_key(cs, q),
    decreases cs.len(),
{
    if cs.len() > 0 {
        lemma_find_child_found(cs.drop_first(), q);
        if cs[0].0.deep_view() != q {
            if find_child(cs, q) is Some {
                let j = choose|j: int| 0 <= j < cs.drop_first().len() && #[trigger] cs.drop_first()[j].0.deep_view() == q && cs.drop_first()[j].1 == find_child(cs.drop_first(), q).unwrap();
                assert(cs[j + 1].0.deep_view() == q);
            } else {
                assert forall|j: int| 0 <= j < cs.len() implies #[trigger] cs[j].0.deep_view() != q by {
                    if j > 0 {
                        assert(cs[j] == cs.drop_first()[j - 1]);
                    }
                }
            }
        } else {
            assert(cs[0].0.deep_view() == q);
        }
    }
}

impl<K: PhonemeKey> Default for TreeNode<K> {
    fn default() -> (t: Self)
        ensures
            t.child_seq().len() == 0,
            t.entries@.len() == 0,
            t.wf(),
            forall|p: Seq<K::V>| #[trigger] t.entries_at(p) == Seq::<Seq<u16>>::empty(),
    {
        TreeNode::new()
    }
}

/// The populated paths below `node`, each with its samples, in the order a
/// depth-first walk visits them: the node itself, then each child in order.
pub open spec fn paths_below<K: DeepView>(node: TreeNode<K>, prefix: Seq<K::V>) -> Seq<(Seq<K::V>, Seq<Seq<u16>>)>
    decreases node,
{
    (if node.entries@.len() > 0 {
        seq![(prefix, samples_view(node.entries@))]
    } else {
        Seq::empty()
    }) + children_paths(node.children@, prefix)
}

/// The populated paths below each of `cs`, in order.
pub open spec fn children_paths<K: DeepView>(cs: Seq<(K, TreeNode<K>)>, prefix: Seq<K::V>) -> Seq<(Seq<K::V>, Seq<Seq<u16>>)>
    decreases cs,
{
    if cs.len() == 0 {
        Seq::empty()
    } else {
        children_paths(cs.drop_last(), prefix) + paths_below(cs.last().1, prefix.push(cs.last().0.deep_view()))
    }
}

/// The view of a list of collected (path, samples) pairs.
pub open spec fn collected_view<K: DeepView>(r: Seq<(Vec<K>, Vec<Vec<u16>>)>) -> Seq<(Seq<K::V>, Seq<Seq<u16>>)> {
    r.map_values(|e: (Vec<K>, Vec<Vec<u16>>)| (keys_view(e.0@), samples_view(e.1@)))
}

/// No two children share a key.
pub open spec fn distinct_child_keys<K: DeepView>(cs: Seq<(K, TreeNode<K>)>) -> bool {
    forall|i: int, j: int| 0 <= i < cs.len() && 0 <= j < cs.len() && i != j
        ==> #[trigger] cs[i].0.deep_view() != #[trigger] cs[j].0.deep_view()
}

/// In a well-formed node each child is well formed: what it holds under
/// `r` the node holds under its key followed by `r`.
pub proof fn lemma_child_wf<K: PhonemeKey>(node: TreeNode<K>, j: int)
    requires
        node.wf(),
        0 <= j < node.children@.len(),
    ensures
        node.children@[j].1.wf(),
        find_child(node.children@, node.children@[j].0.deep_view()) == Some(node.children@[j].1),
{
    let cs = node.children@;
    let k = cs[j].0.deep_view();
    let c = cs[j].1;
    assert(node.node_at(Seq::<K::V>::empty()) == Some(node));
    assert(distinct_child_keys(cs));
    lemma_find_child_found(cs, k);
    let jj = choose|jj: int| 0 <= jj < cs.len() && #[trigger] cs[jj].0.deep_view() == k && cs[jj].1 == find_child(cs, k).unwrap();
    assert(jj == j);
    assert forall|r: Seq<K::V>| #[trigger] c.node_at(r) is Some implies distinct_child_keys(c.node_at(r).unwrap().child_seq()) by {
        let p = seq![k] + r;
        assert(p[0] == k);
        assert(p.drop_first() =~= r);
        assert(node.node_at(p) == c.node_at(r));
    }
}

/// Every populated path below a well-formed `node` starts with `pre`,
/// holds samples and occurs once; under `pre + q` it holds what the node
/// records under `q`.
pub proof fn lemma_paths_below<K: PhonemeKey>(node: TreeNode<K>, pre: Seq<K::V>)
    requires
        node.wf(),
    ensures
        forall|i: int| 0 <= i < paths_below(node, pre).len() ==> {
            &&& (#[trigger] paths_below(node, pre)[i]).1.len() > 0
            &&& paths_below(node, pre)[i].0.len() >= pre.len()
            &&& paths_below(node, pre)[i].0.take(pre.len() as int) == pre
        },
        distinct_groups(paths_below(node, pre)),
        forall|q: Seq<K::V>| #[trigger] group_of(paths_below(node, pre), pre + q) == node.entries_at(q),
    decreases node,
{
    let cs = node.children@;
    assert(node.node_at(Seq::<K::V>::empty()) == Some(node));
    assert(distinct_child_keys(cs));
    assert forall|j: int| 0 <= j < cs.len() implies (#[trigger] cs[j]).1.wf() by {
        lemma_child_wf(node, j);
    }
    assert(decreases_to!(node => node.children));
    assert(decreases_to!(node.children => node.children@));
    lemma_children_paths(cs, pre);
    let sv = samples_view(node.entries@);
    let own: Seq<(Seq<K::V>, Seq<Seq<u16>>)> = if node.entries@.len() > 0 {
        seq![(pre, sv)]
    } else {
        Seq::empty()
    };
    let cp = children_paths(cs, pre);
    let pb = paths_below(node, pre);
    assert(pb == own + cp);
    assert forall|i: int| 0 <= i < pb.len() implies {
        &&& (#[trigger] pb[i]).1.len() > 0
        &&& pb[i].0.len() >= pre.len()
        &&& pb[i].0.take(pre.len() as int) == pre
    } by {
        if i < own.len() {
            assert(pb[i] == (pre, sv));
            assert(pre.take(pre.len() as int) =~= pre);
        } else {
            assert(pb[i] == cp[i - own.len()]);
        }
    }
    assert forall|a: int, b: int| 0 <= a < pb.len() && 0 <= b < pb.len() && a != b implies
        #[trigger] pb[a].0 != #[trigger] pb[b].0 by {
        if a < own.len() && b >= own.len() {
            assert(pb[b] == cp[b - own.len()]);
        } else if b < own.len() && a >= own.len() {
            assert(pb[a] == cp[a - own.len()]);
        } else if a >= own.len() && b >= own.len() {
            assert(pb[a] == cp[a - own.len()]);
            assert(pb[b] == cp[b - own.len()]);
        }
    }
    assert forall|q: Seq<K::V>| #[trigger] group_of(pb, pre + q) == node.entries_at(q) by {
        crate::model::lemma_group_of_concat(own, cp, pre + q);
        if q.len() == 0 {
            assert(pre + q =~= pre);
            assert(!has_group(cp, pre)) by {
                if has_group(cp, pre) {
                    let i = choose|i: int| 0 <= i < cp.len() && #[trigger] cp[i].0 == pre;
                }
            }
            crate::groups::lemma_group_of_absent(cp, pre);
            if node.entries@.len() > 0 {
                let e = Seq::<(Seq<K::V>, Seq<Seq<u16>>)>::empty();
                assert(own.drop_last() =~= e);
                assert(group_of(e, pre) =~= Seq::<Seq<u16>>::empty());
                assert(own.last() == (pre, sv));
                assert(group_of(own, pre) =~= sv);
            } else {
                assert(sv =~= Seq::<Seq<u16>>::empty());
            }
            assert(group_of(pb, pre + q) =~= sv);
        } else {
            assert(!has_group(own, pre + q)) by {
                if has_group(own, pre + q) {
                    let i = choose|i: int| 0 <= i < own.len() && #[trigger] own[i].0 == pre + q;
                    assert((pre + q).len() == pre.len() + q.len());
                }
            }
            crate::groups::lemma_group_of_absent(own, pre + q);
            assert(pre + q =~= pre.push(q[0]) + q.drop_first());
            assert(group_of(pb, pre + q) =~= group_of(cp, pre + q));
        }
    }
}

/// The populated paths below children with distinct keys, each child well
/// formed: each starts with `pre` and a child's key, holds samples and
/// occurs once; under `pre`, a key `k` and `q` they hold what the child
/// under `k` records under `q`.
pub proof fn lemma_children_paths<K: PhonemeKey>(cs: Seq<(K, TreeNode<K>)>, pre: Seq<K::V>)
    requires
        distinct_child_keys(cs),
        forall|j: int| 0 <= j < cs.len() ==> (#[trigger] cs[j]).1.wf(),
    ensures
        forall|i: int| 0 <= i < children_paths(cs, pre).len() ==> {
            &&& (#[trigger] children_paths(cs, pre)[i]).1.len() > 0
            &&& children_paths(cs, pre)[i].0.len() > pre.len()
            &&& children_paths(cs, pre)[i].0.take(pre.len() as int) == pre
            &&& has_child_key(cs, children_paths(cs, pre)[i].0[pre.len() as int])
        },
        distinct_groups(children_paths(cs, pre)),
        forall|k: K::V, q: Seq<K::V>| #[trigger] group_of(children_paths(cs, pre), pre.push(k) + q) == (match find_child(cs, k) {
            Some(c) => c.entries_at(q),
            None => Seq::empty(),
        }),
    decreases cs,
{
    let cp = children_paths(cs, pre);
    if cs.len() == 0 {
        assert forall|k: K::V, q: Seq<K::V>| #[trigger] group_of(cp, pre.push(k) + q) == (match find_child(cs, k) {
            Some(c) => c.entries_at(q),
            None => Seq::<Seq<u16>>::empty(),
        }) by {}
    } else {
        let d = cs.drop_last();
        let last = cs.last();
        let kl = last.0.deep_view();
        let pl = pre.push(kl);
        assert(distinct_child_keys(d)) by {
            assert forall|a: int, b: int| 0 <= a < d.len() && 0 <= b < d.len() && a != b implies
                #[trigger] d[a].0.deep_view() != #[trigger] d[b].0.deep_view() by {
                assert(d[a] == cs[a]);
                assert(d[b] == cs[b]);
            }
        }
        assert forall|j: int| 0 <= j < d.len() implies (#[trigger] d[j]).1.wf() by {
            assert(d[j] == cs[j]);
        }
        assert(!has_child_key(d, kl)) by {
            if has_child_key(d, kl) {
                let j = choose|j: int| 0 <= j < d.len() && #[trigger] d[j].0.deep_view() == kl;
                assert(d[j] == cs[j]);
                assert(cs[cs.len() - 1] == last);
            }
        }
        assert(cs[cs.len() - 1] == last);
        assert(last.1.wf());
        assert(decreases_to!(cs => cs.drop_last()));
        lemma_children_paths(d, pre);
        assert(decreases_to!(cs => cs[cs.len() - 1]));
        lemma_paths_below(last.1, pl);
        let a = children_paths(d, pre);
        let b = paths_below(last.1, pl);
        assert(cp == a + b);
        assert(cs =~= d.push(last));
        assert forall|i: int| 0 <= i < cp.len() implies {
            &&& (#[trigger] cp[i]).1.len() > 0
            &&& cp[i].0.len() > pre.len()
            &&& cp[i].0.take(pre.len() as int) == pre
            &&& has_child_key(cs, cp[i].0[pre.len() as int])
        } by {
            if i < a.len() {
                assert(cp[i] == a[i]);
                let j = choose|j: int| 0 <= j < d.len() && #[trigger] d[j].0.deep_view() == a[i].0[pre.len() as int];
                assert(cs[j] == d[j]);
            } else {
                let x = b[i - a.len()];
                assert(cp[i] == x);
                assert(x.0.take(pl.len() as int) == pl);
                assert(x.0.take(pre.len() as int) =~= pl.take(pre.len() as int));
                assert(pl.take(pre.len() as int) =~= pre);
                assert(x.0[pre.len() as int] == x.0.take(pl.len() as int)[pre.len() as int]);
                assert(x.0[pre.len() as int] == kl);
                assert(cs[cs.len() - 1].0.deep_view() == kl);
            }
        }
        assert forall|u: int, v: int| 0 <= u < cp.len() && 0 <= v < cp.len() && u != v implies
            #[trigger] cp[u].0 != #[trigger] cp[v].0 by {
            if u < a.len() && v < a.len() {
                assert(cp[u] == a[u]);
                assert(cp[v] == a[v]);
            } else if u >= a.len() && v >= a.len() {
                assert(cp[u] == b[u - a.len()]);
                assert(cp[v] == b[v - a.len()]);
            } else {
                let (x, y) = if u < a.len() { (a[u], b[v - a.len()]) } else { (a[v], b[u - a.len()]) };
                assert(y.0.take(pl.len() as int) == pl);
                assert(y.0[pre.len() as int] == y.0.take(pl.len() as int)[pre.len() as int]);
                assert(y.0[pre.len() as int] == kl);
                if x.0 == y.0 {
                    let j = choose|j: int| 0 <= j < d.len() && #[trigger] d[j].0.deep_view() == x.0[pre.len() as int];
                }
                if u < a.len() {
                    assert(cp[u] == x);
                    assert(cp[v] == y);
                } else {
                    assert(cp[v] == x);
                    assert(cp[u] == y);
                }
            }
        }
        assert forall|k: K::V, q: Seq<K::V>| #[trigger] group_of(cp, pre.push(k) + q) == (match find_child(cs, k) {
            Some(c) => c.entries_at(q),
            None => Seq::<Seq<u16>>::empty(),
        }) by {
            let p = pre.push(k) + q;
            crate::model::lemma_group_of_concat(a, b, p);
            lemma_find_child_push(d, last.0, last.1, k);
            if k == kl {
                assert(p =~= pl + q);
                lemma_find_child_found(d, kl);
                assert(find_child(d, kl) is None);
                assert(group_of(a, p) =~= Seq::<Seq<u16>>::empty());
                assert(group_of(cp, p) =~= last.1.entries_at(q));
            } else {
                assert(!has_group(b, p)) by {
                    if has_group(b, p) {
                        let i = choose|i: int| 0 <= i < b.len() && #[trigger] b[i].0 == p;
                        assert(b[i].0.take(pl.len() as int) == pl);
                        assert(p[pre.len() as int] == k);
                        assert(b[i].0[pre.len() as int] == b[i].0.take(pl.len() as int)[pre.len() as int]);
                    }
                }
                crate::groups::lemma_group_of_absent(b, p);
                assert(group_of(cp, p) =~= group_of(a, p));
            }
        }
    }
}

/// The two timing trees: an exact-match tree keyed by phoneme labels and a
/// fallback tree keyed by phoneme types.
#[derive(Debug)]
pub struct PhonemeTree {
    /// Exact-match tree keyed by phoneme labels.
    pub cluster_tree: TreeNode<String>,
    /// Type-based fallback tree keyed by `PhonemeType`.
    pub generic_tree: TreeNode<PhonemeType>,
}

impl PhonemeTree {
    /// Build both trees from a model: each path holds every sample the model
    /// records for that sequence, in order.
    pub fn from_model(model: &TimingModel) -> (t: Self)
        ensures
            t.cluster_tree.wf(),
            t.generic_tree.wf(),
            forall|p: Seq<Seq<char>>| #[trigger] t.cluster_tree.entries_at(p) == cluster_group(model.cluster_timings@, p),
            forall|p: Seq<PhonemeType>| #[trigger] t.generic_tree.entries_at(p) == generic_group(model.generic_timings@, p),
    {
        let mut cluster_tree: TreeNode<String> = TreeNode::new();
        let n = model.cluster_timings.len();
        let mut i: usize = 0;
        while i < n
            invariant
                n == model.cluster_timings@.len(),
                0 <= i <= n,
                cluster_tree.wf(),
                forall|p: Seq<Seq<char>>| #[trigger] cluster_tree.entries_at(p) == cluster_group(model.cluster_timings@.take(i as int), p),
            decreases n - i,
        {
            let timing = &model.cluster_timings[i];
            cluster_tree.insert_path(timing.phonemes.as_slice(), timing.samples.as_slice());
            proof {
                let ts = model.cluster_timings@.take(i + 1);
                assert(cluster_entries(ts).drop_last() =~= cluster_entries(model.cluster_timings@.take(i as int)));
                assert(keys_view(timing.phonemes@) =~= strings_view(timing.phonemes@));
                assert(cluster_entries(ts).last() == (strings_view(timing.phonemes@), samples_view(timing.samples@)));
            }
            i = i + 1;
        }
        assert(model.cluster_timings@.take(n as int) =~= model.cluster_timings@);

        let mut generic_tree: TreeNode<PhonemeType> = TreeNode::new();
        let m = model.generic_timings.len();
        let mut i: usize = 0;
        while i < m
            invariant
                m == model.generic_timings@.len(),
                0 <= i <= m,
                generic_tree.wf(),
                forall|p: Seq<PhonemeType>| #[trigger] generic_tree.entries_at(p) == generic_group(model.generic_timings@.take(i as int), p),
            decreases m - i,
        {
            let timing = &model.generic_timings[i];
            generic_tree.insert_path(timing.types.as_slice(), timing.samples.as_slice());
            proof {
                let ts = model.generic_timings@.take(i + 1);
                assert(generic_entries(ts).drop_last() =~= generic_entries(model.generic_timings@.take(i as int)));
                assert(keys_view(timing.types@) =~= timing.types@);
                assert(generic_entries(ts).last() == (timing.types@, samples_view(timing.samples@)));
            }
            i = i + 1;
        }
        assert(model.generic_timings@.take(m as int) =~= model.generic_timings@);
        PhonemeTree { cluster_tree, generic_tree }
    }

    /// Flatten the trees back into a model: one timing entry per populated
    /// path, in depth-first order.
    pub fn to_model(&self, version: String, metadata: TimingMetadata) -> (m: TimingModel)
        ensures
            m.version == version,
            m.metadata == metadata,
            cluster_entries(m.cluster_timings@) == paths_below(self.cluster_tree, Seq::<Seq<char>>::empty()),
            generic_entries(m.generic_timings@) == paths_below(self.generic_tree, Seq::<PhonemeType>::empty()),
    {
        let paths = self.cluster_tree.collect_paths();
        let ghost pv = paths_below(self.cluster_tree, Seq::<Seq<char>>::empty());
        let mut cluster_timings: Vec<ClusterTiming> = Vec::new();
        let n = paths.len();
        let mut i: usize = 0;
        while i < n
            invariant
                n == paths@.len(),
                collected_view(paths@) == pv,
                0 <= i <= n,
                cluster_timings@.len() == i,
                forall|j: int| 0 <= j < i ==> {
                    &&& strings_view(#[trigger] cluster_timings@[j].phonemes@) == pv[j].0
                    &&& samples_view(cluster_timings@[j].samples@) == pv[j].1
                },
            decreases n - i,
        {
            let phonemes = crate::model::copy_strings(&paths[i].0);
            let samples = copy_samples(&paths[i].1);
            proof {
                assert(collected_view(paths@)[i as int] == pv[i as int]);
                assert(strings_view(phonemes@) =~= keys_view(paths@[i as int].0@));
                assert(samples_view(samples@) =~= samples_view(paths@[i as int].1@));
            }
            cluster_timings.push(ClusterTiming { phonemes, samples });
            i = i + 1;
        }

        let gpaths = self.generic_tree.collect_paths();
        let ghost gv = paths_below(self.generic_tree, Seq::<PhonemeType>::empty());
        let mut generic_timings: Vec<GenericTiming> = Vec::new();
        let m = gpaths.len();
        let mut i: usize = 0;
        while i < m
            invariant
                m == gpaths@.len(),
                collected_view(gpaths@) == gv,
                0 <= i <= m,
                generic_timings@.len() == i,
                forall|j: int| 0 <= j < i ==> {
                    &&& (#[trigger] generic_timings@[j]).types@ == gv[j].0
                    &&& samples_view(generic_timings@[j].samples@) == gv[j].1
                },
            decreases m - i,
        {
            let types = copy_types(&gpaths[i].0);
            let samples = copy_samples(&gpaths[i].1);
            proof {
                assert(collected_view(gpaths@)[i as int] == gv[i as int]);
                assert(types@ =~= keys_view(gpaths@[i as int].0@));
                assert(samples_view(samples@) =~= samples_view(gpaths@[i as int].1@));
            }
            generic_timings.push(GenericTiming { types, samples });
            i = i + 1;
        }
        assert(cluster_entries(cluster_timings@) =~= pv);
        assert(generic_entries(generic_timings@) =~= gv);
        TimingModel { version, metadata, cluster_timings, generic_timings }
    }
}

/// A well-formed tree, flattened, lists each populated path once, with
/// samples, and lists under a path exactly what the tree records there.
pub proof fn lemma_flatten<K: PhonemeKey>(node: TreeNode<K>)
    requires
        node.wf(),
    ensures
        distinct_groups(paths_below(node, Seq::<K::V>::empty())),
        forall|p: Seq<K::V>| #[trigger] group_of(paths_below(node, Seq::<K::V>::empty()), p) == node.entries_at(p),
        forall|p: Seq<K::V>| #[trigger] has_group(paths_below(node, Seq::<K::V>::empty()), p) == (node.entries_at(p).len() > 0),
{
    let e = Seq::<K::V>::empty();
    let pb = paths_below(node, e);
    lemma_paths_below(node, e);
    assert forall|p: Seq<K::V>| #[trigger] group_of(pb, p) == node.entries_at(p) by {
        assert(e + p =~= p);
        assert(group_of(pb, e + p) == node.entries_at(p));
    }
    assert forall|p: Seq<K::V>| #[trigger] has_group(pb, p) == (node.entries_at(p).len() > 0) by {
        assert(group_of(pb, p) == node.entries_at(p));
        crate::model::lemma_group_of_distinct(pb, p);
        if has_group(pb, p) {
            let i = choose|i: int| 0 <= i < pb.len() && pb[i].0 == p && #[trigger] group_of(pb, p) == pb[i].1;
            assert(pb[i].1.len() > 0);
        }
    }
}

/// Building the trees of a model and flattening them again gives a model
/// that records, for every sequence, exactly the samples the first model
/// recorded for it and in the same order; each sequence occurs once, and
/// only sequences with samples occur.
pub proof fn law_tree_roundtrip(model: TimingModel, tree: PhonemeTree, rebuilt: TimingModel)
    requires
        tree.cluster_tree.wf(),
        tree.generic_tree.wf(),
        forall|p: Seq<Seq<char>>| #[trigger] tree.cluster_tree.entries_at(p) == cluster_group(model.cluster_timings@, p),
        forall|p: Seq<PhonemeType>| #[trigger] tree.generic_tree.entries_at(p) == generic_group(model.generic_timings@, p),
        cluster_entries(rebuilt.cluster_timings@) == paths_below(tree.cluster_tree, Seq::<Seq<char>>::empty()),
        generic_entries(rebuilt.generic_timings@) == paths_below(tree.generic_tree, Seq::<PhonemeType>::empty()),
    ensures
        distinct_groups(cluster_entries(rebuilt.cluster_timings@)),
        distinct_groups(generic_entries(rebuilt.generic_timings@)),
        forall|p: Seq<Seq<char>>| #[trigger] cluster_group(rebuilt.cluster_timings@, p) == cluster_group(model.cluster_timings@, p),
        forall|p: Seq<PhonemeType>| #[trigger] generic_group(rebuilt.generic_timings@, p) == generic_group(model.generic_timings@, p),
        forall|p: Seq<Seq<char>>| #[trigger] has_group(cluster_entries(rebuilt.cluster_timings@), p)
            == (cluster_group(model.cluster_timings@, p).len() > 0),
        forall|p: Seq<PhonemeType>| #[trigger] has_group(generic_entries(rebuilt.generic_timings@), p)
            == (generic_group(model.generic_timings@, p).len() > 0),
{
    lemma_flatten(tree.cluster_tree);
    lemma_flatten(tree.generic_tree);
    assert forall|p: Seq<Seq<char>>| #[trigger] cluster_group(rebuilt.cluster_timings@, p) == cluster_group(model.cluster_timings@, p) by {
        assert(tree.cluster_tree.entries_at(p) == cluster_group(model.cluster_timings@, p));
    }
    assert forall|p: Seq<PhonemeType>| #[trigger] generic_group(rebuilt.generic_timings@, p) == generic_group(model.generic_timings@, p) by {
        assert(tree.generic_tree.entries_at(p) == generic_group(model.generic_timings@, p));
    }
    assert forall|p: Seq<Seq<char>>| #[trigger] has_group(cluster_entries(rebuilt.cluster_timings@), p)
        == (cluster_group(model.cluster_timings@, p).len() > 0) by {
        assert(tree.cluster_tree.entries_at(p) == cluster_group(model.cluster_timings@, p));
    }
    assert forall|p: Seq<PhonemeType>| #[trigger] has_group(generic_entries(rebuilt.generic_timings@), p)
        == (generic_group(model.generic_timings@, p).len() > 0) by {
        assert(tree.generic_tree.entries_at(p) == generic_group(model.generic_timings@, p));
    }
}

/// A copy of a list of phoneme types.
pub fn copy_types(v: &Vec<PhonemeType>) -> (r: Vec<PhonemeType>)
    ensures
        r@ == v@,
{
    let mut out: Vec<PhonemeType> = Vec::new();
    let n = v.len();
    let mut i: usize = 0;
    while i < n
        invariant
            n == v.len(),
            0 <= i <= n,
            out@ == v@.take(i as int),
        decreases n - i,
    {
        out.push(v[i]);
        assert(out@ =~= v@.take(i + 1));
        i = i + 1;
    }
    assert(v@.take(n as int) =~= v@);
    out
}

} // verus!
