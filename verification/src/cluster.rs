//! Splitting phoneme sequences into consonant clusters bounded by vowels.

use vstd::prelude::*;

verus! {

/// A consonant cluster paired with its following vowel (if any).
#[derive(Debug, Clone, PartialEq, Eq)]
pub struct Cluster<K> {
    /// The vowel following this consonant cluster, if any.
    pub vowel: Option<K>,
    /// The consonants in this cluster (may be empty for vowel-only clusters).
    pub consonants: Vec<K>,
}

/// Clusters closed so far, and the consonants still waiting for a vowel,
/// after reading the first `n` phonemes.
pub open spec fn split_state<K>(ph: Seq<K>, flags: Seq<bool>, n: int) -> (Seq<(Option<K>, Seq<K>)>, Seq<K>)
    decreases n,
{
    if n <= 0 {
        (Seq::empty(), Seq::empty())
    } else {
        let (done, pending) = split_state(ph, flags, n - 1);
        if flags[n - 1] {
            (done.push((Some(ph[n - 1]), pending)), Seq::empty())
        } else {
            (done, pending.push(ph[n - 1]))
        }
    }
}

/// The clusters of `ph`, where `flags[i]` says whether `ph[i]` is a vowel:
/// each vowel closes a cluster of the consonants before it, and trailing
/// consonants form a final cluster without a vowel.
pub open spec fn split_spec<K>(ph: Seq<K>, flags: Seq<bool>) -> Seq<(Option<K>, Seq<K>)> {
    let (done, pending) = split_state(ph, flags, ph.len() as int);
    if pending.len() > 0 {
        done.push((None, pending))
    } else {
        done
    }
}

/// The phonemes of a list of clusters, in order: each cluster's consonants
/// followed by its vowel.
pub open spec fn flatten_clusters<K>(cs: Seq<(Option<K>, Seq<K>)>) -> Seq<K>
    decreases cs.len(),
{
    if cs.len() == 0 {
        Seq::empty()
    } else {
        flatten_clusters(cs.drop_last()) + cs.last().1 + (match cs.last().0 {
            Some(v) => seq![v],
            None => Seq::empty(),
        })
    }
}

/// Reading the phonemes one by one loses and reorders nothing.
pub proof fn lemma_split_state_flatten<K>(ph: Seq<K>, flags: Seq<bool>, n: int)
    requires
        0 <= n <= ph.len(),
        flags.len() == ph.len(),
    ensures
        flatten_clusters(split_state(ph, flags, n).0) + split_state(ph, flags, n).1 == ph.take(n),
    decreases n,
{
    if n > 0 {
        lemma_split_state_flatten(ph, flags, n - 1);
        let (done, pending) = split_state(ph, flags, n - 1);
        if flags[n - 1] {
            let d2 = done.push((Some(ph[n - 1]), pending));
            assert(d2.drop_last() =~= done);
            assert(ph.take(n) =~= ph.take(n - 1).push(ph[n - 1]));
            assert(flatten_clusters(d2) =~= flatten_clusters(done) + pending + seq![ph[n - 1]]);
            assert(flatten_clusters(d2) + Seq::<K>::empty() =~= ph.take(n));
        } else {
            assert(ph.take(n) =~= ph.take(n - 1).push(ph[n - 1]));
            assert(flatten_clusters(done) + pending.push(ph[n - 1]) =~= (flatten_clusters(done) + pending).push(ph[n - 1]));
        }
    } else {
        assert(ph.take(0) =~= Seq::<K>::empty());
    }
}

/// Splitting into clusters partitions the sequence: concatenating the
/// clusters (consonants, then vowel) gives back the phonemes in order.
pub proof fn law_clusters_partition<K>(ph: Seq<K>, flags: Seq<bool>)
    requires
        flags.len() == ph.len(),
    ensures
        flatten_clusters(split_spec(ph, flags)) == ph,
{
    lemma_split_state_flatten(ph, flags, ph.len() as int);
    let (done, pending) = split_state(ph, flags, ph.len() as int);
    assert(ph.take(ph.len() as int) =~= ph);
    if pending.len() > 0 {
        assert(done.push((None, pending)).drop_last() =~= done);
        assert(flatten_clusters(done.push((None, pending))) =~= flatten_clusters(done) + pending);
    } else {
        assert(flatten_clusters(done) + pending =~= flatten_clusters(done));
    }
}

/// Whether `x` occurs in `ph` at a position whose flag is `flag`.
pub open spec fn occurs_flagged<K>(ph: Seq<K>, flags: Seq<bool>, x: K, flag: bool) -> bool {
    exists|j: int| 0 <= j < ph.len() && #[trigger] flags[j] == flag && ph[j] == x
}

/// After reading `n` phonemes every closed cluster has a vowel; closed
/// vowels are read at vowel positions, consonants at the others.
proof fn lemma_split_state_shape<K>(ph: Seq<K>, flags: Seq<bool>, n: int)
    requires
        flags.len() == ph.len(),
        0 <= n <= ph.len(),
    ensures
        forall|c: int| 0 <= c < split_state(ph, flags, n).0.len() ==> {
            &&& (#[trigger] split_state(ph, flags, n).0[c]).0 is Some
            &&& occurs_flagged(ph, flags, split_state(ph, flags, n).0[c].0.unwrap(), true)
            &&& forall|k: int| 0 <= k < split_state(ph, flags, n).0[c].1.len()
                ==> occurs_flagged(ph, flags, #[trigger] split_state(ph, flags, n).0[c].1[k], false)
        },
        forall|k: int| 0 <= k < split_state(ph, flags, n).1.len() ==> occurs_flagged(ph, flags, #[trigger] split_state(ph, flags, n).1[k], false),
    decreases n,
{
    if n > 0 {
        lemma_split_state_shape(ph, flags, n - 1);
        let (done, pending) = split_state(ph, flags, n - 1);
        let (d2, p2) = split_state(ph, flags, n);
        if flags[n - 1] {
            assert(occurs_flagged(ph, flags, ph[n - 1], true)) by {
                assert(flags[n - 1] == true && ph[n - 1] == ph[n - 1]);
            }
            assert forall|c: int| 0 <= c < d2.len() implies {
                &&& (#[trigger] d2[c]).0 is Some
                &&& occurs_flagged(ph, flags, d2[c].0.unwrap(), true)
                &&& forall|k: int| 0 <= k < d2[c].1.len() ==> occurs_flagged(ph, flags, #[trigger] d2[c].1[k], false)
            } by {
                if c < done.len() {
                    assert(d2[c] == done[c]);
                } else {
                    assert(d2[c] == (Some(ph[n - 1]), pending));
                }
            }
        } else {
            assert(occurs_flagged(ph, flags, ph[n - 1], false)) by {
                assert(flags[n - 1] == false && ph[n - 1] == ph[n - 1]);
            }
            assert forall|k: int| 0 <= k < p2.len() implies occurs_flagged(ph, flags, #[trigger] p2[k], false) by {
                if k < pending.len() {
                    assert(p2[k] == pending[k]);
                } else {
                    assert(p2[k] == ph[n - 1]);
                }
            }
        }
    }
}

/// Every cluster's vowel is read where the classifier said "vowel" and its
/// consonants where it did not; only the last cluster may lack a vowel, and
/// then it has consonants.
pub proof fn law_cluster_shape<K>(ph: Seq<K>, flags: Seq<bool>)
    requires
        flags.len() == ph.len(),
    ensures
        forall|c: int| 0 <= c < split_spec(ph, flags).len() ==> {
            &&& ((#[trigger] split_spec(ph, flags)[c]).0 matches Some(v) ==> occurs_flagged(ph, flags, v, true))
            &&& forall|k: int| 0 <= k < split_spec(ph, flags)[c].1.len()
                ==> occurs_flagged(ph, flags, #[trigger] split_spec(ph, flags)[c].1[k], false)
            &&& c + 1 < split_spec(ph, flags).len() ==> split_spec(ph, flags)[c].0 is Some
            &&& split_spec(ph, flags)[c].0 is None ==> split_spec(ph, flags)[c].1.len() > 0
        },
{
    lemma_split_state_shape(ph, flags, ph.len() as int);
    let (done, pending) = split_state(ph, flags, ph.len() as int);
    let sp = split_spec(ph, flags);
    assert forall|c: int| 0 <= c < sp.len() implies {
        &&& ((#[trigger] sp[c]).0 matches Some(v) ==> occurs_flagged(ph, flags, v, true))
        &&& forall|k: int| 0 <= k < sp[c].1.len() ==> occurs_flagged(ph, flags, #[trigger] sp[c].1[k], false)
        &&& c + 1 < sp.len() ==> sp[c].0 is Some
        &&& sp[c].0 is None ==> sp[c].1.len() > 0
    } by {
        if c < done.len() {
            assert(sp[c] == done[c]);
        } else {
            assert(pending.len() > 0);
            assert(sp[c] == (None::<K>, pending));
        }
    }
}

/// Split a phoneme sequence into consonant clusters.
///
/// Vowels act as cluster boundaries: each vowel closes a cluster holding the
/// consonants before it, and consonants after the last vowel form a final
/// cluster with no vowel.
pub fn split_into_clusters<'a, K, F>(phonemes: &'a [K], is_vowel: F) -> (r: Vec<Cluster<&'a K>>)
    where
        F: Fn(&K) -> bool,
    requires
        forall|i: int| 0 <= i < phonemes@.len() ==> is_vowel.requires((&phonemes@[i],)),
    ensures
        exists|flags: Seq<bool>| {
            &&& flags.len() == phonemes@.len()
            &&& forall|i: int| 0 <= i < phonemes@.len() ==> is_vowel.ensures((&phonemes@[i],), #[trigger] flags[i])
            &&& r@.len() == split_spec(phonemes@, flags).len()
            &&& forall|c: int| 0 <= c < r@.len() ==> {
                &&& (#[trigger] r@[c]).vowel.is_some() == split_spec(phonemes@, flags)[c].0.is_some()
                &&& (r@[c].vowel matches Some(v) ==> *v == split_spec(phonemes@, flags)[c].0.unwrap())
                &&& r@[c].consonants@.len() == split_spec(phonemes@, flags)[c].1.len()
                &&& forall|j: int| 0 <= j < r@[c].consonants@.len() ==>
                    *(#[trigger] r@[c].consonants@[j]) == split_spec(phonemes@, flags)[c].1[j]
            }
        },
{
    let mut clusters: Vec<Cluster<&'a K>> = Vec::new();
    let mut current: Vec<&'a K> = Vec::new();
    let ghost mut flags: Seq<bool> = Seq::empty();
    let n = phonemes.len();
    let mut i: usize = 0;
    while i < n
        invariant
            n == phonemes@.len(),
            0 <= i <= n,
            forall|i: int| 0 <= i < phonemes@.len() ==> is_vowel.requires((&phonemes@[i],)),
            flags.len() == i,
            forall|j: int| 0 <= j < i ==> is_vowel.ensures((&phonemes@[j],), #[trigger] flags[j]),
            clusters@.len() == split_state(phonemes@, flags, i as int).0.len(),
            forall|c: int| 0 <= c < clusters@.len() ==> {
                &&& (#[trigger] clusters@[c]).vowel.is_some() == split_state(phonemes@, flags, i as int).0[c].0.is_some()
                &&& (clusters@[c].vowel matches Some(v) ==> *v == split_state(phonemes@, flags, i as int).0[c].0.unwrap())
                &&& clusters@[c].consonants@.len() == split_state(phonemes@, flags, i as int).0[c].1.len()
                &&& forall|j: int| 0 <= j < clusters@[c].consonants@.len() ==>
                    *(#[trigger] clusters@[c].consonants@[j]) == split_state(phonemes@, flags, i as int).0[c].1[j]
            },
            current@.len() == split_state(phonemes@, flags, i as int).1.len(),
            forall|j: int| 0 <= j < current@.len() ==> *(#[trigger] current@[j]) == split_state(phonemes@, flags, i as int).1[j],
        decreases n - i,
    {
        let phoneme = &phonemes[i];
        let v = is_vowel(phoneme);
        let ghost old_flags = flags;
        proof {
            flags = flags.push(v);
            assert forall|j: int| 0 <= j < i implies split_state(phonemes@, flags, j) == split_state(phonemes@, old_flags, j) by {
                lemma_split_state_prefix(phonemes@, flags, old_flags, j);
            }
            lemma_split_state_prefix(phonemes@, flags, old_flags, i as int);
        }
        if v {
            let taken = current;
            current = Vec::new();
            clusters.push(Cluster { vowel: Some(phoneme), consonants: taken });
        } else {
            current.push(phoneme);
        }
        i = i + 1;
    }
    let ghost done = split_state(phonemes@, flags, n as int).0;
    if current.len() > 0 {
        clusters.push(Cluster { vowel: None, consonants: current });
    }
    assert(flags.len() == phonemes@.len());
    clusters
}

/// The split state only depends on the flags it has read.
pub proof fn lemma_split_state_prefix<K>(ph: Seq<K>, f1: Seq<bool>, f2: Seq<bool>, n: int)
    requires
        n <= f1.len(),
        n <= f2.len(),
        forall|j: int| 0 <= j < n ==> f1[j] == f2[j],
    ensures
        split_state(ph, f1, n) == split_state(ph, f2, n),
    decreases n,
{
    if n > 0 {
        lemma_split_state_prefix(ph, f1, f2, n - 1);
    }
}

} // verus!
