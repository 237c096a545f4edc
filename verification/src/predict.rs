//! Timing prediction: a four-level fallback lookup over the timing trees.

use vstd::prelude::*;
use crate::classifier::{MapClassifier, PhonemeClassifier};
use crate::key::PhonemeKey;
use crate::model::{
    cluster_entries, generic_entries, lemma_group_widths, widths_match, cluster_group, copy_strings, opt_seq, generic_group, pairs_total, lemma_pairs_total_prefix, timings_total, strings_view, LanguageInfo, PhonemeType,
    TimingModel, TimingResult,
};
use crate::tree::{keys_view, samples_view, PhonemeTree, TreeNode};

verus! {

/// Fallback duration (ms) for affricates when no data is available.
pub const DEFAULT_AFFRICATE_MS: u32 = 250;
/// Fallback duration (ms) for diphthongs and vowels when no data is available.
pub const DEFAULT_VOWEL_MS: u32 = 400;
/// Fallback duration (ms) for fricatives and sonorants when no data is available.
pub const DEFAULT_FRICATIVE_MS: u32 = 200;
/// Fallback duration (ms) for plosives when no data is available.
pub const DEFAULT_PLOSIVE_MS: u32 = 100;
/// Fallback duration (ms) for taps when no data is available.
pub const DEFAULT_TAP_MS: u32 = 50;
/// Fallback duration (ms) for special phonemes when no data is available.
pub const DEFAULT_SPECIAL_MS: u32 = 200;

/// Depth at which the recursive split stops and per-phoneme defaults are used.
pub const MAX_RECURSION_DEPTH: usize = 16;

/// The fallback duration of a phoneme of type `t`.
pub open spec fn default_ms(t: PhonemeType) -> u32 {
    match t {
        PhonemeType::Affricate => DEFAULT_AFFRICATE_MS,
        PhonemeType::Diphthong | PhonemeType::Vowel => DEFAULT_VOWEL_MS,
        PhonemeType::Fricative | PhonemeType::Sonorant => DEFAULT_FRICATIVE_MS,
        PhonemeType::Plosive => DEFAULT_PLOSIVE_MS,
        PhonemeType::Tap => DEFAULT_TAP_MS,
        PhonemeType::Special => DEFAULT_SPECIAL_MS,
        PhonemeType::Unknown => 0,
    }
}

/// The fallback duration of a phoneme of type `t`.
pub fn default_duration(t: PhonemeType) -> (ms: u32)
    ensures
        ms == default_ms(t),
{
    match t {
        PhonemeType::Affricate => DEFAULT_AFFRICATE_MS,
        PhonemeType::Diphthong | PhonemeType::Vowel => DEFAULT_VOWEL_MS,
        PhonemeType::Fricative | PhonemeType::Sonorant => DEFAULT_FRICATIVE_MS,
        PhonemeType::Plosive => DEFAULT_PLOSIVE_MS,
        PhonemeType::Tap => DEFAULT_TAP_MS,
        PhonemeType::Special => DEFAULT_SPECIAL_MS,
        PhonemeType::Unknown => 0,
    }
}

/// Sum of column `i` over the first `n` samples.
pub open spec fn column_sum(e: Seq<Seq<u16>>, i: int, n: int) -> int
    decreases n,
{
    if n <= 0 {
        0
    } else {
        column_sum(e, i, n - 1) + e[n - 1][i]
    }
}

/// Averaging `e` stays in bounds: every sample is at least as long as the
/// first, and every column sum fits in 64 bits.
pub open spec fn average_defined(e: Seq<Seq<u16>>) -> bool {
    e.len() > 0 ==> {
        &&& forall|j: int| 0 <= j < e.len() ==> #[trigger] e[j].len() >= e[0].len()
        &&& forall|i: int| 0 <= i < e[0].len() ==> #[trigger] column_sum(e, i, e.len() as int) <= u64::MAX
    }
}

/// Per-position integer mean of the samples, as long as the first sample.
pub open spec fn average(e: Seq<Seq<u16>>) -> Seq<u32> {
    if e.len() == 0 {
        Seq::empty()
    } else {
        Seq::new(e[0].len(), |i: int| column_mean(e, i))
    }
}

/// The floor mean of column `i` of the samples.
pub open spec fn column_mean(e: Seq<Seq<u16>>, i: int) -> u32 {
    (column_sum(e, i, e.len() as int) / (e.len() as int)) as u32
}

/// The last element of a non-empty sequence, as a sequence of one.
pub open spec fn last_alone<K>(s: Seq<K>) -> Seq<K> {
    s.subrange(s.len() - 1, s.len() as int)
}

/// Pairs each phoneme with its time, as far as both lists reach.
pub open spec fn zip_times<K>(cluster: Seq<K>, times: Seq<u32>) -> Seq<(K, u32)> {
    Seq::new(
        if cluster.len() <= times.len() { cluster.len() } else { times.len() },
        |i: int| (cluster[i], times[i]),
    )
}

/// Partial column sums never exceed the full one.
pub proof fn lemma_column_sum_mono(e: Seq<Seq<u16>>, i: int, a: int, b: int)
    requires
        0 <= a <= b,
    ensures
        0 <= column_sum(e, i, a) <= column_sum(e, i, b),
    decreases b - a,
{
    if a < b {
        lemma_column_sum_mono(e, i, a, b - 1);
    } else {
        lemma_column_sum_nonneg(e, i, a);
    }
}

/// A column sum of `n` samples is at most `n` times the largest sample.
pub proof fn lemma_column_sum_bound(e: Seq<Seq<u16>>, i: int, n: int)
    requires
        n >= 0,
    ensures
        column_sum(e, i, n) <= n * 65535,
    decreases n,
{
    if n > 0 {
        lemma_column_sum_bound(e, i, n - 1);
    }
}

/// Column sums are never negative.
pub proof fn lemma_column_sum_nonneg(e: Seq<Seq<u16>>, i: int, n: int)
    ensures
        column_sum(e, i, n) >= 0,
    decreases n,
{
    if n > 0 {
        lemma_column_sum_nonneg(e, i, n - 1);
    }
}

/// Largest number of samples per sequence for which a column sum of
/// durations always fits in 64 bits.
pub open spec fn max_group_size() -> int {
    0x1_0000_0000_0000
}

/// Samples of one width, at most `max_group_size()` of them, can be averaged.
pub proof fn lemma_uniform_average_defined(e: Seq<Seq<u16>>, w: int)
    requires
        forall|j: int| 0 <= j < e.len() ==> (#[trigger] e[j]).len() == w,
        e.len() <= max_group_size(),
    ensures
        average_defined(e),
{
    if e.len() > 0 {
        assert forall|i: int| 0 <= i < e[0].len() implies #[trigger] column_sum(e, i, e.len() as int) <= u64::MAX by {
            let n = e.len() as int;
            lemma_column_sum_bound(e, i, n);
            assert(n * 65535 <= 0x1_0000_0000_0000 * 65535) by (nonlinear_arith)
                requires
                    0 <= n <= 0x1_0000_0000_0000,
            ;
        }
    }
}

/// Whether averaging `entries` stays in bounds (see `average_defined`).
pub fn samples_averageable(entries: &[Vec<u16>]) -> (b: bool)
    ensures
        b == average_defined(samples_view(entries@)),
{
    let ghost e = samples_view(entries@);
    let count = entries.len();
    if count == 0 {
        return true;
    }
    let width = entries[0].len();
    let mut j: usize = 0;
    while j < count
        invariant
            e == samples_view(entries@),
            count == entries@.len(),
            count > 0,
            width == e[0].len(),
            0 <= j <= count,
            forall|k: int| 0 <= k < j ==> #[trigger] e[k].len() >= e[0].len(),
        decreases count - j,
    {
        if entries[j].len() < width {
            assert(e[j as int].len() < e[0].len());
            return false;
        }
        j = j + 1;
    }
    let mut i: usize = 0;
    while i < width
        invariant
            e == samples_view(entries@),
            count == entries@.len(),
            count > 0,
            width == e[0].len(),
            forall|k: int| 0 <= k < e.len() ==> #[trigger] e[k].len() >= e[0].len(),
            0 <= i <= width,
            forall|c: int| 0 <= c < i ==> #[trigger] column_sum(e, c, e.len() as int) <= u64::MAX,
        decreases width - i,
    {
        let mut sum: u64 = 0;
        let mut j: usize = 0;
        while j < count
            invariant
                e == samples_view(entries@),
                count == entries@.len(),
                count > 0,
                width == e[0].len(),
                forall|k: int| 0 <= k < e.len() ==> #[trigger] e[k].len() >= e[0].len(),
                i < width,
                0 <= j <= count,
                sum == column_sum(e, i as int, j as int),
            decreases count - j,
        {
            assert(e[j as int].len() >= e[0].len());
            let x = entries[j][i];
            assert(x == e[j as int][i as int]);
            match sum.checked_add(x as u64) {
                Some(t) => {
                    sum = t;
                },
                None => {
                    proof {
                        lemma_column_sum_mono(e, i as int, j + 1, count as int);
                    }
                    return false;
                },
            }
            j = j + 1;
        }
        i = i + 1;
    }
    true
}

/// Per-position integer mean of a list of samples.
pub fn average_timing(entries: &[Vec<u16>]) -> (r: Vec<u32>)
    requires
        average_defined(samples_view(entries@)),
    ensures
        r@ == average(samples_view(entries@)),
{
    let ghost e = samples_view(entries@);
    if entries.len() == 0 {
        assert(average(e) =~= Seq::<u32>::empty());
        return Vec::new();
    }
    let num_phonemes = entries[0].len();
    let count = entries.len();
    let mut averages: Vec<u32> = Vec::new();
    let mut i: usize = 0;
    while i < num_phonemes
        invariant
            e == samples_view(entries@),
            count == entries@.len(),
            count > 0,
            num_phonemes == e[0].len(),
            average_defined(e),
            0 <= i <= num_phonemes,
            averages@ == average(e).take(i as int),
        decreases num_phonemes - i,
    {
        let mut sum: u64 = 0;
        let mut j: usize = 0;
        while j < count
            invariant
                e == samples_view(entries@),
                count == entries@.len(),
                count > 0,
                num_phonemes == e[0].len(),
                average_defined(e),
                i < num_phonemes,
                0 <= j <= count,
                sum == column_sum(e, i as int, j as int),
            decreases count - j,
        {
            proof {
                assert(e[j as int].len() >= e[0].len());
                lemma_column_sum_mono(e, i as int, j + 1, count as int);
                assert(column_sum(e, i as int, e.len() as int) <= u64::MAX);
            }
            let x = entries[j][i];
            assert(x == e[j as int][i as int]);
            sum = sum + x as u64;
            j = j + 1;
        }
        proof {
            lemma_column_sum_bound(e, i as int, count as int);
        }
        let avg = sum / (count as u64);
        assert(avg <= 65535) by (nonlinear_arith)
            requires
                avg == sum / (count as u64),
                sum <= count * 65535,
                count > 0,
        ;
        averages.push(avg as u32);
        assert(averages@ =~= average(e).take(i + 1));
        i = i + 1;
    }
    assert(average(e).take(num_phonemes as int) =~= average(e));
    averages
}

/// Runtime lookup structure for timing prediction.
///
/// Generic over the phoneme key type `K` and the classifier `C` that gives
/// each key its articulatory type for the generic fallback tree.
#[derive(Debug)]
pub struct TimingLookup<K, C> {
    metadata_library: String,
    metadata_language: String,
    metadata_voice_color: String,
    metadata_version: String,
    metadata_created_at: Option<String>,
    metadata_source_files: Option<Vec<String>>,
    cluster_tree: TreeNode<K>,
    generic_tree: TreeNode<PhonemeType>,
    classifier: Box<C>,
}

impl<K: PhonemeKey, C: PhonemeClassifier<K>> TimingLookup<K, C> {
    /// Exact-match tree.
    pub closed spec fn clusters(&self) -> TreeNode<K> {
        self.cluster_tree
    }

    /// Type-based fallback tree.
    pub closed spec fn generics(&self) -> TreeNode<PhonemeType> {
        self.generic_tree
    }

    /// The classifier.
    pub closed spec fn classifier_view(&self) -> C {
        *self.classifier
    }

    /// Library name.
    pub closed spec fn library_view(&self) -> Seq<char> {
        self.metadata_library@
    }

    /// Language name.
    pub closed spec fn language_view(&self) -> Seq<char> {
        self.metadata_language@
    }

    /// Voice color name.
    pub closed spec fn voice_color_view(&self) -> Seq<char> {
        self.metadata_voice_color@
    }

    /// Model version.
    pub closed spec fn version_view(&self) -> Seq<char> {
        self.metadata_version@
    }

    /// Creation timestamp.
    pub closed spec fn created_at_view(&self) -> Option<String> {
        self.metadata_created_at
    }

    /// Source file names.
    pub closed spec fn source_files_view(&self) -> Option<Seq<String>> {
        opt_seq(self.metadata_source_files)
    }

    /// The classifier can answer.
    pub open spec fn wf(&self) -> bool {
        self.classifier_view().ready()
    }

    /// The types the classifier gives a cluster.
    pub open spec fn types_of(&self, cluster: Seq<K>) -> Seq<PhonemeType> {
        cluster.map_values(|k: K| self.classifier_view().classify_spec(k))
    }

    /// The timing the lookup gives `cluster` at recursion depth `depth`,
    /// or `None` where averaging samples would go out of bounds:
    /// 1. exact match of the phonemes in the cluster tree;
    /// 2. match of their types in the generic tree;
    /// 3. per-type defaults for single phonemes (or at the depth limit);
    /// 4. otherwise all but the last phoneme, followed by the last one alone,
    ///    so that each phoneme is timed once.
    pub open spec fn timing_spec(&self, cluster: Seq<K>, depth: nat) -> Option<Seq<(K, u32)>>
        decreases cluster.len(),
    {
        if cluster.len() == 0 {
            Some(Seq::empty())
        } else {
            let exact = self.clusters().entries_at(keys_view(cluster));
            let types = self.types_of(cluster);
            let generic = self.generics().entries_at(keys_view(types));
            if exact.len() > 0 {
                if average_defined(exact) {
                    Some(zip_times(cluster, average(exact)))
                } else {
                    None
                }
            } else if generic.len() > 0 {
                if average_defined(generic) {
                    Some(zip_times(cluster, average(generic)))
                } else {
                    None
                }
            } else if cluster.len() == 1 || depth >= MAX_RECURSION_DEPTH {
                Some(Seq::new(cluster.len(), |i: int| (cluster[i], default_ms(types[i]))))
            } else {
                match (
                    self.timing_spec(cluster.drop_last(), depth + 1),
                    self.timing_spec(last_alone(cluster), depth + 1),
                ) {
                    (Some(a), Some(b)) => Some(a + b),
                    _ => None,
                }
            }
        }
    }

    /// Two lookups with the same samples under every path and the same
    /// classification time every cluster alike.
    pub proof fn lemma_same_contents_same_timing(&self, other: Self, cluster: Seq<K>, depth: nat)
        requires
            forall|p: Seq<K::V>| #[trigger] self.clusters().entries_at(p) == other.clusters().entries_at(p),
            forall|p: Seq<PhonemeType>| #[trigger] self.generics().entries_at(p) == other.generics().entries_at(p),
            forall|k: K| #[trigger] self.classifier_view().classify_spec(k) == other.classifier_view().classify_spec(k),
        ensures
            self.timing_spec(cluster, depth) == other.timing_spec(cluster, depth),
        decreases cluster.len(),
    {
        if cluster.len() > 0 {
            assert(self.types_of(cluster) =~= other.types_of(cluster));
            assert(self.clusters().entries_at(keys_view(cluster)) == other.clusters().entries_at(keys_view(cluster)));
            assert(self.generics().entries_at(keys_view(self.types_of(cluster)))
                == other.generics().entries_at(keys_view(other.types_of(cluster))));
            if cluster.len() > 1 {
                self.lemma_same_contents_same_timing(other, cluster.drop_last(), depth + 1);
                self.lemma_same_contents_same_timing(other, last_alone(cluster), depth + 1);
            }
        }
    }

    /// Level 4: a cluster of two or more phonemes below the depth limit,
    /// with no samples of its own or of its types, is timed as the cluster
    /// without its last phoneme (one level deeper), followed by the timing of
    /// that last phoneme alone; it has a timing exactly when both parts do.
    pub proof fn law_split_level(&self, cluster: Seq<K>, depth: nat)
        requires
            cluster.len() > 1,
            depth < MAX_RECURSION_DEPTH,
            self.clusters().entries_at(keys_view(cluster)).len() == 0,
            self.generics().entries_at(keys_view(self.types_of(cluster))).len() == 0,
        ensures
            self.timing_spec(cluster, depth) is Some <==> (
                self.timing_spec(cluster.subrange(0, cluster.len() - 1), depth + 1) is Some
                && self.timing_spec(seq![cluster[cluster.len() - 1]], depth + 1) is Some),
            self.timing_spec(cluster, depth) is Some ==> self.timing_spec(cluster, depth).unwrap()
                == self.timing_spec(cluster.subrange(0, cluster.len() - 1), depth + 1).unwrap()
                + self.timing_spec(seq![cluster[cluster.len() - 1]], depth + 1).unwrap(),
    {
        assert(cluster.drop_last() =~= cluster.subrange(0, cluster.len() - 1));
        assert(last_alone(cluster) =~= seq![cluster[cluster.len() - 1]]);
    }

    /// Every key in a cluster's timing is one of the cluster's phonemes:
    /// the lookup times the phonemes themselves, never their types.
    pub proof fn law_timing_keys(&self, cluster: Seq<K>, depth: nat)
        ensures
            self.timing_spec(cluster, depth) matches Some(t) ==> forall|i: int| 0 <= i < t.len()
                ==> exists|j: int| 0 <= j < cluster.len() && #[trigger] t[i].0 == cluster[j],
        decreases cluster.len(),
    {
        if cluster.len() > 0 {
            let exact = self.clusters().entries_at(keys_view(cluster));
            let types = self.types_of(cluster);
            let generic = self.generics().entries_at(keys_view(types));
            if exact.len() > 0 || generic.len() > 0 || cluster.len() == 1 || depth >= MAX_RECURSION_DEPTH {
                if let Some(t) = self.timing_spec(cluster, depth) {
                    assert forall|i: int| 0 <= i < t.len() implies exists|j: int| 0 <= j < cluster.len() && #[trigger] t[i].0 == cluster[j] by {
                        assert(t[i].0 == cluster[i]);
                    }
                }
            } else {
                let head = cluster.drop_last();
                let tail = last_alone(cluster);
                self.law_timing_keys(head, depth + 1);
                self.law_timing_keys(tail, depth + 1);
                if let Some(t) = self.timing_spec(cluster, depth) {
                    let a = self.timing_spec(head, depth + 1).unwrap();
                    let b = self.timing_spec(tail, depth + 1).unwrap();
                    assert(t == a + b);
                    assert forall|i: int| 0 <= i < t.len() implies exists|j: int| 0 <= j < cluster.len() && #[trigger] t[i].0 == cluster[j] by {
                        if i < a.len() {
                            assert(t[i] == a[i]);
                            let j = choose|j: int| 0 <= j < head.len() && #[trigger] a[i].0 == head[j];
                            assert(head[j] == cluster[j]);
                        } else {
                            assert(t[i] == b[i - a.len()]);
                            let j = choose|j: int| 0 <= j < tail.len() && #[trigger] b[i - a.len()].0 == tail[j];
                            assert(tail[j] == cluster[cluster.len() - 1]);
                        }
                    }
                }
            }
        }
    }

    /// Build a lookup directly from prebuilt trees and a classifier.
    pub fn from_trees(
        metadata_library: String,
        metadata_language: String,
        metadata_voice_color: String,
        cluster_tree: TreeNode<K>,
        generic_tree: TreeNode<PhonemeType>,
        classifier: Box<C>,
    ) -> (r: Self)
        ensures
            r.library_view() == metadata_library@,
            r.language_view() == metadata_language@,
            r.voice_color_view() == metadata_voice_color@,
            r.version_view() == crate::model::model_format_version(),
            r.created_at_view().is_none(),
            r.source_files_view().is_none(),
            r.clusters() == cluster_tree,
            r.generics() == generic_tree,
            r.classifier_view() == *classifier,
    {
        TimingLookup {
            metadata_library,
            metadata_language,
            metadata_voice_color,
            metadata_version: crate::model::format_version(),
            metadata_created_at: None,
            metadata_source_files: None,
            cluster_tree,
            generic_tree,
            classifier,
        }
    }

    /// The library name from the model metadata.
    pub fn library(&self) -> (s: &str)
        ensures
            s@ == self.library_view(),
    {
        self.metadata_library.as_str()
    }

    /// The language name from the model metadata.
    pub fn language(&self) -> (s: &str)
        ensures
            s@ == self.language_view(),
    {
        self.metadata_language.as_str()
    }

    /// The voice color name from the model metadata.
    pub fn voice_color(&self) -> (s: &str)
        ensures
            s@ == self.voice_color_view(),
    {
        self.metadata_voice_color.as_str()
    }

    /// The model version.
    pub fn model_version(&self) -> (s: &str)
        ensures
            s@ == self.version_view(),
    {
        self.metadata_version.as_str()
    }

    /// The creation timestamp, if available.
    pub fn created_at(&self) -> (r: Option<&str>)
        ensures
            r.is_some() == self.created_at_view().is_some(),
            r matches Some(s) ==> s@ == self.created_at_view().unwrap()@,
    {
        match &self.metadata_created_at {
            Some(s) => Some(s.as_str()),
            None => None,
        }
    }

    /// The source file names, if available.
    pub fn source_files(&self) -> (r: Option<&[String]>)
        ensures
            r.is_some() == self.source_files_view().is_some(),
            r matches Some(s) ==> s@ == self.source_files_view().unwrap(),
    {
        match &self.metadata_source_files {
            Some(v) => Some(v.as_slice()),
            None => None,
        }
    }

    /// The articulatory type of one phoneme.
    fn get_phoneme_type(&self, phoneme: &K) -> (t: PhonemeType)
        requires
            self.wf(),
        ensures
            t == self.classifier_view().classify_spec(*phoneme),
    {
        self.classifier.classify(phoneme)
    }

    /// Timing for a cluster of phonemes, by the four-level fallback:
    /// exact match, type match, per-type default, recursive split.
    pub fn get_timing<'a>(&self, cluster: &'a [K]) -> (r: Vec<(&'a K, u32)>)
        requires
            self.wf(),
            self.timing_spec(cluster@, 0) is Some,
        ensures
            r@.len() == self.timing_spec(cluster@, 0).unwrap().len(),
            forall|i: int| 0 <= i < r@.len() ==> {
                &&& *(#[trigger] r@[i]).0 == self.timing_spec(cluster@, 0).unwrap()[i].0
                &&& r@[i].1 == self.timing_spec(cluster@, 0).unwrap()[i].1
            },
    {
        match self.get_timing_inner(cluster, 0) {
            Some(r) => r,
            None => Vec::new(),
        }
    }

    /// `get_timing` for any cluster: `None` exactly where averaging the
    /// samples of a matched node would go out of bounds.
    pub fn try_get_timing<'a>(&self, cluster: &'a [K]) -> (r: Option<Vec<(&'a K, u32)>>)
        requires
            self.wf(),
        ensures
            r.is_some() == self.timing_spec(cluster@, 0).is_some(),
            r matches Some(v) ==> {
                &&& v@.len() == self.timing_spec(cluster@, 0).unwrap().len()
                &&& forall|i: int| 0 <= i < v@.len() ==> {
                    &&& *(#[trigger] v@[i]).0 == self.timing_spec(cluster@, 0).unwrap()[i].0
                    &&& v@[i].1 == self.timing_spec(cluster@, 0).unwrap()[i].1
                }
            },
    {
        self.get_timing_inner(cluster, 0)
    }

    /// The timing at a given recursion depth, or `None` where averaging
    /// would go out of bounds.
    fn get_timing_inner<'a>(&self, cluster: &'a [K], depth: usize) -> (r: Option<Vec<(&'a K, u32)>>)
        requires
            self.wf(),
            depth <= MAX_RECURSION_DEPTH,
        ensures
            r.is_some() == self.timing_spec(cluster@, depth as nat).is_some(),
            r matches Some(v) ==> {
                &&& v@.len() == self.timing_spec(cluster@, depth as nat).unwrap().len()
                &&& forall|i: int| 0 <= i < v@.len() ==> {
                    &&& *(#[trigger] v@[i]).0 == self.timing_spec(cluster@, depth as nat).unwrap()[i].0
                    &&& v@[i].1 == self.timing_spec(cluster@, depth as nat).unwrap()[i].1
                }
            },
        decreases cluster@.len(),
    {
        let n = cluster.len();
        if n == 0 {
            return Some(Vec::new());
        }
        // Level 1: exact match in the cluster tree.
        match self.cluster_tree.find_node(cluster) {
            Some(node) => {
                if node.entries.len() > 0 {
                    if !samples_averageable(node.entries.as_slice()) {
                        return None;
                    }
                    let times = average_timing(node.entries.as_slice());
                    return Some(zip_cluster(cluster, &times));
                }
            },
            None => {},
        }
        // Level 2: match of the phoneme types in the generic tree.
        let mut types: Vec<PhonemeType> = Vec::new();
        let mut i: usize = 0;
        while i < n
            invariant
                self.wf(),
                n == cluster@.len(),
                0 <= i <= n,
                types@ == self.types_of(cluster@).take(i as int),
            decreases n - i,
        {
            let t = self.get_phoneme_type(&cluster[i]);
            types.push(t);
            assert(types@ =~= self.types_of(cluster@).take(i + 1));
            i = i + 1;
        }
        assert(types@ =~= self.types_of(cluster@));
        match self.generic_tree.find_node(types.as_slice()) {
            Some(node) => {
                if node.entries.len() > 0 {
                    if !samples_averageable(node.entries.as_slice()) {
                        return None;
                    }
                    let times = average_timing(node.entries.as_slice());
                    return Some(zip_cluster(cluster, &times));
                }
            },
            None => {},
        }
        // Level 3: defaults for single phonemes, or at the depth limit.
        if n == 1 || depth >= MAX_RECURSION_DEPTH {
            let mut out: Vec<(&'a K, u32)> = Vec::new();
            let mut i: usize = 0;
            while i < n
                invariant
                    n == cluster@.len(),
                    types@ == self.types_of(cluster@),
                    0 <= i <= n,
                    out@.len() == i,
                    forall|j: int| 0 <= j < i ==> {
                        &&& *(#[trigger] out@[j]).0 == cluster@[j]
                        &&& out@[j].1 == default_ms(types@[j])
                    },
                decreases n - i,
            {
                out.push((&cluster[i], default_duration(types[i])));
                i = i + 1;
            }
            return Some(out);
        }
        // Level 4: all but the last phoneme, then the last one alone.
        let head = &cluster[0..n - 1];
        let tail = &cluster[n - 1..n];
        assert(head@ =~= cluster@.drop_last());
        assert(tail@ =~= last_alone(cluster@));
        let mut first_part = match self.get_timing_inner(head, depth + 1) {
            Some(v) => v,
            None => {
                return None;
            },
        };
        let mut last_part = match self.get_timing_inner(tail, depth + 1) {
            Some(v) => v,
            None => {
                return None;
            },
        };
        let ghost a = first_part@;
        let ghost b = last_part@;
        first_part.append(&mut last_part);
        assert(first_part@ =~= a + b);
        Some(first_part)
    }
}

impl TimingLookup<String, MapClassifier> {
    /// Build a lookup from a model and a language inventory, which supplies
    /// the phoneme types for the generic fallback.
    pub fn from_model(model: &TimingModel, language_info: &LanguageInfo) -> (r: Self)
        requires
            language_info.wf(),
        ensures
            r.wf(),
            r.clusters().wf(),
            r.generics().wf(),
            forall|p: Seq<Seq<char>>| #[trigger] r.clusters().entries_at(p) == cluster_group(model.cluster_timings@, p),
            forall|p: Seq<PhonemeType>| #[trigger] r.generics().entries_at(p) == generic_group(model.generic_timings@, p),
            r.classifier_view().table().map() == language_info.types(),
            r.library_view() == model.metadata.library@,
            r.language_view() == model.metadata.language@,
            r.voice_color_view() == model.metadata.voice_color@,
            r.version_view() == model.version@,
            r.created_at_view() == model.metadata.created_at,
            r.source_files_view() == opt_seq(model.metadata.source_files),
    {
        let PhonemeTree { cluster_tree, generic_tree } = PhonemeTree::from_model(model);
        let classifier = MapClassifier::new(language_info.phonemes.copied());
        TimingLookup {
            metadata_library: model.metadata.library.clone(),
            metadata_language: model.metadata.language.clone(),
            metadata_voice_color: model.metadata.voice_color.clone(),
            metadata_version: model.version.clone(),
            metadata_created_at: clone_opt_string(&model.metadata.created_at),
            metadata_source_files: clone_opt_strings(&model.metadata.source_files),
            cluster_tree,
            generic_tree,
            classifier: Box::new(classifier),
        }
    }

    /// A lookup built from a model whose samples each hold one duration
    /// per element of their sequence (as training builds them), with at most
    /// `max_group_size()` samples per sequence, times every cluster, and
    /// times each of its phonemes exactly once, in order.
    pub proof fn law_consistent_model_times_every_cluster(
        &self,
        model: TimingModel,
        cluster: Seq<String>,
        depth: nat,
    )
        requires
            forall|p: Seq<Seq<char>>| #[trigger] self.clusters().entries_at(p) == cluster_group(model.cluster_timings@, p),
            forall|p: Seq<PhonemeType>| #[trigger] self.generics().entries_at(p) == generic_group(model.generic_timings@, p),
            widths_match(cluster_entries(model.cluster_timings@)),
            widths_match(generic_entries(model.generic_timings@)),
            forall|p: Seq<Seq<char>>| #[trigger] cluster_group(model.cluster_timings@, p).len() <= max_group_size(),
            forall|p: Seq<PhonemeType>| #[trigger] generic_group(model.generic_timings@, p).len() <= max_group_size(),
        ensures
            self.timing_spec(cluster, depth) is Some,
            self.timing_spec(cluster, depth).unwrap().len() == cluster.len(),
            forall|i: int| 0 <= i < cluster.len() ==> (#[trigger] self.timing_spec(cluster, depth).unwrap()[i]).0 == cluster[i],
        decreases cluster.len(),
    {
        if cluster.len() > 0 {
            let kp = keys_view(cluster);
            let types = self.types_of(cluster);
            let tp = keys_view(types);
            let exact = self.clusters().entries_at(kp);
            let generic = self.generics().entries_at(tp);
            lemma_group_widths(cluster_entries(model.cluster_timings@), kp);
            lemma_group_widths(generic_entries(model.generic_timings@), tp);
            assert(exact == cluster_group(model.cluster_timings@, kp));
            assert(generic == generic_group(model.generic_timings@, tp));
            lemma_uniform_average_defined(exact, kp.len() as int);
            lemma_uniform_average_defined(generic, tp.len() as int);
            if exact.len() > 0 {
                assert(exact[0].len() == kp.len());
            } else if generic.len() > 0 {
                assert(generic[0].len() == tp.len());
            } else if !(cluster.len() == 1 || depth >= MAX_RECURSION_DEPTH) {
                let head = cluster.drop_last();
                let tail = last_alone(cluster);
                self.law_consistent_model_times_every_cluster(model, head, depth + 1);
                self.law_consistent_model_times_every_cluster(model, tail, depth + 1);
                let t = self.timing_spec(cluster, depth).unwrap();
                let a = self.timing_spec(head, depth + 1).unwrap();
                let b = self.timing_spec(tail, depth + 1).unwrap();
                assert(t == a + b);
                assert forall|i: int| 0 <= i < cluster.len() implies (#[trigger] t[i]).0 == cluster[i] by {
                    if i < a.len() {
                        assert(t[i] == a[i]);
                    } else {
                        assert(t[i] == b[0]);
                        assert(tail[0] == cluster[i]);
                    }
                }
            }
        }
    }

    /// Level 1: a cluster with samples of its own, one duration per phoneme,
    /// gets the floor mean of each column of those samples, paired with its
    /// phonemes in order, whatever the type-based samples hold.
    pub proof fn law_exact_level(&self, model: TimingModel, cluster: Seq<String>, depth: nat)
        requires
            forall|p: Seq<Seq<char>>| #[trigger] self.clusters().entries_at(p) == cluster_group(model.cluster_timings@, p),
            cluster.len() > 0,
            cluster_group(model.cluster_timings@, keys_view(cluster)).len() > 0,
            cluster_group(model.cluster_timings@, keys_view(cluster)).len() <= max_group_size(),
            forall|j: int| 0 <= j < cluster_group(model.cluster_timings@, keys_view(cluster)).len()
                ==> (#[trigger] cluster_group(model.cluster_timings@, keys_view(cluster))[j]).len() == cluster.len(),
        ensures
            self.timing_spec(cluster, depth) == Some(Seq::new(cluster.len(), |i: int|
                (cluster[i], column_mean(cluster_group(model.cluster_timings@, keys_view(cluster)), i)))),
    {
        let e = cluster_group(model.cluster_timings@, keys_view(cluster));
        assert(self.clusters().entries_at(keys_view(cluster)) == e);
        lemma_uniform_average_defined(e, cluster.len() as int);
        assert(e[0].len() == cluster.len());
        assert(zip_times(cluster, average(e)) =~= Seq::new(cluster.len(), |i: int| (cluster[i], column_mean(e, i))));
    }

    /// Level 2: a cluster without samples of its own, whose phoneme types
    /// (by the inventory, `Unknown` when absent) have samples of one duration
    /// per phoneme, gets the floor mean of each column of those samples,
    /// paired with the phonemes themselves, in order.
    pub proof fn law_generic_level(&self, model: TimingModel, info: LanguageInfo, cluster: Seq<String>, depth: nat)
        requires
            forall|p: Seq<Seq<char>>| #[trigger] self.clusters().entries_at(p) == cluster_group(model.cluster_timings@, p),
            forall|p: Seq<PhonemeType>| #[trigger] self.generics().entries_at(p) == generic_group(model.generic_timings@, p),
            self.classifier_view().table().map() == info.types(),
            cluster.len() > 0,
            cluster_group(model.cluster_timings@, keys_view(cluster)).len() == 0,
            generic_group(model.generic_timings@, inventory_types(info, cluster)).len() > 0,
            generic_group(model.generic_timings@, inventory_types(info, cluster)).len() <= max_group_size(),
            forall|j: int| 0 <= j < generic_group(model.generic_timings@, inventory_types(info, cluster)).len()
                ==> (#[trigger] generic_group(model.generic_timings@, inventory_types(info, cluster))[j]).len() == cluster.len(),
        ensures
            self.timing_spec(cluster, depth) == Some(Seq::new(cluster.len(), |i: int|
                (cluster[i], column_mean(generic_group(model.generic_timings@, inventory_types(info, cluster)), i)))),
    {
        let g = generic_group(model.generic_timings@, inventory_types(info, cluster));
        self.lemma_types_by_inventory(info, cluster);
        assert(self.clusters().entries_at(keys_view(cluster)) == cluster_group(model.cluster_timings@, keys_view(cluster)));
        assert(self.generics().entries_at(keys_view(self.types_of(cluster))) == g);
        lemma_uniform_average_defined(g, cluster.len() as int);
        assert(g[0].len() == cluster.len());
        assert(zip_times(cluster, average(g)) =~= Seq::new(cluster.len(), |i: int| (cluster[i], column_mean(g, i))));
    }

    /// Level 3: a single phoneme (or a cluster at the depth limit) with no
    /// samples of its own or of its types gets each phoneme's type default
    /// (`Unknown`, and so 0, for phonemes missing from the inventory).
    pub proof fn law_default_level(&self, model: TimingModel, info: LanguageInfo, cluster: Seq<String>, depth: nat)
        requires
            forall|p: Seq<Seq<char>>| #[trigger] self.clusters().entries_at(p) == cluster_group(model.cluster_timings@, p),
            forall|p: Seq<PhonemeType>| #[trigger] self.generics().entries_at(p) == generic_group(model.generic_timings@, p),
            self.classifier_view().table().map() == info.types(),
            cluster.len() > 0,
            cluster.len() == 1 || depth >= MAX_RECURSION_DEPTH,
            cluster_group(model.cluster_timings@, keys_view(cluster)).len() == 0,
            generic_group(model.generic_timings@, inventory_types(info, cluster)).len() == 0,
        ensures
            self.timing_spec(cluster, depth) == Some(Seq::new(cluster.len(), |i: int|
                (cluster[i], default_ms(crate::train::label_type(info, cluster[i]@))))),
    {
        self.lemma_types_by_inventory(info, cluster);
        assert(self.clusters().entries_at(keys_view(cluster)) == cluster_group(model.cluster_timings@, keys_view(cluster)));
        assert(self.generics().entries_at(keys_view(self.types_of(cluster))) == generic_group(model.generic_timings@, inventory_types(info, cluster)));
        let t = self.timing_spec(cluster, depth).unwrap();
        assert(t =~= Seq::new(cluster.len(), |i: int| (cluster[i], default_ms(crate::train::label_type(info, cluster[i]@)))));
    }

    /// With the inventory's type table, the lookup classifies each phoneme
    /// as the inventory does.
    pub proof fn lemma_types_by_inventory(&self, info: LanguageInfo, cluster: Seq<String>)
        requires
            self.classifier_view().table().map() == info.types(),
        ensures
            self.types_of(cluster) == inventory_types(info, cluster),
            keys_view(self.types_of(cluster)) == inventory_types(info, cluster),
    {
        assert(self.types_of(cluster) =~= inventory_types(info, cluster));
        assert(keys_view(self.types_of(cluster)) =~= inventory_types(info, cluster));
    }

    /// The prediction for `phonemes` lists exactly the pairs of its timing,
    /// in order, with their sum as the total.
    pub proof fn law_predict_matches_timing(&self, phonemes: Seq<String>, g: Seq<(String, u32)>, r: TimingResult)
        requires
            self.predicted(phonemes, r),
            self.timing_spec(phonemes, 0) == Some(g),
        ensures
            r.timings@.len() == g.len(),
            forall|i: int| 0 <= i < g.len() ==> {
                &&& (#[trigger] r.timings@[i]).phoneme@ == g[i].0@
                &&& r.timings@[i].duration_ms == g[i].1
            },
            r.total_duration_ms == pairs_total(g),
            r.total_duration_ms == timings_total(r.timings@),
    {
    }

    /// `phonemes` can be predicted: averaging stays in bounds and the total
    /// fits in 32 bits.
    pub open spec fn predictable(&self, phonemes: Seq<String>) -> bool {
        &&& self.timing_spec(phonemes, 0) is Some
        &&& pairs_total(self.timing_spec(phonemes, 0).unwrap()) <= u32::MAX
    }

    /// `r` is the prediction for `phonemes`: its timings are the lookup's
    /// timing of the cluster, and its total their sum.
    pub open spec fn predicted(&self, phonemes: Seq<String>, r: TimingResult) -> bool {
        &&& r.timings@.len() == self.timing_spec(phonemes, 0).unwrap().len()
        &&& forall|i: int| 0 <= i < r.timings@.len() ==> {
            &&& (#[trigger] r.timings@[i]).phoneme@ == self.timing_spec(phonemes, 0).unwrap()[i].0@
            &&& r.timings@[i].duration_ms == self.timing_spec(phonemes, 0).unwrap()[i].1
        }
        &&& r.total_duration_ms == pairs_total(self.timing_spec(phonemes, 0).unwrap())
        &&& r.total_duration_ms == timings_total(r.timings@)
    }

    /// Timing for a cluster of phonemes, as a result with its total.
    pub fn predict(&self, phonemes: &[String]) -> (r: TimingResult)
        requires
            self.wf(),
            self.predictable(phonemes@),
        ensures
            self.predicted(phonemes@, r),
    {
        match self.try_predict(phonemes) {
            Some(r) => r,
            None => TimingResult::from_pairs(Vec::new()),
        }
    }

    /// `predict` for any phoneme sequence: `None` exactly where it is not
    /// predictable (averaging would go out of bounds or the total would not
    /// fit in 32 bits).
    pub fn try_predict(&self, phonemes: &[String]) -> (r: Option<TimingResult>)
        requires
            self.wf(),
        ensures
            r.is_some() == self.predictable(phonemes@),
            r matches Some(x) ==> self.predicted(phonemes@, x),
    {
        let pairs = match self.try_get_timing(phonemes) {
            Some(v) => v,
            None => {
                return None;
            },
        };
        let ghost spec = self.timing_spec(phonemes@, 0).unwrap();
        let n = pairs.len();
        let mut owned: Vec<(String, u32)> = Vec::new();
        let mut total: u64 = 0;
        let mut i: usize = 0;
        while i < n
            invariant
                n == pairs@.len(),
                n == spec.len(),
                forall|j: int| 0 <= j < n ==> {
                    &&& *(#[trigger] pairs@[j]).0 == spec[j].0
                    &&& pairs@[j].1 == spec[j].1
                },
                0 <= i <= n,
                owned@ == spec.take(i as int),
                spec == self.timing_spec(phonemes@, 0).unwrap(),
                total == pairs_total(spec.take(i as int)),
                total <= u32::MAX,
            decreases n - i,
        {
            let d = pairs[i].1;
            proof {
                assert(spec.take(i + 1).drop_last() =~= spec.take(i as int));
            }
            if total + (d as u64) > 4294967295 {
                proof {
                    assert(spec.take(i + 1).last() == spec[i as int]);
                    assert(pairs_total(spec.take(i + 1)) > u32::MAX);
                    lemma_pairs_total_prefix(spec, i + 1);
                }
                return None;
            }
            total = total + d as u64;
            let p: String = pairs[i].0.clone();
            owned.push((p, d));
            assert(owned@ =~= spec.take(i + 1));
            i = i + 1;
        }
        assert(spec.take(n as int) =~= spec);
        Some(TimingResult::from_pairs(owned))
    }
}

/// A copy of an optional string.
pub fn clone_opt_string(s: &Option<String>) -> (r: Option<String>)
    ensures
        r == *s,
{
    match s {
        Some(x) => Some(x.clone()),
        None => None,
    }
}

/// A copy of an optional list of strings.
pub fn clone_opt_strings(s: &Option<Vec<String>>) -> (r: Option<Vec<String>>)
    ensures
        r.is_some() == s.is_some(),
        r matches Some(v) ==> v@ == s.unwrap()@,
{
    match s {
        Some(x) => Some(copy_strings(x)),
        None => None,
    }
}

/// The phonemes of `s` that the inventory `types` lacks, in order.
pub open spec fn missing_phonemes(s: Seq<String>, types: Map<Seq<char>, PhonemeType>) -> Seq<Seq<char>>
    decreases s.len(),
{
    if s.len() == 0 {
        Seq::empty()
    } else {
        missing_phonemes(s.drop_last(), types) + (if types.contains_key(s.last()@) {
            Seq::empty()
        } else {
            seq![s.last()@]
        })
    }
}

/// The type of each phoneme by the inventory (`Unknown` when absent).
pub open spec fn inventory_types(info: LanguageInfo, cluster: Seq<String>) -> Seq<PhonemeType> {
    cluster.map_values(|p: String| crate::train::label_type(info, p@))
}

/// Whether a phoneme is missing from a type table.
pub open spec fn unknown_in(types: Map<Seq<char>, PhonemeType>) -> spec_fn(String) -> bool {
    |p: String| !types.contains_key(p@)
}

/// Validation keeps, in order and with repeats, exactly the phonemes the
/// inventory lacks; it finds nothing exactly when every phoneme is known.
pub proof fn law_validate_is_filter(ps: Seq<String>, types: Map<Seq<char>, PhonemeType>)
    ensures
        missing_phonemes(ps, types) == strings_view(ps.filter(unknown_in(types))),
        (missing_phonemes(ps, types).len() == 0) == (forall|i: int| 0 <= i < ps.len() ==> types.contains_key(#[trigger] ps[i]@)),
    decreases ps.len(),
{
    let pred = unknown_in(types);
    reveal(Seq::filter);
    if ps.len() == 0 {
        assert(strings_view(ps.filter(pred)) =~= Seq::<Seq<char>>::empty());
    } else {
        let d = ps.drop_last();
        law_validate_is_filter(d, types);
        let f = d.filter(pred);
        if pred(ps.last()) {
            assert(strings_view(f.push(ps.last())) =~= strings_view(f).push(ps.last()@));
            assert(missing_phonemes(ps, types) =~= missing_phonemes(d, types).push(ps.last()@));
            assert(!types.contains_key(ps[ps.len() - 1]@));
        } else {
            assert(missing_phonemes(ps, types) =~= missing_phonemes(d, types));
            if missing_phonemes(ps, types).len() == 0 {
                assert forall|i: int| 0 <= i < ps.len() implies types.contains_key(#[trigger] ps[i]@) by {
                    if i < d.len() {
                        assert(d[i] == ps[i]);
                    }
                }
            }
            if forall|i: int| 0 <= i < ps.len() ==> types.contains_key(#[trigger] ps[i]@) {
                assert forall|i: int| 0 <= i < d.len() implies types.contains_key(#[trigger] d[i]@) by {
                    assert(d[i] == ps[i]);
                }
            }
        }
        if forall|i: int| 0 <= i < ps.len() ==> types.contains_key(#[trigger] ps[i]@) {
            assert forall|i: int| 0 <= i < d.len() implies types.contains_key(#[trigger] d[i]@) by {
                assert(d[i] == ps[i]);
            }
        }
    }
}

/// The phonemes of `phonemes` that the language inventory lacks, in order.
/// An empty result means all phonemes are known.
pub fn validate_phonemes(phonemes: &[String], language_info: &LanguageInfo) -> (r: Vec<String>)
    requires
        language_info.wf(),
    ensures
        strings_view(r@) == missing_phonemes(phonemes@, language_info.types()),
{
    let mut out: Vec<String> = Vec::new();
    let n = phonemes.len();
    let mut i: usize = 0;
    while i < n
        invariant
            language_info.wf(),
            n == phonemes@.len(),
            0 <= i <= n,
            strings_view(out@) == missing_phonemes(phonemes@.take(i as int), language_info.types()),
        decreases n - i,
    {
        let ghost before = out@;
        if !language_info.contains(phonemes[i].as_str()) {
            out.push(phonemes[i].clone());
        }
        proof {
            let t = phonemes@.take(i + 1);
            assert(t.drop_last() =~= phonemes@.take(i as int));
            assert(t.last() == phonemes@[i as int]);
            assert(strings_view(out@) =~= strings_view(before) + (if language_info.types().contains_key(phonemes@[i as int]@) {
                Seq::empty()
            } else {
                seq![phonemes@[i as int]@]
            }));
        }
        i = i + 1;
    }
    assert(phonemes@.take(n as int) =~= phonemes@);
    out
}

/// Pairs each phoneme of `cluster` with the time at its position, as far as
/// both lists reach.
fn zip_cluster<'a, K>(cluster: &'a [K], times: &Vec<u32>) -> (r: Vec<(&'a K, u32)>)
    ensures
        r@.len() == zip_times(cluster@, times@).len(),
        forall|i: int| 0 <= i < r@.len() ==> {
            &&& *(#[trigger] r@[i]).0 == zip_times(cluster@, times@)[i].0
            &&& r@[i].1 == zip_times(cluster@, times@)[i].1
        },
{
    let n = if cluster.len() <= times.len() { cluster.len() } else { times.len() };
    let mut out: Vec<(&'a K, u32)> = Vec::new();
    let mut i: usize = 0;
    while i < n
        invariant
            n <= cluster@.len(),
            n <= times@.len(),
            n == zip_times(cluster@, times@).len(),
            0 <= i <= n,
            out@.len() == i,
            forall|j: int| 0 <= j < i ==> {
                &&& *(#[trigger] out@[j]).0 == cluster@[j]
                &&& out@[j].1 == times@[j]
            },
        decreases n - i,
    {
        out.push((&cluster[i], times[i]));
        i = i + 1;
    }
    out
}

} // verus!
