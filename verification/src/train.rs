//! Training: turning annotated phoneme intervals into a timing model.

use vstd::prelude::*;
use crate::error::TimingError;
use crate::groups::{
    add_samples, groups_match, groups_to_cluster_timings, groups_to_generic_timings, lemma_groups_result, SampleGroups,
};
use crate::model::{
    lemma_group_of_distinct, lemma_group_widths, widths_match, cluster_entries, distinct_groups, format_version, generic_entries, group_of, has_group, model_format_version,
    opt_seq, strings_view, LanguageInfo, PhonemeType, TimingMetadata, TimingModel,
};
use crate::tree::samples_view;
use crate::table::KeyedTable;

verus! {

/// Training configuration.
#[derive(Debug, Clone, Copy)]
pub struct TrainingConfig {
    /// Minimum duration in ms to include (filters out very short phonemes)
    pub min_duration_ms: u16,
    /// Maximum duration in ms to include (filters out outliers)
    pub max_duration_ms: u16,
}

impl Default for TrainingConfig {
    fn default() -> (c: Self)
        ensures
            c.min_duration_ms == 10,
            c.max_duration_ms == 2000,
    {
        TrainingConfig { min_duration_ms: 10, max_duration_ms: 2000 }
    }
}

/// Labels that mark silence: "Sil", "sil", "sp", "SP" and the empty label.
pub open spec fn silence_label(p: Seq<char>) -> bool {
    ||| p == seq!['S', 'i', 'l']
    ||| p == seq!['s', 'i', 'l']
    ||| p == seq!['s', 'p']
    ||| p == seq!['S', 'P']
    ||| p.len() == 0
}

/// Labels that mark speaker noise: "<noise>", "NOISE", "noise", "<spn>".
pub open spec fn noise_label(p: Seq<char>) -> bool {
    ||| p == seq!['<', 'n', 'o', 'i', 's', 'e', '>']
    ||| p == seq!['N', 'O', 'I', 'S', 'E']
    ||| p == seq!['n', 'o', 'i', 's', 'e']
    ||| p == seq!['<', 's', 'p', 'n', '>']
}

/// Whether two strings have the same content.
fn same_text(a: &str, b: &str) -> (r: bool)
    ensures
        r == (a@ == b@),
{
    a.to_owned() == b.to_owned()
}

/// Check if a label represents silence.
pub fn is_silence(label: &str) -> (b: bool)
    ensures
        b == silence_label(label@),
{
    proof {
        reveal_strlit("Sil");
        assert("Sil"@ =~= seq!['S','i','l']);
        reveal_strlit("sil");
        assert("sil"@ =~= seq!['s','i','l']);
        reveal_strlit("sp");
        assert("sp"@ =~= seq!['s','p']);
        reveal_strlit("SP");
        assert("SP"@ =~= seq!['S','P']);
    }
    same_text(label, "Sil") || same_text(label, "sil") || same_text(label, "sp") || same_text(label, "SP")
        || label.is_empty()
}

/// Check if a label represents speaker noise.
pub fn is_noise(label: &str) -> (b: bool)
    ensures
        b == noise_label(label@),
{
    proof {
        reveal_strlit("<noise>");
        assert("<noise>"@ =~= seq!['<','n','o','i','s','e','>']);
        reveal_strlit("NOISE");
        assert("NOISE"@ =~= seq!['N','O','I','S','E']);
        reveal_strlit("noise");
        assert("noise"@ =~= seq!['n','o','i','s','e']);
        reveal_strlit("<spn>");
        assert("<spn>"@ =~= seq!['<','s','p','n','>']);
    }
    same_text(label, "<noise>") || same_text(label, "NOISE") || same_text(label, "noise") || same_text(label, "<spn>")
}

/// The letters of the annotation file extension, in lower case.
pub open spec fn textgrid_lower() -> Seq<char> {
    seq!['t', 'e', 'x', 't', 'g', 'r', 'i', 'd']
}

/// The letters of the annotation file extension, in upper case.
pub open spec fn textgrid_upper() -> Seq<char> {
    seq!['T', 'E', 'X', 'T', 'G', 'R', 'I', 'D']
}

/// Whether a file extension is "TextGrid" in any mix of ASCII letter case.
pub open spec fn textgrid_extension(e: Seq<char>) -> bool {
    &&& e.len() == 8
    &&& forall|i: int| 0 <= i < 8 ==> (#[trigger] e[i] == textgrid_lower()[i] || e[i] == textgrid_upper()[i])
}

/// Whether a file extension marks an annotation file: "TextGrid", ignoring
/// ASCII case.
pub fn is_textgrid_extension(ext: &str) -> (b: bool)
    ensures
        b == textgrid_extension(ext@),
{
    let n = ext.unicode_len();
    if n != 8 {
        return false;
    }
    let lower = ['t', 'e', 'x', 't', 'g', 'r', 'i', 'd'];
    let upper = ['T', 'E', 'X', 'T', 'G', 'R', 'I', 'D'];
    assert(lower@ =~= textgrid_lower());
    assert(upper@ =~= textgrid_upper());
    let mut i: usize = 0;
    while i < 8
        invariant
            n == ext@.len(),
            n == 8,
            lower@ == textgrid_lower(),
            upper@ == textgrid_upper(),
            0 <= i <= 8,
            forall|j: int| 0 <= j < i ==> (#[trigger] ext@[j] == textgrid_lower()[j] || ext@[j] == textgrid_upper()[j]),
        decreases 8 - i,
    {
        let c = ext.get_char(i);
        if c != lower[i] && c != upper[i] {
            assert(!(ext@[i as int] == textgrid_lower()[i as int] || ext@[i as int] == textgrid_upper()[i as int]));
            return false;
        }
        i = i + 1;
    }
    true
}

/// A phoneme with its duration.
#[derive(Debug, Clone)]
pub struct ParsedPhoneme {
    /// The phoneme label.
    pub label: String,
    /// Its duration in milliseconds.
    pub duration_ms: u16,
}

/// A copy of a parsed phoneme.
pub fn copy_parsed(p: &ParsedPhoneme) -> (r: ParsedPhoneme)
    ensures
        r == *p,
{
    ParsedPhoneme { label: p.label.clone(), duration_ms: p.duration_ms }
}

/// Closed consonant clusters and the current run, after the first `n`
/// phonemes: nuclei end a run (an empty run is dropped), others extend it.
pub open spec fn vowel_split_state(ph: Seq<ParsedPhoneme>, info: LanguageInfo, n: int) -> (Seq<Seq<ParsedPhoneme>>, Seq<ParsedPhoneme>)
    decreases n,
{
    if n <= 0 {
        (Seq::empty(), Seq::empty())
    } else {
        let (done, cur) = vowel_split_state(ph, info, n - 1);
        if info.is_nucleus(ph[n - 1].label@) {
            if cur.len() > 0 {
                (done.push(cur), Seq::empty())
            } else {
                (done, Seq::empty())
            }
        } else {
            (done, cur.push(ph[n - 1]))
        }
    }
}

/// The maximal runs of consonants (non-nuclei) of `ph`, in order.
pub open spec fn split_by_vowels_spec(ph: Seq<ParsedPhoneme>, info: LanguageInfo) -> Seq<Seq<ParsedPhoneme>> {
    let (done, cur) = vowel_split_state(ph, info, ph.len() as int);
    if cur.len() > 0 {
        done.push(cur)
    } else {
        done
    }
}

/// Concatenation of a list of clusters.
pub open spec fn concat_clusters(cs: Seq<Seq<ParsedPhoneme>>) -> Seq<ParsedPhoneme>
    decreases cs.len(),
{
    if cs.len() == 0 {
        Seq::empty()
    } else {
        concat_clusters(cs.drop_last()) + cs.last()
    }
}

/// The phonemes of `ph` that are not syllable nuclei, in order.
pub open spec fn consonants_of(ph: Seq<ParsedPhoneme>, info: LanguageInfo) -> Seq<ParsedPhoneme>
    decreases ph.len(),
{
    if ph.len() == 0 {
        Seq::empty()
    } else {
        consonants_of(ph.drop_last(), info) + (if info.is_nucleus(ph.last().label@) {
            Seq::empty()
        } else {
            seq![ph.last()]
        })
    }
}

/// The split state keeps every consonant, in order, and only non-empty
/// clusters free of nuclei.
pub proof fn lemma_vowel_split_state(ph: Seq<ParsedPhoneme>, info: LanguageInfo, n: int)
    requires
        0 <= n <= ph.len(),
    ensures
        concat_clusters(vowel_split_state(ph, info, n).0) + vowel_split_state(ph, info, n).1 == consonants_of(ph.take(n), info),
        forall|c: int| 0 <= c < vowel_split_state(ph, info, n).0.len() ==> (#[trigger] vowel_split_state(ph, info, n).0[c]).len() > 0,
        forall|c: int, j: int| 0 <= c < vowel_split_state(ph, info, n).0.len() && 0 <= j < vowel_split_state(ph, info, n).0[c].len()
            ==> !info.is_nucleus((#[trigger] vowel_split_state(ph, info, n).0[c][j]).label@),
        forall|j: int| 0 <= j < vowel_split_state(ph, info, n).1.len()
            ==> !info.is_nucleus((#[trigger] vowel_split_state(ph, info, n).1[j]).label@),
    decreases n,
{
    if n == 0 {
        assert(ph.take(0) =~= Seq::<ParsedPhoneme>::empty());
    } else {
        lemma_vowel_split_state(ph, info, n - 1);
        let (done, cur) = vowel_split_state(ph, info, n - 1);
        assert(ph.take(n).drop_last() =~= ph.take(n - 1));
        assert(ph.take(n).last() == ph[n - 1]);
        if info.is_nucleus(ph[n - 1].label@) {
            if cur.len() > 0 {
                let d2 = done.push(cur);
                assert(d2.drop_last() =~= done);
                assert(concat_clusters(d2) + Seq::<ParsedPhoneme>::empty() =~= concat_clusters(done) + cur);
            } else {
                assert(concat_clusters(done) + Seq::<ParsedPhoneme>::empty() =~= concat_clusters(done) + cur);
            }
            assert(consonants_of(ph.take(n), info) =~= consonants_of(ph.take(n - 1), info));
        } else {
            assert(concat_clusters(done) + cur.push(ph[n - 1]) =~= (concat_clusters(done) + cur).push(ph[n - 1]));
            assert(consonants_of(ph.take(n), info) =~= consonants_of(ph.take(n - 1), info).push(ph[n - 1]));
        }
    }
}

/// Splitting by vowels keeps exactly the consonants, in order, in non-empty
/// clusters that hold no vowel or diphthong.
pub proof fn law_split_by_vowels(ph: Seq<ParsedPhoneme>, info: LanguageInfo)
    ensures
        concat_clusters(split_by_vowels_spec(ph, info)) == consonants_of(ph, info),
        forall|c: int| 0 <= c < split_by_vowels_spec(ph, info).len() ==> (#[trigger] split_by_vowels_spec(ph, info)[c]).len() > 0,
        forall|c: int, j: int| 0 <= c < split_by_vowels_spec(ph, info).len() && 0 <= j < split_by_vowels_spec(ph, info)[c].len()
            ==> !info.is_nucleus((#[trigger] split_by_vowels_spec(ph, info)[c][j]).label@),
{
    lemma_vowel_split_state(ph, info, ph.len() as int);
    assert(ph.take(ph.len() as int) =~= ph);
    let (done, cur) = vowel_split_state(ph, info, ph.len() as int);
    if cur.len() > 0 {
        let d2 = done.push(cur);
        assert(d2.drop_last() =~= done);
    } else {
        assert(concat_clusters(done) + cur =~= concat_clusters(done));
    }
}

/// Split a phoneme sequence into consonant clusters at its vowels and
/// diphthongs, which are not kept. Empty clusters are dropped.
///
/// Example: `[k, a, t, s, i]` gives `[k]`, `[t, s]`.
pub fn split_by_vowels(phonemes: &[ParsedPhoneme], language_info: &LanguageInfo) -> (r: Vec<Vec<ParsedPhoneme>>)
    ensures
        r@.len() == split_by_vowels_spec(phonemes@, *language_info).len(),
        forall|c: int| 0 <= c < r@.len() ==> (#[trigger] r@[c])@ == split_by_vowels_spec(phonemes@, *language_info)[c],
{
    let ghost ph = phonemes@;
    let ghost info = *language_info;
    let mut clusters: Vec<Vec<ParsedPhoneme>> = Vec::new();
    let mut current: Vec<ParsedPhoneme> = Vec::new();
    let n = phonemes.len();
    let mut i: usize = 0;
    while i < n
        invariant
            n == ph.len(),
            ph == phonemes@,
            info == *language_info,
            0 <= i <= n,
            clusters@.len() == vowel_split_state(ph, info, i as int).0.len(),
            forall|c: int| 0 <= c < clusters@.len() ==> (#[trigger] clusters@[c])@ == vowel_split_state(ph, info, i as int).0[c],
            current@ == vowel_split_state(ph, info, i as int).1,
        decreases n - i,
    {
        if language_info.is_vowel(phonemes[i].label.as_str()) {
            if current.len() > 0 {
                let done = current;
                current = Vec::new();
                clusters.push(done);
            }
        } else {
            current.push(copy_parsed(&phonemes[i]));
        }
        i = i + 1;
    }
    if current.len() > 0 {
        clusters.push(current);
    }
    clusters
}

/// The view of a list of clusters.
pub open spec fn clusters_view(v: Seq<Vec<ParsedPhoneme>>) -> Seq<Seq<ParsedPhoneme>> {
    v.map_values(|c: Vec<ParsedPhoneme>| c@)
}

/// One labelled interval of an annotation tier, with its duration in
/// whole milliseconds.
#[derive(Debug, Clone)]
pub struct IntervalData {
    /// The interval's label.
    pub text: String,
    /// The interval's duration in milliseconds.
    pub duration_ms: u16,
}

/// One tier of an annotation file.
#[derive(Debug, Clone)]
pub enum TierData {
    /// A tier of labelled intervals.
    IntervalTier(Vec<IntervalData>),
    /// A tier of points, which carries no durations.
    PointTier,
}

/// The label an interval gets: its translation when the label map has one,
/// else its own label.
pub open spec fn translate_label(text: String, label_map: Option<KeyedTable<String, String>>) -> String {
    match label_map {
        Some(m) => if m.map().contains_key(text@) {
            m.map()[text@]
        } else {
            text
        },
        None => text,
    }
}

/// The intervals whose duration lies within the configured bounds, with
/// translated labels, in order.
pub open spec fn kept_phonemes(ivs: Seq<IntervalData>, config: TrainingConfig, label_map: Option<KeyedTable<String, String>>) -> Seq<ParsedPhoneme>
    decreases ivs.len(),
{
    if ivs.len() == 0 {
        Seq::empty()
    } else {
        let iv = ivs.last();
        kept_phonemes(ivs.drop_last(), config, label_map) + (if iv.duration_ms < config.min_duration_ms
            || iv.duration_ms > config.max_duration_ms {
            Seq::empty()
        } else {
            seq![ParsedPhoneme { label: translate_label(iv.text, label_map), duration_ms: iv.duration_ms }]
        })
    }
}

/// Closed segments and the current one after the first `n` phonemes, where
/// silences separate segments and are dropped.
pub open spec fn silence_state(ph: Seq<ParsedPhoneme>, n: int) -> (Seq<Seq<ParsedPhoneme>>, Seq<ParsedPhoneme>)
    decreases n,
{
    if n <= 0 {
        (Seq::empty(), Seq::empty())
    } else {
        let (done, cur) = silence_state(ph, n - 1);
        if silence_label(ph[n - 1].label@) {
            (done.push(cur), Seq::empty())
        } else {
            (done, cur.push(ph[n - 1]))
        }
    }
}

/// The segments of `ph` between silences (possibly empty), in order.
pub open spec fn silence_segments(ph: Seq<ParsedPhoneme>) -> Seq<Seq<ParsedPhoneme>> {
    let (done, cur) = silence_state(ph, ph.len() as int);
    done.push(cur)
}

/// The consonant clusters of each non-empty utterance, in order.
pub open spec fn utterance_clusters(us: Seq<Seq<ParsedPhoneme>>, info: LanguageInfo) -> Seq<Seq<ParsedPhoneme>>
    decreases us.len(),
{
    if us.len() == 0 {
        Seq::empty()
    } else {
        utterance_clusters(us.drop_last(), info) + (if us.last().len() == 0 {
            Seq::empty()
        } else {
            split_by_vowels_spec(us.last(), info)
        })
    }
}

/// A cluster is kept for training when it is non-empty and holds no silence
/// or noise label.
pub open spec fn valid_cluster(c: Seq<ParsedPhoneme>) -> bool {
    c.len() > 0 && forall|j: int| 0 <= j < c.len() ==> !silence_label((#[trigger] c[j]).label@) && !noise_label(c[j].label@)
}

/// The valid clusters of `cs`, in order.
pub open spec fn valid_clusters(cs: Seq<Seq<ParsedPhoneme>>) -> Seq<Seq<ParsedPhoneme>>
    decreases cs.len(),
{
    if cs.len() == 0 {
        Seq::empty()
    } else {
        valid_clusters(cs.drop_last()) + (if valid_cluster(cs.last()) {
            seq![cs.last()]
        } else {
            Seq::empty()
        })
    }
}

/// The training clusters of one interval tier.
pub open spec fn tier_clusters(ivs: Seq<IntervalData>, info: LanguageInfo, config: TrainingConfig, label_map: Option<KeyedTable<String, String>>) -> Seq<Seq<ParsedPhoneme>> {
    valid_clusters(utterance_clusters(silence_segments(kept_phonemes(ivs, config, label_map)), info))
}

/// The label map as a value, when there is one.
pub open spec fn opt_table(m: Option<&KeyedTable<String, String>>) -> Option<KeyedTable<String, String>> {
    match m {
        Some(t) => Some(*t),
        None => None,
    }
}

/// Reason given for an annotation file without tiers.
pub open spec fn no_tiers_reason() -> Seq<char> {
    "TextGrid has no tiers"@
}

/// Reason given when the last tier holds points.
pub open spec fn point_tier_reason() -> Seq<char> {
    "expected IntervalTier, got PointTier"@
}

/// The intervals within the configured duration bounds, with their labels
/// translated through the label map, in order.
fn kept_intervals(
    intervals: &Vec<IntervalData>,
    config: &TrainingConfig,
    label_map: Option<&KeyedTable<String, String>>,
) -> (phonemes: Vec<ParsedPhoneme>)
    requires
        label_map matches Some(m) ==> m.wf(),
    ensures
        phonemes@ == kept_phonemes(intervals@, *config, opt_table(label_map)),
{
    let ghost lm = opt_table(label_map);
    let mut phonemes: Vec<ParsedPhoneme> = Vec::new();
    let n = intervals.len();
    let mut i: usize = 0;
    while i < n
        invariant
            n == intervals@.len(),
            lm == opt_table(label_map),
            label_map matches Some(m) ==> m.wf(),
            0 <= i <= n,
            phonemes@ == kept_phonemes(intervals@.take(i as int), *config, lm),
        decreases n - i,
    {
        let iv = &intervals[i];
        let ghost before = phonemes@;
        proof {
            assert(intervals@.take(i + 1).drop_last() =~= intervals@.take(i as int));
            assert(intervals@.take(i + 1).last() == intervals@[i as int]);
        }
        if iv.duration_ms < config.min_duration_ms || iv.duration_ms > config.max_duration_ms {
            assert(phonemes@ =~= kept_phonemes(intervals@.take(i + 1), *config, lm));
        } else {
            let label: String = match label_map {
                Some(m) => match m.get(&iv.text) {
                    Some(t) => t.clone(),
                    None => iv.text.clone(),
                },
                None => iv.text.clone(),
            };
            phonemes.push(ParsedPhoneme { label, duration_ms: iv.duration_ms });
            assert(phonemes@ =~= kept_phonemes(intervals@.take(i + 1), *config, lm));
        }
        i = i + 1;
    }
    assert(intervals@.take(n as int) =~= intervals@);
    phonemes
}

/// The labels of `ph` that are neither silence, noise nor listed in the
/// inventory, in order and with repeats.
pub open spec fn unknown_labels_of(ph: Seq<ParsedPhoneme>, info: LanguageInfo) -> Seq<Seq<char>>
    decreases ph.len(),
{
    if ph.len() == 0 {
        Seq::empty()
    } else {
        let l = ph.last().label@;
        unknown_labels_of(ph.drop_last(), info) + (if !silence_label(l) && !noise_label(l) && !info.types().contains_key(l) {
            seq![l]
        } else {
            Seq::empty()
        })
    }
}

/// The unknown labels of an annotation file: those of the kept intervals
/// of its last tier, when that is an interval tier; none otherwise.
pub open spec fn tier_unknown_labels(
    tiers: Seq<TierData>,
    info: LanguageInfo,
    config: TrainingConfig,
    label_map: Option<KeyedTable<String, String>>,
) -> Seq<Seq<char>> {
    if tiers.len() == 0 {
        Seq::empty()
    } else {
        match tiers.last() {
            TierData::IntervalTier(ivs) => unknown_labels_of(kept_phonemes(ivs@, config, label_map), info),
            TierData::PointTier => Seq::empty(),
        }
    }
}

/// The labels of an annotation file's phoneme tier, after the duration
/// bounds and the label map, that are neither silence, noise nor in the
/// inventory: one per such interval, in order. Training still uses them,
/// with type `Unknown`; callers may warn about them.
pub fn unknown_labels(
    tiers: &Vec<TierData>,
    language_info: &LanguageInfo,
    config: &TrainingConfig,
    label_map: Option<&KeyedTable<String, String>>,
) -> (r: Vec<String>)
    requires
        label_map matches Some(m) ==> m.wf(),
        language_info.wf(),
    ensures
        strings_view(r@) == tier_unknown_labels(tiers@, *language_info, *config, opt_table(label_map)),
{
    let mut out: Vec<String> = Vec::new();
    if tiers.len() == 0 {
        assert(strings_view(out@) =~= Seq::<Seq<char>>::empty());
        return out;
    }
    let intervals = match &tiers[tiers.len() - 1] {
        TierData::IntervalTier(ivs) => ivs,
        TierData::PointTier => {
            assert(strings_view(out@) =~= Seq::<Seq<char>>::empty());
            return out;
        },
    };
    let phonemes = kept_intervals(intervals, config, label_map);
    let ghost ph = phonemes@;
    let n = phonemes.len();
    let mut i: usize = 0;
    while i < n
        invariant
            n == ph.len(),
            ph == phonemes@,
            language_info.wf(),
            0 <= i <= n,
            strings_view(out@) == unknown_labels_of(ph.take(i as int), *language_info),
        decreases n - i,
    {
        proof {
            assert(ph.take(i + 1).drop_last() =~= ph.take(i as int));
            assert(ph.take(i + 1).last() == ph[i as int]);
        }
        let label = phonemes[i].label.as_str();
        let ghost before = out@;
        if !is_silence(label) && !is_noise(label) && !language_info.contains(label) {
            out.push(phonemes[i].label.clone());
            assert(strings_view(out@) =~= strings_view(before).push(ph[i as int].label@));
        } else {
            assert(strings_view(out@) =~= strings_view(before));
        }
        assert(strings_view(out@) =~= unknown_labels_of(ph.take(i + 1), *language_info));
        i = i + 1;
    }
    assert(ph.take(n as int) =~= ph);
    out
}

/// Extract the training clusters of one annotation file.
///
/// The last tier is the phoneme tier. Intervals outside the configured
/// duration bounds are skipped and labels are translated through the label
/// map. Silences split the phonemes into utterances, vowels and diphthongs
/// split each utterance into consonant clusters, and clusters holding
/// silence or noise are dropped.
pub fn extract_clusters(
    path: &str,
    tiers: &Vec<TierData>,
    language_info: &LanguageInfo,
    config: &TrainingConfig,
    label_map: Option<&KeyedTable<String, String>>,
) -> (r: Result<Vec<Vec<ParsedPhoneme>>, TimingError>)
    requires
        label_map matches Some(m) ==> m.wf(),
    ensures
        match r {
            Ok(cs) => tiers@.len() > 0 && (tiers@.last() matches TierData::IntervalTier(ivs)
                && clusters_view(cs@) == tier_clusters(ivs@, *language_info, *config, opt_table(label_map))),
            Err(e) => e matches TimingError::TextGrid { path: p, reason } && p@ == path@ && (
                (tiers@.len() == 0 && reason@ == no_tiers_reason())
                || (tiers@.len() > 0 && tiers@.last() is PointTier && reason@ == point_tier_reason())),
        },
{
    if tiers.len() == 0 {
        return Err(TimingError::TextGrid { path: path.to_owned(), reason: "TextGrid has no tiers".to_owned() });
    }
    let intervals = match &tiers[tiers.len() - 1] {
        TierData::IntervalTier(ivs) => ivs,
        TierData::PointTier => {
            return Err(TimingError::TextGrid {
                path: path.to_owned(),
                reason: "expected IntervalTier, got PointTier".to_owned(),
            });
        },
    };
    let ghost lm = opt_table(label_map);

    // Keep the intervals within the duration bounds, translating labels.
    let phonemes = kept_intervals(intervals, config, label_map);

    // Split into utterances at silences.
    let ghost ph = phonemes@;
    let mut utterances: Vec<Vec<ParsedPhoneme>> = Vec::new();
    let mut current: Vec<ParsedPhoneme> = Vec::new();
    let m = phonemes.len();
    let mut i: usize = 0;
    while i < m
        invariant
            m == ph.len(),
            ph == phonemes@,
            0 <= i <= m,
            clusters_view(utterances@) == silence_state(ph, i as int).0,
            current@ == silence_state(ph, i as int).1,
        decreases m - i,
    {
        let ghost before = utterances@;
        if is_silence(phonemes[i].label.as_str()) {
            let seg = current;
            current = Vec::new();
            utterances.push(seg);
            assert(clusters_view(utterances@) =~= clusters_view(before).push(silence_state(ph, i as int).1));
        } else {
            current.push(copy_parsed(&phonemes[i]));
        }
        i = i + 1;
    }
    let ghost before = utterances@;
    utterances.push(current);
    assert(clusters_view(utterances@) =~= clusters_view(before).push(silence_state(ph, m as int).1));
    let ghost us = clusters_view(utterances@);
    assert(us == silence_segments(ph));

    // Split each utterance into consonant clusters.
    let mut all_clusters: Vec<Vec<ParsedPhoneme>> = Vec::new();
    let k = utterances.len();
    let mut i: usize = 0;
    while i < k
        invariant
            k == utterances@.len(),
            us == clusters_view(utterances@),
            0 <= i <= k,
            clusters_view(all_clusters@) == utterance_clusters(us.take(i as int), *language_info),
        decreases k - i,
    {
        let ghost before = clusters_view(all_clusters@);
        proof {
            assert(us.take(i + 1).drop_last() =~= us.take(i as int));
            assert(us.take(i + 1).last() == us[i as int]);
            assert(us[i as int] == utterances@[i as int]@);
        }
        if utterances[i].len() > 0 {
            let cs = split_by_vowels(utterances[i].as_slice(), language_info);
            let ghost cv = clusters_view(cs@);
            assert(cv =~= split_by_vowels_spec(utterances@[i as int]@, *language_info));
            let c = cs.len();
            let mut j: usize = 0;
            let mut cs_src = cs;
            let mut moved: Vec<Vec<ParsedPhoneme>> = Vec::new();
            while j < c
                invariant
                    c == cs_src@.len(),
                    clusters_view(cs_src@) == cv,
                    0 <= j <= c,
                    clusters_view(moved@) == cv.take(j as int),
                decreases c - j,
            {
                let ghost mb = moved@;
                moved.push(copy_cluster(&cs_src[j]));
                assert(clusters_view(moved@) =~= clusters_view(mb).push(cv[j as int]));
                assert(cv.take(j + 1) =~= cv.take(j as int).push(cv[j as int]));
                j = j + 1;
            }
            assert(cv.take(c as int) =~= cv);
            let ghost ab = all_clusters@;
            all_clusters.append(&mut moved);
            assert(clusters_view(all_clusters@) =~= clusters_view(ab) + cv);
        } else {
            assert(us.take(i + 1).last().len() == 0);
        }
        i = i + 1;
    }
    assert(us.take(k as int) =~= us);

    // Keep the non-empty clusters free of silence and noise.
    let ghost ac = clusters_view(all_clusters@);
    let mut kept: Vec<Vec<ParsedPhoneme>> = Vec::new();
    let q = all_clusters.len();
    let mut i: usize = 0;
    while i < q
        invariant
            q == all_clusters@.len(),
            ac == clusters_view(all_clusters@),
            0 <= i <= q,
            clusters_view(kept@) == valid_clusters(ac.take(i as int)),
        decreases q - i,
    {
        let ghost kb = kept@;
        proof {
            assert(ac.take(i + 1).drop_last() =~= ac.take(i as int));
            assert(ac.take(i + 1).last() == ac[i as int]);
            assert(ac[i as int] == all_clusters@[i as int]@);
        }
        if cluster_is_valid(&all_clusters[i]) {
            kept.push(copy_cluster(&all_clusters[i]));
            assert(clusters_view(kept@) =~= clusters_view(kb).push(ac[i as int]));
        } else {
            assert(clusters_view(kept@) =~= valid_clusters(ac.take(i + 1)));
        }
        i = i + 1;
    }
    assert(ac.take(q as int) =~= ac);
    Ok(kept)
}

/// Whether a cluster is kept for training.
fn cluster_is_valid(c: &Vec<ParsedPhoneme>) -> (b: bool)
    ensures
        b == valid_cluster(c@),
{
    if c.len() == 0 {
        return false;
    }
    let n = c.len();
    let mut i: usize = 0;
    while i < n
        invariant
            n == c@.len(),
            0 <= i <= n,
            forall|j: int| 0 <= j < i ==> !silence_label((#[trigger] c@[j]).label@) && !noise_label(c@[j].label@),
        decreases n - i,
    {
        if is_silence(c[i].label.as_str()) || is_noise(c[i].label.as_str()) {
            return false;
        }
        i = i + 1;
    }
    true
}

/// A copy of a cluster.
pub fn copy_cluster(c: &Vec<ParsedPhoneme>) -> (r: Vec<ParsedPhoneme>)
    ensures
        r@ == c@,
{
    let mut out: Vec<ParsedPhoneme> = Vec::new();
    let n = c.len();
    let mut i: usize = 0;
    while i < n
        invariant
            n == c@.len(),
            0 <= i <= n,
            out@ == c@.take(i as int),
        decreases n - i,
    {
        out.push(copy_parsed(&c[i]));
        assert(out@ =~= c@.take(i + 1));
        i = i + 1;
    }
    assert(c@.take(n as int) =~= c@);
    out
}

/// The labels of a cluster.
pub open spec fn cluster_labels(c: Seq<ParsedPhoneme>) -> Seq<Seq<char>> {
    c.map_values(|p: ParsedPhoneme| p.label@)
}

/// The durations of a cluster.
pub open spec fn cluster_durations(c: Seq<ParsedPhoneme>) -> Seq<u16> {
    c.map_values(|p: ParsedPhoneme| p.duration_ms)
}

/// The type the inventory gives a label (`Unknown` when it has none).
pub open spec fn label_type(info: LanguageInfo, label: Seq<char>) -> PhonemeType {
    if info.types().contains_key(label) {
        info.types()[label]
    } else {
        PhonemeType::Unknown
    }
}

/// Each non-empty cluster as its labels and its one sample of durations.
pub open spec fn cluster_samples(cs: Seq<Seq<ParsedPhoneme>>) -> Seq<(Seq<Seq<char>>, Seq<Seq<u16>>)>
    decreases cs.len(),
{
    if cs.len() == 0 {
        Seq::empty()
    } else {
        cluster_samples(cs.drop_last()) + (if cs.last().len() == 0 {
            Seq::empty()
        } else {
            seq![(cluster_labels(cs.last()), seq![cluster_durations(cs.last())])]
        })
    }
}

/// Each non-empty cluster as the types of its labels and its one sample of
/// durations.
pub open spec fn type_samples(cs: Seq<Seq<ParsedPhoneme>>, info: LanguageInfo) -> Seq<(Seq<PhonemeType>, Seq<Seq<u16>>)>
    decreases cs.len(),
{
    if cs.len() == 0 {
        Seq::empty()
    } else {
        type_samples(cs.drop_last(), info) + (if cs.last().len() == 0 {
            Seq::empty()
        } else {
            seq![(cluster_labels(cs.last()).map_values(|l: Seq<char>| label_type(info, l)), seq![cluster_durations(cs.last())])]
        })
    }
}

/// Each cluster's one sample holds one duration per label (and per type).
pub proof fn lemma_sample_widths(cs: Seq<Seq<ParsedPhoneme>>, info: LanguageInfo)
    ensures
        widths_match(cluster_samples(cs)),
        widths_match(type_samples(cs, info)),
    decreases cs.len(),
{
    if cs.len() > 0 {
        lemma_sample_widths(cs.drop_last(), info);
        let a = cluster_samples(cs.drop_last());
        let b = type_samples(cs.drop_last(), info);
        let c = cs.last();
        let ca = cluster_samples(cs);
        let tb = type_samples(cs, info);
        assert forall|i: int, j: int| 0 <= i < ca.len() && 0 <= j < ca[i].1.len() implies (#[trigger] ca[i].1[j]).len() == ca[i].0.len() by {
            if i < a.len() {
                assert(ca[i] == a[i]);
            } else {
                assert(ca[i] == (cluster_labels(c), seq![cluster_durations(c)]));
            }
        }
        assert forall|i: int, j: int| 0 <= i < tb.len() && 0 <= j < tb[i].1.len() implies (#[trigger] tb[i].1[j]).len() == tb[i].0.len() by {
            if i < b.len() {
                assert(tb[i] == b[i]);
            } else {
                assert(tb[i] == (cluster_labels(c).map_values(|l: Seq<char>| label_type(info, l)), seq![cluster_durations(c)]));
            }
        }
    }
}

/// Where a list of entries has each key once, widths match in it when every
/// group it gives has the width of its key.
pub proof fn lemma_widths_from_groups<V>(es: Seq<(Seq<V>, Seq<Seq<u16>>)>, src: Seq<(Seq<V>, Seq<Seq<u16>>)>)
    requires
        distinct_groups(es),
        widths_match(src),
        forall|p: Seq<V>| #[trigger] group_of(es, p) == group_of(src, p),
    ensures
        widths_match(es),
{
    assert forall|i: int, j: int| 0 <= i < es.len() && 0 <= j < es[i].1.len() implies (#[trigger] es[i].1[j]).len() == es[i].0.len() by {
        let p = es[i].0;
        lemma_group_of_distinct(es, p);
        assert(has_group(es, p));
        assert(group_of(es, p) == es[i].1);
        lemma_group_widths(src, p);
        assert(group_of(src, p)[j] == es[i].1[j]);
    }
}

/// Build a timing model from the clusters of `file_count` annotation files.
///
/// Without files this is `NoTextGridFiles`. Otherwise each label sequence
/// (and each type sequence) occurs once, in first-seen order, holding one
/// sample of durations per cluster with that sequence; the metadata records
/// the source files and the creation time.
pub fn train_from_clusters(
    textgrid_dir: &str,
    file_count: usize,
    all_clusters: &Vec<Vec<ParsedPhoneme>>,
    language_info: &LanguageInfo,
    metadata: TimingMetadata,
    source_files: Vec<String>,
    created_at: String,
) -> (r: Result<TimingModel, TimingError>)
    requires
        language_info.wf(),
    ensures
        file_count == 0 <==> r is Err,
        r matches Err(e) ==> (e matches TimingError::NoTextGridFiles { dir } && dir@ == textgrid_dir@),
        r matches Ok(m) ==> {
            &&& m.version@ == model_format_version()
            &&& m.metadata.library == metadata.library
            &&& m.metadata.language == metadata.language
            &&& m.metadata.voice_color == metadata.voice_color
            &&& m.metadata.created_at == Some(created_at)
            &&& opt_seq(m.metadata.source_files) == Some(source_files@)
            &&& distinct_groups(cluster_entries(m.cluster_timings@))
            &&& distinct_groups(generic_entries(m.generic_timings@))
            &&& forall|p: Seq<Seq<char>>| #[trigger] has_group(cluster_entries(m.cluster_timings@), p)
                == has_group(cluster_samples(clusters_view(all_clusters@)), p)
            &&& forall|p: Seq<Seq<char>>| #[trigger] group_of(cluster_entries(m.cluster_timings@), p)
                == group_of(cluster_samples(clusters_view(all_clusters@)), p)
            &&& forall|p: Seq<PhonemeType>| #[trigger] has_group(generic_entries(m.generic_timings@), p)
                == has_group(type_samples(clusters_view(all_clusters@), *language_info), p)
            &&& forall|p: Seq<PhonemeType>| #[trigger] group_of(generic_entries(m.generic_timings@), p)
                == group_of(type_samples(clusters_view(all_clusters@), *language_info), p)
            &&& widths_match(cluster_entries(m.cluster_timings@))
            &&& widths_match(generic_entries(m.generic_timings@))
        },
{
    if file_count == 0 {
        return Err(TimingError::NoTextGridFiles { dir: textgrid_dir.to_owned() });
    }
    let ghost cs = clusters_view(all_clusters@);
    let mut cluster_map: SampleGroups<String> = KeyedTable::new();
    let mut generic_map: SampleGroups<PhonemeType> = KeyedTable::new();
    let n = all_clusters.len();
    let mut i: usize = 0;
    while i < n
        invariant
            n == all_clusters@.len(),
            cs == clusters_view(all_clusters@),
            language_info.wf(),
            0 <= i <= n,
            groups_match(cluster_map, cluster_samples(cs.take(i as int))),
            groups_match(generic_map, type_samples(cs.take(i as int), *language_info)),
        decreases n - i,
    {
        let cluster = &all_clusters[i];
        proof {
            assert(cs.take(i + 1).drop_last() =~= cs.take(i as int));
            assert(cs.take(i + 1).last() == cs[i as int]);
            assert(cs[i as int] == cluster@);
        }
        if cluster.len() > 0 {
            let c = cluster.len();
            let mut labels: Vec<String> = Vec::new();
            let mut durations: Vec<u16> = Vec::new();
            let mut types: Vec<PhonemeType> = Vec::new();
            let mut j: usize = 0;
            while j < c
                invariant
                    c == cluster@.len(),
                    language_info.wf(),
                    0 <= j <= c,
                    strings_view(labels@) == cluster_labels(cluster@).take(j as int),
                    durations@ == cluster_durations(cluster@).take(j as int),
                    types@ == cluster_labels(cluster@).map_values(|l: Seq<char>| label_type(*language_info, l)).take(j as int),
                decreases c - j,
            {
                let t = match language_info.get_type(cluster[j].label.as_str()) {
                    Some(t) => t,
                    None => PhonemeType::Unknown,
                };
                let ghost lb = labels@;
                let lab = cluster[j].label.clone();
                assert(lab@ == cluster@[j as int].label@);
                labels.push(lab);
                assert(strings_view(labels@) =~= strings_view(lb).push(cluster@[j as int].label@));
                assert(cluster_labels(cluster@)[j as int] == cluster@[j as int].label@);
                durations.push(cluster[j].duration_ms);
                types.push(t);
                assert(strings_view(labels@) =~= cluster_labels(cluster@).take(j + 1));
                assert(durations@ =~= cluster_durations(cluster@).take(j + 1));
                assert(types@ =~= cluster_labels(cluster@).map_values(|l: Seq<char>| label_type(*language_info, l)).take(j + 1));
                j = j + 1;
            }
            assert(strings_view(labels@) =~= cluster_labels(cluster@));
            assert(durations@ =~= cluster_durations(cluster@));
            assert(types@ =~= cluster_labels(cluster@).map_values(|l: Seq<char>| label_type(*language_info, l)));
            let mut sample: Vec<Vec<u16>> = Vec::new();
            sample.push(durations);
            let ghost sv = samples_view(sample@);
            assert(sv =~= seq![cluster_durations(cluster@)]);
            add_samples(&mut cluster_map, &labels, &sample);
            add_samples(&mut generic_map, &types, &sample);
            proof {
                assert(labels.deep_view() =~= strings_view(labels@));
                assert(types.deep_view() =~= types@);
                assert(cluster_samples(cs.take(i + 1)) =~= cluster_samples(cs.take(i as int)).push((labels.deep_view(), sv)));
                assert(type_samples(cs.take(i + 1), *language_info) =~= type_samples(cs.take(i as int), *language_info).push((types.deep_view(), sv)));
            }
        } else {
            assert(cluster_samples(cs.take(i + 1)) =~= cluster_samples(cs.take(i as int)));
            assert(type_samples(cs.take(i + 1), *language_info) =~= type_samples(cs.take(i as int), *language_info));
        }
        i = i + 1;
    }
    assert(cs.take(n as int) =~= cs);
    proof {
        lemma_groups_result(cluster_map, cluster_samples(cs));
        lemma_groups_result(generic_map, type_samples(cs, *language_info));
        lemma_sample_widths(cs, *language_info);
    }
    let mut meta = metadata;
    meta.source_files = Some(source_files);
    meta.created_at = Some(created_at);
    let cluster_timings = groups_to_cluster_timings(cluster_map);
    let generic_timings = groups_to_generic_timings(generic_map);
    proof {
        lemma_widths_from_groups(cluster_entries(cluster_timings@), cluster_samples(cs));
        lemma_widths_from_groups(generic_entries(generic_timings@), type_samples(cs, *language_info));
    }
    Ok(TimingModel { version: format_version(), metadata: meta, cluster_timings, generic_timings })
}

/// A phoneme whose duration lies within the configured bounds.
pub open spec fn within_bounds(p: ParsedPhoneme, config: TrainingConfig) -> bool {
    config.min_duration_ms <= p.duration_ms <= config.max_duration_ms
}

/// A cluster fit for training: non-empty, with no silence, noise, vowel or
/// diphthong label, and every duration within the configured bounds.
pub open spec fn training_cluster(c: Seq<ParsedPhoneme>, info: LanguageInfo, config: TrainingConfig) -> bool {
    &&& c.len() > 0
    &&& forall|j: int| 0 <= j < c.len() ==> {
        &&& !silence_label((#[trigger] c[j]).label@)
        &&& !noise_label(c[j].label@)
        &&& !info.is_nucleus(c[j].label@)
        &&& within_bounds(c[j], config)
    }
}

/// Kept intervals lie within the duration bounds.
proof fn lemma_kept_within(ivs: Seq<IntervalData>, config: TrainingConfig, lm: Option<KeyedTable<String, String>>)
    ensures
        forall|i: int| 0 <= i < kept_phonemes(ivs, config, lm).len() ==> within_bounds(#[trigger] kept_phonemes(ivs, config, lm)[i], config),
    decreases ivs.len(),
{
    if ivs.len() > 0 {
        lemma_kept_within(ivs.drop_last(), config, lm);
        let a = kept_phonemes(ivs.drop_last(), config, lm);
        let k = kept_phonemes(ivs, config, lm);
        assert forall|i: int| 0 <= i < k.len() implies within_bounds(#[trigger] k[i], config) by {
            if i < a.len() {
                assert(k[i] == a[i]);
            }
        }
    }
}

/// Splitting at silences keeps only phonemes of the input.
proof fn lemma_silence_within(ph: Seq<ParsedPhoneme>, config: TrainingConfig, n: int)
    requires
        0 <= n <= ph.len(),
        forall|i: int| 0 <= i < ph.len() ==> within_bounds(#[trigger] ph[i], config),
    ensures
        forall|s: int, j: int| 0 <= s < silence_state(ph, n).0.len() && 0 <= j < silence_state(ph, n).0[s].len()
            ==> within_bounds(#[trigger] silence_state(ph, n).0[s][j], config),
        forall|j: int| 0 <= j < silence_state(ph, n).1.len() ==> within_bounds(#[trigger] silence_state(ph, n).1[j], config),
    decreases n,
{
    if n > 0 {
        lemma_silence_within(ph, config, n - 1);
        let (done, cur) = silence_state(ph, n - 1);
        let (d2, c2) = silence_state(ph, n);
        assert(within_bounds(ph[n - 1], config));
        assert forall|s: int, j: int| 0 <= s < d2.len() && 0 <= j < d2[s].len() implies within_bounds(#[trigger] d2[s][j], config) by {
            if s < done.len() {
                assert(d2[s] == done[s]);
            } else {
                assert(d2[s] == cur);
            }
        }
        assert forall|j: int| 0 <= j < c2.len() implies within_bounds(#[trigger] c2[j], config) by {
            if j < cur.len() && !silence_label(ph[n - 1].label@) {
                assert(c2[j] == cur[j]);
            }
        }
    }
}

/// Splitting at vowels keeps only phonemes of the input.
proof fn lemma_vowel_split_within(ph: Seq<ParsedPhoneme>, info: LanguageInfo, config: TrainingConfig, n: int)
    requires
        0 <= n <= ph.len(),
        forall|i: int| 0 <= i < ph.len() ==> within_bounds(#[trigger] ph[i], config),
    ensures
        forall|s: int, j: int| 0 <= s < vowel_split_state(ph, info, n).0.len() && 0 <= j < vowel_split_state(ph, info, n).0[s].len()
            ==> within_bounds(#[trigger] vowel_split_state(ph, info, n).0[s][j], config),
        forall|j: int| 0 <= j < vowel_split_state(ph, info, n).1.len() ==> within_bounds(#[trigger] vowel_split_state(ph, info, n).1[j], config),
    decreases n,
{
    if n > 0 {
        lemma_vowel_split_within(ph, info, config, n - 1);
        let (done, cur) = vowel_split_state(ph, info, n - 1);
        let (d2, c2) = vowel_split_state(ph, info, n);
        assert(within_bounds(ph[n - 1], config));
        assert forall|s: int, j: int| 0 <= s < d2.len() && 0 <= j < d2[s].len() implies within_bounds(#[trigger] d2[s][j], config) by {
            if s < done.len() {
                assert(d2[s] == done[s]);
            } else {
                assert(d2[s] == cur);
            }
        }
        assert forall|j: int| 0 <= j < c2.len() implies within_bounds(#[trigger] c2[j], config) by {
            if j < cur.len() && !info.is_nucleus(ph[n - 1].label@) {
                assert(c2[j] == cur[j]);
            }
        }
    }
}

/// The clusters of utterances within bounds are within bounds and hold no
/// vowel or diphthong.
proof fn lemma_utterance_clusters_clean(us: Seq<Seq<ParsedPhoneme>>, info: LanguageInfo, config: TrainingConfig)
    requires
        forall|u: int, j: int| 0 <= u < us.len() && 0 <= j < us[u].len() ==> within_bounds(#[trigger] us[u][j], config),
    ensures
        forall|c: int, j: int| 0 <= c < utterance_clusters(us, info).len() && 0 <= j < utterance_clusters(us, info)[c].len() ==> {
            &&& within_bounds(#[trigger] utterance_clusters(us, info)[c][j], config)
            &&& !info.is_nucleus(utterance_clusters(us, info)[c][j].label@)
        },
    decreases us.len(),
{
    if us.len() > 0 {
        let d = us.drop_last();
        assert forall|u: int, j: int| 0 <= u < d.len() && 0 <= j < d[u].len() implies within_bounds(#[trigger] d[u][j], config) by {
            assert(d[u] == us[u]);
        }
        lemma_utterance_clusters_clean(d, info, config);
        let last = us.last();
        let a = utterance_clusters(d, info);
        let uc = utterance_clusters(us, info);
        if last.len() > 0 {
            let sp = split_by_vowels_spec(last, info);
            assert forall|i: int| 0 <= i < last.len() implies within_bounds(#[trigger] last[i], config) by {
                assert(last[i] == us[us.len() - 1][i]);
            }
            lemma_vowel_split_within(last, info, config, last.len() as int);
            law_split_by_vowels(last, info);
            let (done, cur) = vowel_split_state(last, info, last.len() as int);
            assert forall|c: int, j: int| 0 <= c < uc.len() && 0 <= j < uc[c].len() implies {
                &&& within_bounds(#[trigger] uc[c][j], config)
                &&& !info.is_nucleus(uc[c][j].label@)
            } by {
                if c < a.len() {
                    assert(uc[c] == a[c]);
                } else {
                    assert(uc[c] == sp[c - a.len()]);
                    if c - a.len() < done.len() {
                        assert(sp[c - a.len()] == done[c - a.len()]);
                    } else {
                        assert(sp[c - a.len()] == cur);
                    }
                }
            }
        } else {
            assert(uc =~= a);
        }
    }
}

/// The clusters kept as valid are valid and each is one of the input's.
proof fn lemma_valid_clusters_from(cs: Seq<Seq<ParsedPhoneme>>)
    ensures
        forall|k: int| 0 <= k < valid_clusters(cs).len() ==> {
            &&& valid_cluster(#[trigger] valid_clusters(cs)[k])
            &&& exists|m: int| 0 <= m < cs.len() && cs[m] == valid_clusters(cs)[k]
        },
    decreases cs.len(),
{
    if cs.len() > 0 {
        let d = cs.drop_last();
        lemma_valid_clusters_from(d);
        let a = valid_clusters(d);
        let v = valid_clusters(cs);
        assert forall|k: int| 0 <= k < v.len() implies {
            &&& valid_cluster(#[trigger] v[k])
            &&& exists|m: int| 0 <= m < cs.len() && cs[m] == v[k]
        } by {
            if k < a.len() {
                assert(v[k] == a[k]);
                let m = choose|m: int| 0 <= m < d.len() && d[m] == a[k];
                assert(cs[m] == d[m]);
            } else {
                assert(v[k] == cs[cs.len() - 1]);
            }
        }
    }
}

/// Every training cluster of an interval tier is non-empty, holds no
/// silence, noise, vowel or diphthong label, and has every duration within
/// the configured bounds.
pub proof fn law_tier_clusters_clean(
    ivs: Seq<IntervalData>,
    info: LanguageInfo,
    config: TrainingConfig,
    label_map: Option<KeyedTable<String, String>>,
)
    ensures
        forall|k: int| 0 <= k < tier_clusters(ivs, info, config, label_map).len()
            ==> training_cluster(#[trigger] tier_clusters(ivs, info, config, label_map)[k], info, config),
{
    let kp = kept_phonemes(ivs, config, label_map);
    lemma_kept_within(ivs, config, label_map);
    lemma_silence_within(kp, config, kp.len() as int);
    let segs = silence_segments(kp);
    let (done, cur) = silence_state(kp, kp.len() as int);
    assert forall|u: int, j: int| 0 <= u < segs.len() && 0 <= j < segs[u].len() implies within_bounds(#[trigger] segs[u][j], config) by {
        if u < done.len() {
            assert(segs[u] == done[u]);
        } else {
            assert(segs[u] == cur);
        }
    }
    lemma_utterance_clusters_clean(segs, info, config);
    let uc = utterance_clusters(segs, info);
    lemma_valid_clusters_from(uc);
    let tc = tier_clusters(ivs, info, config, label_map);
    assert forall|k: int| 0 <= k < tc.len() implies training_cluster(#[trigger] tc[k], info, config) by {
        let m = choose|m: int| 0 <= m < uc.len() && uc[m] == tc[k];
        assert forall|j: int| 0 <= j < tc[k].len() implies {
            &&& !silence_label((#[trigger] tc[k][j]).label@)
            &&& !noise_label(tc[k][j].label@)
            &&& !info.is_nucleus(tc[k][j].label@)
            &&& within_bounds(tc[k][j], config)
        } by {
            assert(tc[k][j] == uc[m][j]);
        }
    }
}

/// Labels fit for a trained cluster entry: at least one, none of them
/// silence, noise, a vowel or a diphthong.
pub open spec fn clean_labels(p: Seq<Seq<char>>, info: LanguageInfo) -> bool {
    &&& p.len() > 0
    &&& forall|j: int| 0 <= j < p.len() ==> !silence_label(#[trigger] p[j]) && !noise_label(p[j]) && !info.is_nucleus(p[j])
}

/// Every duration of every sample lies within the configured bounds.
pub open spec fn samples_within<V>(es: Seq<(Seq<V>, Seq<Seq<u16>>)>, config: TrainingConfig) -> bool {
    forall|i: int, j: int, k: int| 0 <= i < es.len() && 0 <= j < es[i].1.len() && 0 <= k < es[i].1[j].len()
        ==> config.min_duration_ms <= #[trigger] es[i].1[j][k] <= config.max_duration_ms
}

/// The samples and keys of training clusters.
proof fn lemma_samples_of_training_clusters(cs: Seq<Seq<ParsedPhoneme>>, info: LanguageInfo, config: TrainingConfig)
    requires
        forall|k: int| 0 <= k < cs.len() ==> training_cluster(#[trigger] cs[k], info, config),
    ensures
        samples_within(cluster_samples(cs), config),
        samples_within(type_samples(cs, info), config),
        forall|i: int| 0 <= i < cluster_samples(cs).len() ==> clean_labels((#[trigger] cluster_samples(cs)[i]).0, info),
        forall|i: int| 0 <= i < type_samples(cs, info).len() ==> (#[trigger] type_samples(cs, info)[i]).0.len() > 0,
    decreases cs.len(),
{
    if cs.len() > 0 {
        let d = cs.drop_last();
        assert forall|k: int| 0 <= k < d.len() implies training_cluster(#[trigger] d[k], info, config) by {
            assert(d[k] == cs[k]);
        }
        lemma_samples_of_training_clusters(d, info, config);
        let c = cs.last();
        assert(training_cluster(cs[cs.len() - 1], info, config));
        let a = cluster_samples(d);
        let b = type_samples(d, info);
        let ca = cluster_samples(cs);
        let tb = type_samples(cs, info);
        let durs = cluster_durations(c);
        assert forall|j: int| 0 <= j < durs.len() implies config.min_duration_ms <= #[trigger] durs[j] <= config.max_duration_ms by {
            assert(within_bounds(c[j], config));
        }
        assert forall|i: int, j: int, k: int| 0 <= i < ca.len() && 0 <= j < ca[i].1.len() && 0 <= k < ca[i].1[j].len()
            implies config.min_duration_ms <= #[trigger] ca[i].1[j][k] <= config.max_duration_ms by {
            if i < a.len() {
                assert(ca[i] == a[i]);
            } else {
                assert(ca[i] == (cluster_labels(c), seq![durs]));
                assert(ca[i].1[j] == durs);
            }
        }
        assert forall|i: int, j: int, k: int| 0 <= i < tb.len() && 0 <= j < tb[i].1.len() && 0 <= k < tb[i].1[j].len()
            implies config.min_duration_ms <= #[trigger] tb[i].1[j][k] <= config.max_duration_ms by {
            if i < b.len() {
                assert(tb[i] == b[i]);
            } else {
                assert(tb[i].1 == seq![durs]);
                assert(tb[i].1[j] == durs);
            }
        }
        assert forall|i: int| 0 <= i < ca.len() implies clean_labels((#[trigger] ca[i]).0, info) by {
            if i < a.len() {
                assert(ca[i] == a[i]);
            } else {
                let l = cluster_labels(c);
                assert(ca[i].0 == l);
                assert forall|j: int| 0 <= j < l.len() implies !silence_label(#[trigger] l[j]) && !noise_label(l[j]) && !info.is_nucleus(l[j]) by {
                    assert(l[j] == c[j].label@);
                }
            }
        }
        assert forall|i: int| 0 <= i < tb.len() implies (#[trigger] tb[i]).0.len() > 0 by {
            if i < b.len() {
                assert(tb[i] == b[i]);
            }
        }
    }
}

/// Where the samples of every entry are within bounds, so is every
/// sample grouped under any key.
proof fn lemma_group_within<V>(es: Seq<(Seq<V>, Seq<Seq<u16>>)>, config: TrainingConfig, p: Seq<V>)
    requires
        samples_within(es, config),
    ensures
        forall|j: int, k: int| 0 <= j < group_of(es, p).len() && 0 <= k < group_of(es, p)[j].len()
            ==> config.min_duration_ms <= #[trigger] group_of(es, p)[j][k] <= config.max_duration_ms,
    decreases es.len(),
{
    if es.len() > 0 {
        let d = es.drop_last();
        assert(samples_within(d, config)) by {
            assert forall|i: int, j: int, k: int| 0 <= i < d.len() && 0 <= j < d[i].1.len() && 0 <= k < d[i].1[j].len()
                implies config.min_duration_ms <= #[trigger] d[i].1[j][k] <= config.max_duration_ms by {
                assert(d[i] == es[i]);
            }
        }
        lemma_group_within(d, config, p);
        let g = group_of(es, p);
        let gd = group_of(d, p);
        let l = es.len() - 1;
        assert forall|j: int, k: int| 0 <= j < g.len() && 0 <= k < g[j].len()
            implies config.min_duration_ms <= #[trigger] g[j][k] <= config.max_duration_ms by {
            if j < gd.len() {
                assert(g[j] == gd[j]);
            } else {
                assert(g[j] == es[l].1[j - gd.len()]);
            }
        }
    }
}

/// A model built by `train_from_clusters` from training clusters (as
/// `extract_clusters` gives them) has, in every cluster entry, at least one
/// label and no silence, noise, vowel or diphthong label; every generic
/// entry has at least one type; and every sampled duration lies within the
/// configured bounds.
pub proof fn law_trained_model_clean(cs: Seq<Seq<ParsedPhoneme>>, info: LanguageInfo, config: TrainingConfig, m: TimingModel)
    requires
        forall|k: int| 0 <= k < cs.len() ==> training_cluster(#[trigger] cs[k], info, config),
        distinct_groups(cluster_entries(m.cluster_timings@)),
        distinct_groups(generic_entries(m.generic_timings@)),
        forall|p: Seq<Seq<char>>| #[trigger] has_group(cluster_entries(m.cluster_timings@), p) == has_group(cluster_samples(cs), p),
        forall|p: Seq<Seq<char>>| #[trigger] group_of(cluster_entries(m.cluster_timings@), p) == group_of(cluster_samples(cs), p),
        forall|p: Seq<PhonemeType>| #[trigger] has_group(generic_entries(m.generic_timings@), p) == has_group(type_samples(cs, info), p),
        forall|p: Seq<PhonemeType>| #[trigger] group_of(generic_entries(m.generic_timings@), p) == group_of(type_samples(cs, info), p),
    ensures
        forall|i: int| 0 <= i < m.cluster_timings@.len() ==> clean_labels((#[trigger] cluster_entries(m.cluster_timings@)[i]).0, info),
        forall|i: int| 0 <= i < m.generic_timings@.len() ==> (#[trigger] generic_entries(m.generic_timings@)[i]).0.len() > 0,
        samples_within(cluster_entries(m.cluster_timings@), config),
        samples_within(generic_entries(m.generic_timings@), config),
{
    lemma_samples_of_training_clusters(cs, info, config);
    let ce = cluster_entries(m.cluster_timings@);
    let ge = generic_entries(m.generic_timings@);
    let csm = cluster_samples(cs);
    let tsm = type_samples(cs, info);
    assert forall|i: int| 0 <= i < m.cluster_timings@.len() implies clean_labels((#[trigger] ce[i]).0, info) by {
        let p = ce[i].0;
        assert(has_group(ce, p));
        assert(has_group(csm, p));
        let j = choose|j: int| 0 <= j < csm.len() && #[trigger] csm[j].0 == p;
        assert(clean_labels(csm[j].0, info));
    }
    assert forall|i: int| 0 <= i < m.generic_timings@.len() implies (#[trigger] ge[i]).0.len() > 0 by {
        let p = ge[i].0;
        assert(has_group(ge, p));
        assert(has_group(tsm, p));
        let j = choose|j: int| 0 <= j < tsm.len() && #[trigger] tsm[j].0 == p;
        assert(tsm[j].0.len() > 0);
    }
    assert forall|i: int, j: int, k: int| 0 <= i < ce.len() && 0 <= j < ce[i].1.len() && 0 <= k < ce[i].1[j].len()
        implies config.min_duration_ms <= #[trigger] ce[i].1[j][k] <= config.max_duration_ms by {
        let p = ce[i].0;
        lemma_group_of_distinct(ce, p);
        assert(has_group(ce, p));
        assert(group_of(ce, p) == ce[i].1);
        lemma_group_within(csm, config, p);
        assert(group_of(csm, p)[j] == ce[i].1[j]);
    }
    assert forall|i: int, j: int, k: int| 0 <= i < ge.len() && 0 <= j < ge[i].1.len() && 0 <= k < ge[i].1[j].len()
        implies config.min_duration_ms <= #[trigger] ge[i].1[j][k] <= config.max_duration_ms by {
        let p = ge[i].0;
        lemma_group_of_distinct(ge, p);
        assert(has_group(ge, p));
        assert(group_of(ge, p) == ge[i].1);
        lemma_group_within(tsm, config, p);
        assert(group_of(tsm, p)[j] == ge[i].1[j]);
    }
}

/// Training types a label as the inventory does: the listed type for a
/// listed label, `Unknown` for any other; no type is rewritten to another
/// class.
pub proof fn law_label_type_is_inventory_type(info: LanguageInfo, label: Seq<char>)
    ensures
        info.types().contains_key(label) ==> label_type(info, label) == info.types()[label],
        !info.types().contains_key(label) ==> label_type(info, label) == PhonemeType::Unknown,
{
}

/// The split state after `n` phonemes depends only on those phonemes.
proof fn lemma_vowel_state_prefix(ph1: Seq<ParsedPhoneme>, ph2: Seq<ParsedPhoneme>, info: LanguageInfo, n: int)
    requires
        0 <= n <= ph1.len(),
        n <= ph2.len(),
        ph1.take(n) == ph2.take(n),
    ensures
        vowel_split_state(ph1, info, n) == vowel_split_state(ph2, info, n),
    decreases n,
{
    if n > 0 {
        assert(ph1.take(n - 1) =~= ph1.take(n).take(n - 1));
        assert(ph2.take(n - 1) =~= ph2.take(n).take(n - 1));
        assert(ph1[n - 1] == ph1.take(n)[n - 1]);
        assert(ph2[n - 1] == ph2.take(n)[n - 1]);
        lemma_vowel_state_prefix(ph1, ph2, info, n - 1);
    }
}

/// After a point with no pending run, splitting goes on as if it started
/// afresh on the rest.
proof fn lemma_vowel_state_shift(p: Seq<ParsedPhoneme>, q: Seq<ParsedPhoneme>, info: LanguageInfo, n: int)
    requires
        vowel_split_state(p + q, info, p.len() as int).1.len() == 0,
        0 <= n <= q.len(),
    ensures
        vowel_split_state(p + q, info, p.len() + n) == (
            vowel_split_state(p + q, info, p.len() as int).0 + vowel_split_state(q, info, n).0,
            vowel_split_state(q, info, n).1,
        ),
    decreases n,
{
    let d0 = vowel_split_state(p + q, info, p.len() as int).0;
    if n == 0 {
        assert(d0 + Seq::<Seq<ParsedPhoneme>>::empty() =~= d0);
        assert(vowel_split_state(p + q, info, p.len() as int).1 =~= Seq::<ParsedPhoneme>::empty());
    } else {
        lemma_vowel_state_shift(p, q, info, n - 1);
        assert((p + q)[p.len() + n - 1] == q[n - 1]);
        let (dq, cq) = vowel_split_state(q, info, n - 1);
        assert((d0 + dq).push(cq) =~= d0 + dq.push(cq));
    }
}

/// A run of consonants with no vowel or diphthong is kept whole, as one
/// cluster; nothing splits it.
pub proof fn law_split_keeps_consonant_run(x: Seq<ParsedPhoneme>, info: LanguageInfo)
    requires
        x.len() > 0,
        forall|j: int| 0 <= j < x.len() ==> !info.is_nucleus((#[trigger] x[j]).label@),
    ensures
        split_by_vowels_spec(x, info) == seq![x],
{
    assert forall|n: int| 0 <= n <= x.len() implies #[trigger] vowel_split_state(x, info, n) == (Seq::<Seq<ParsedPhoneme>>::empty(), x.take(n)) by {
        lemma_run_state(x, info, n);
    }
    assert(x.take(x.len() as int) =~= x);
}

proof fn lemma_run_state(x: Seq<ParsedPhoneme>, info: LanguageInfo, n: int)
    requires
        0 <= n <= x.len(),
        forall|j: int| 0 <= j < x.len() ==> !info.is_nucleus((#[trigger] x[j]).label@),
    ensures
        vowel_split_state(x, info, n) == (Seq::<Seq<ParsedPhoneme>>::empty(), x.take(n)),
    decreases n,
{
    if n == 0 {
        assert(x.take(0) =~= Seq::<ParsedPhoneme>::empty());
    } else {
        lemma_run_state(x, info, n - 1);
        assert(!info.is_nucleus(x[n - 1].label@));
        assert(x.take(n - 1).push(x[n - 1]) =~= x.take(n));
    }
}

/// A vowel or diphthong is a cluster boundary: splitting `a`, then the
/// nucleus, then `b` gives the clusters of `a` followed by those of `b`.
pub proof fn law_split_at_nucleus(a: Seq<ParsedPhoneme>, v: ParsedPhoneme, b: Seq<ParsedPhoneme>, info: LanguageInfo)
    requires
        info.is_nucleus(v.label@),
    ensures
        split_by_vowels_spec(a + seq![v] + b, info) == split_by_vowels_spec(a, info) + split_by_vowels_spec(b, info),
{
    let pre = a + seq![v];
    let ph = pre + b;
    assert(a + seq![v] + b == ph);
    assert(ph.take(a.len() as int) =~= a.take(a.len() as int));
    lemma_vowel_state_prefix(ph, a, info, a.len() as int);
    assert(ph[a.len() as int] == v);
    let (da, ca) = vowel_split_state(a, info, a.len() as int);
    assert(vowel_split_state(ph, info, pre.len() as int).0 == split_by_vowels_spec(a, info));
    assert(vowel_split_state(ph, info, pre.len() as int).1.len() == 0);
    lemma_vowel_state_shift(pre, b, info, b.len() as int);
    let (db, cb) = vowel_split_state(b, info, b.len() as int);
    let sa = split_by_vowels_spec(a, info);
    assert(vowel_split_state(ph, info, ph.len() as int) == (sa + db, cb));
    if cb.len() > 0 {
        assert((sa + db).push(cb) =~= sa + db.push(cb));
    }
}

/// The consonants of a list of utterances, utterance after utterance.
pub open spec fn all_consonants(us: Seq<Seq<ParsedPhoneme>>, info: LanguageInfo) -> Seq<ParsedPhoneme>
    decreases us.len(),
{
    if us.len() == 0 {
        Seq::empty()
    } else {
        all_consonants(us.drop_last(), info) + consonants_of(us.last(), info)
    }
}

/// Concatenating two lists of clusters concatenates their phonemes.
proof fn lemma_concat_clusters_add(x: Seq<Seq<ParsedPhoneme>>, y: Seq<Seq<ParsedPhoneme>>)
    ensures
        concat_clusters(x + y) == concat_clusters(x) + concat_clusters(y),
    decreases y.len(),
{
    if y.len() == 0 {
        assert(x + y =~= x);
        assert(concat_clusters(x) + concat_clusters(y) =~= concat_clusters(x));
    } else {
        assert((x + y).drop_last() =~= x + y.drop_last());
        lemma_concat_clusters_add(x, y.drop_last());
        assert(concat_clusters(x + y) =~= concat_clusters(x) + concat_clusters(y));
    }
}

/// Extraction loses no consonant: the clusters of a list of utterances
/// hold every consonant of every utterance, in order, whether or not the
/// utterance has a vowel.
pub proof fn law_utterance_clusters_complete(us: Seq<Seq<ParsedPhoneme>>, info: LanguageInfo)
    ensures
        concat_clusters(utterance_clusters(us, info)) == all_consonants(us, info),
    decreases us.len(),
{
    if us.len() > 0 {
        let d = us.drop_last();
        let u = us.last();
        law_utterance_clusters_complete(d, info);
        let part = if u.len() == 0 { Seq::<Seq<ParsedPhoneme>>::empty() } else { split_by_vowels_spec(u, info) };
        lemma_concat_clusters_add(utterance_clusters(d, info), part);
        if u.len() == 0 {
            assert(consonants_of(u, info) =~= Seq::<ParsedPhoneme>::empty());
            assert(concat_clusters(part) =~= Seq::<ParsedPhoneme>::empty());
        } else {
            law_split_by_vowels(u, info);
        }
    }
}

} // verus!
