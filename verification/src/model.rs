//! Data types for timing models, phoneme inventories and prediction results.

use vstd::prelude::*;
use crate::key::PhonemeKey;
use crate::table::KeyedTable;

verus! {

/// Broad articulatory class of a phoneme, used by the generic timing tree.
#[derive(Debug, Clone, Copy, PartialEq, Eq, Hash, Structural)]
pub enum PhonemeType {
    /// Vowel sounds (monophthongs)
    Vowel,
    /// Diphthongs (gliding vowels)
    Diphthong,
    /// Affricates (combined stop + fricative)
    Affricate,
    /// Fricatives (continuous turbulent airflow)
    Fricative,
    /// Plosives/stops (complete closure then release)
    Plosive,
    /// Sonorants (nasals, approximants, laterals)
    Sonorant,
    /// Taps and flaps
    Tap,
    /// Special markers (silence, breath, etc.)
    Special,
    /// Unknown or unclassified
    Unknown,
}

impl Default for PhonemeType {
    fn default() -> (t: Self)
        ensures
            t == PhonemeType::Unknown,
    {
        PhonemeType::Unknown
    }
}

impl View for PhonemeType {
    type V = PhonemeType;

    open spec fn view(&self) -> PhonemeType {
        *self
    }
}

impl DeepView for PhonemeType {
    type V = PhonemeType;

    open spec fn deep_view(&self) -> PhonemeType {
        *self
    }
}

impl PhonemeKey for PhonemeType {
    fn key_eq(&self, other: &Self) -> (r: bool) {
        *self == *other
    }

    fn key_clone(&self) -> (r: Self) {
        *self
    }
}

/// The view of a list of strings: one character sequence per string.
pub open spec fn strings_view(v: Seq<String>) -> Seq<Seq<char>> {
    v.map_values(|s: String| s@)
}

/// The contents of an optional list of strings.
pub open spec fn opt_seq(o: Option<Vec<String>>) -> Option<Seq<String>> {
    match o {
        Some(v) => Some(v@),
        None => None,
    }
}

/// Whether `x` occurs in a list of strings (compared by content).
pub open spec fn seq_has_string(v: Seq<String>, x: Seq<char>) -> bool {
    exists|i: int| 0 <= i < v.len() && #[trigger] v[i]@ == x
}

/// Whether `x` occurs in the list `v`, compared by content.
pub fn vec_has_str(v: &Vec<String>, x: &str) -> (b: bool)
    ensures
        b == seq_has_string(v@, x@),
{
    let key = x.to_owned();
    let n = v.len();
    let mut i: usize = 0;
    while i < n
        invariant
            n == v.len(),
            key@ == x@,
            0 <= i <= n,
            forall|j: int| 0 <= j < i ==> v@[j]@ != x@,
        decreases n - i,
    {
        if v[i] == key {
            return true;
        }
        i = i + 1;
    }
    false
}

/// A copy of a list of strings.
pub fn copy_strings(v: &Vec<String>) -> (r: Vec<String>)
    ensures
        r@ == v@,
{
    let mut out: Vec<String> = Vec::new();
    let n = v.len();
    let mut i: usize = 0;
    while i < n
        invariant
            n == v.len(),
            0 <= i <= n,
            out@ == v@.take(i as int),
        decreases n - i,
    {
        out.push(v[i].clone());
        assert(out@ =~= v@.take(i + 1));
        i = i + 1;
    }
    assert(v@.take(n as int) =~= v@);
    out
}

/// A copy of a list of duration samples.
pub fn copy_samples(v: &Vec<Vec<u16>>) -> (r: Vec<Vec<u16>>)
    ensures
        r.deep_view() == v.deep_view(),
        r@.len() == v@.len(),
        forall|j: int| 0 <= j < v@.len() ==> #[trigger] r@[j]@ == v@[j]@,
{
    let mut out: Vec<Vec<u16>> = Vec::new();
    let n = v.len();
    let mut i: usize = 0;
    while i < n
        invariant
            n == v.len(),
            0 <= i <= n,
            out.len() == i,
            forall|j: int| 0 <= j < i ==> #[trigger] out@[j]@ == v@[j]@,
        decreases n - i,
    {
        out.push(copy_u16s(&v[i]));
        i = i + 1;
    }
    assert(out.deep_view() =~= v.deep_view());
    out
}

/// A copy of one duration sample.
pub fn copy_u16s(v: &Vec<u16>) -> (r: Vec<u16>)
    ensures
        r@ == v@,
{
    let mut out: Vec<u16> = Vec::new();
    let n = v.len();
    let mut i: usize = 0;
    while i < n
        invariant
            n == v.len(),
            0 <= i <= n,
            out@ == v@.take(i as int),
        decreases n - i,
    {
        out.push(v[i]);
        assert(out@ =~= v@.take(i + 1));
        i = i + 1;
    }
    assert(v@.take(n as int) =~= v@);
    out
}

/// The type a table of phoneme types gives `p`, if it lists `p`.
pub open spec fn type_of(types: Map<Seq<char>, PhonemeType>, p: Seq<char>) -> Option<PhonemeType> {
    if types.contains_key(p) {
        Some(types[p])
    } else {
        None
    }
}

/// Recording a type for a phoneme makes it that phoneme's type and leaves
/// every other phoneme's type as it was (what `add_phoneme` does to what
/// `get_type` answers, on a phoneme map or a language inventory).
pub proof fn law_type_last_write_wins(
    before: Map<Seq<char>, PhonemeType>,
    after: Map<Seq<char>, PhonemeType>,
    name: Seq<char>,
    t: PhonemeType,
    other: Seq<char>,
)
    requires
        after == before.insert(name, t),
    ensures
        type_of(after, name) == Some(t),
        other != name ==> type_of(after, other) == type_of(before, other),
{
}

/// A phoneme map: the available phonemes and their articulatory types.
#[derive(Debug, Clone)]
pub struct PhonemeMap {
    /// Human-readable name for this phoneme map
    pub name: String,
    /// Mapping from phoneme label to its type
    pub phonemes: KeyedTable<String, PhonemeType>,
}

impl PhonemeMap {
    /// The map's table keeps each label once.
    pub open spec fn wf(&self) -> bool {
        self.phonemes.wf()
    }

    /// The types of the map's phonemes, by label.
    pub open spec fn types(&self) -> Map<Seq<char>, PhonemeType> {
        self.phonemes.map()
    }

    /// Create a new empty phoneme map.
    pub fn new(name: &str) -> (m: Self)
        ensures
            m.wf(),
            m.name@ == name@,
            m.types() == Map::<Seq<char>, PhonemeType>::empty(),
    {
        PhonemeMap { name: name.to_owned(), phonemes: KeyedTable::new() }
    }

    /// Add a phoneme to the map, replacing any type it had before.
    pub fn add_phoneme(&mut self, name: &str, phoneme_type: PhonemeType)
        requires
            old(self).wf(),
        ensures
            final(self).wf(),
            final(self).name == old(self).name,
            final(self).types() == old(self).types().insert(name@, phoneme_type),
    {
        self.phonemes.insert(name.to_owned(), phoneme_type);
    }

    /// Get the type of a phoneme by name.
    pub fn get_type(&self, name: &str) -> (r: Option<PhonemeType>)
        requires
            self.wf(),
        ensures
            r == type_of(self.types(), name@),
    {
        let key = name.to_owned();
        match self.phonemes.get(&key) {
            Some(t) => Some(*t),
            None => None,
        }
    }

    /// Check if a phoneme exists in the map.
    pub fn contains(&self, name: &str) -> (b: bool)
        requires
            self.wf(),
        ensures
            b == self.types().contains_key(name@),
    {
        let key = name.to_owned();
        self.phonemes.contains_key(&key)
    }
}

/// Language-specific phoneme inventory.
///
/// Declares which phonemes are vowels and diphthongs (the syllable nuclei
/// that bound consonant clusters) and the articulatory type of each phoneme.
#[derive(Debug, Clone)]
pub struct LanguageInfo {
    /// Language name (e.g., "English", "Japanese")
    pub name: String,
    /// Plosive labels.
    pub plosives: Vec<String>,
    /// Affricate labels.
    pub affricates: Vec<String>,
    /// Fricative labels.
    pub fricatives: Vec<String>,
    /// Sonorant labels.
    pub sonorants: Vec<String>,
    /// Tap and flap labels.
    pub taps: Vec<String>,
    /// Monophthong vowel labels
    pub vowels: Vec<String>,
    /// Diphthong labels
    pub diphthongs: Vec<String>,
    /// Extension vowel for each diphthong, when defined.
    pub diphthong_extensions: KeyedTable<String, String>,
    /// Syllabic consonant labels
    pub syllabic_consonants: Vec<String>,
    /// Mapping from phoneme labels to their articulatory types.
    pub phonemes: KeyedTable<String, PhonemeType>,
}

impl LanguageInfo {
    /// Both tables keep each label once.
    pub open spec fn wf(&self) -> bool {
        &&& self.phonemes.wf()
        &&& self.diphthong_extensions.wf()
    }

    /// The articulatory types of the inventory's phonemes, by label.
    pub open spec fn types(&self) -> Map<Seq<char>, PhonemeType> {
        self.phonemes.map()
    }

    /// Whether `p` is a syllable nucleus: a listed vowel or diphthong.
    pub open spec fn is_nucleus(&self, p: Seq<char>) -> bool {
        seq_has_string(self.vowels@, p) || seq_has_string(self.diphthongs@, p)
    }

    /// Create new, empty language info.
    pub fn new(name: &str) -> (info: Self)
        ensures
            info.wf(),
            info.name@ == name@,
            info.plosives@.len() == 0,
            info.affricates@.len() == 0,
            info.fricatives@.len() == 0,
            info.sonorants@.len() == 0,
            info.taps@.len() == 0,
            info.vowels@.len() == 0,
            info.diphthongs@.len() == 0,
            info.syllabic_consonants@.len() == 0,
            info.diphthong_extensions.map() == Map::<Seq<char>, String>::empty(),
            info.types() == Map::<Seq<char>, PhonemeType>::empty(),
    {
        LanguageInfo {
            name: name.to_owned(),
            plosives: Vec::new(),
            affricates: Vec::new(),
            fricatives: Vec::new(),
            sonorants: Vec::new(),
            taps: Vec::new(),
            vowels: Vec::new(),
            diphthongs: Vec::new(),
            diphthong_extensions: KeyedTable::new(),
            syllabic_consonants: Vec::new(),
            phonemes: KeyedTable::new(),
        }
    }

    /// Add a vowel phoneme.
    pub fn add_vowel(&mut self, phoneme: &str)
        requires
            old(self).wf(),
        ensures
            final(self).wf(),
            final(self).vowels@.len() == old(self).vowels@.len() + 1,
            final(self).vowels@.drop_last() == old(self).vowels@,
            final(self).vowels@.last()@ == phoneme@,
            final(self).types() == old(self).types().insert(phoneme@, PhonemeType::Vowel),
            final(self).diphthongs == old(self).diphthongs,
            final(self).diphthong_extensions == old(self).diphthong_extensions,
            final(self).name == old(self).name,
            final(self).plosives == old(self).plosives,
            final(self).affricates == old(self).affricates,
            final(self).fricatives == old(self).fricatives,
            final(self).sonorants == old(self).sonorants,
            final(self).taps == old(self).taps,
            final(self).syllabic_consonants == old(self).syllabic_consonants,
    {
        let p = phoneme.to_owned();
        self.vowels.push(p.clone());
        self.phonemes.insert(p, PhonemeType::Vowel);
        assert(self.vowels@.drop_last() =~= old(self).vowels@);
    }

    /// Add a diphthong phoneme with its extension vowel.
    pub fn add_diphthong(&mut self, phoneme: &str, extension: &str)
        requires
            old(self).wf(),
        ensures
            final(self).wf(),
            final(self).diphthongs@.len() == old(self).diphthongs@.len() + 1,
            final(self).diphthongs@.drop_last() == old(self).diphthongs@,
            final(self).diphthongs@.last()@ == phoneme@,
            final(self).diphthong_extensions.map().dom() == old(self).diphthong_extensions.map().dom().insert(phoneme@),
            final(self).diphthong_extensions.map()[phoneme@]@ == extension@,
            forall|k: Seq<char>| k != phoneme@ && old(self).diphthong_extensions.map().contains_key(k)
                ==> final(self).diphthong_extensions.map()[k] == old(self).diphthong_extensions.map()[k],
            final(self).types() == old(self).types().insert(phoneme@, PhonemeType::Diphthong),
            final(self).vowels == old(self).vowels,
            final(self).name == old(self).name,
            final(self).plosives == old(self).plosives,
            final(self).affricates == old(self).affricates,
            final(self).fricatives == old(self).fricatives,
            final(self).sonorants == old(self).sonorants,
            final(self).taps == old(self).taps,
            final(self).syllabic_consonants == old(self).syllabic_consonants,
    {
        let p = phoneme.to_owned();
        self.diphthongs.push(p.clone());
        self.diphthong_extensions.insert(p.clone(), extension.to_owned());
        self.phonemes.insert(p, PhonemeType::Diphthong);
        assert(self.diphthongs@.drop_last() =~= old(self).diphthongs@);
    }

    /// Add a phoneme and its articulatory type.
    pub fn add_phoneme(&mut self, phoneme: &str, phoneme_type: PhonemeType)
        requires
            old(self).wf(),
        ensures
            final(self).wf(),
            final(self).types() == old(self).types().insert(phoneme@, phoneme_type),
            final(self).vowels == old(self).vowels,
            final(self).diphthongs == old(self).diphthongs,
            final(self).diphthong_extensions == old(self).diphthong_extensions,
            final(self).name == old(self).name,
            final(self).plosives == old(self).plosives,
            final(self).affricates == old(self).affricates,
            final(self).fricatives == old(self).fricatives,
            final(self).sonorants == old(self).sonorants,
            final(self).taps == old(self).taps,
            final(self).syllabic_consonants == old(self).syllabic_consonants,
    {
        self.phonemes.insert(phoneme.to_owned(), phoneme_type);
    }

    /// Get the articulatory type of a phoneme.
    pub fn get_type(&self, phoneme: &str) -> (r: Option<PhonemeType>)
        requires
            self.wf(),
        ensures
            r == type_of(self.types(), phoneme@),
    {
        let key = phoneme.to_owned();
        match self.phonemes.get(&key) {
            Some(t) => Some(*t),
            None => None,
        }
    }

    /// Check whether a phoneme is present in this language inventory.
    pub fn contains(&self, phoneme: &str) -> (b: bool)
        requires
            self.wf(),
        ensures
            b == self.types().contains_key(phoneme@),
    {
        let key = phoneme.to_owned();
        self.phonemes.contains_key(&key)
    }

    /// Check if a phoneme is a vowel or diphthong (i.e., a syllable nucleus).
    pub fn is_vowel(&self, phoneme: &str) -> (b: bool)
        ensures
            b == self.is_nucleus(phoneme@),
    {
        vec_has_str(&self.vowels, phoneme) || vec_has_str(&self.diphthongs, phoneme)
    }
}

/// Adding a vowel or a diphthong makes it a nucleus (what `is_vowel`
/// answers) and keeps every earlier nucleus; nothing else becomes one.
/// Adding a phoneme with `add_phoneme` changes no nucleus.
pub proof fn law_nucleus_after_add(before: LanguageInfo, after: LanguageInfo, p: Seq<char>, q: Seq<char>)
    ensures
        (after.vowels@ == before.vowels@.push(after.vowels@.last()) && after.vowels@.last()@ == p
            && after.diphthongs == before.diphthongs) ==> {
            &&& after.is_nucleus(p)
            &&& before.is_nucleus(q) ==> after.is_nucleus(q)
            &&& after.is_nucleus(q) ==> q == p || before.is_nucleus(q)
        },
        (after.diphthongs@ == before.diphthongs@.push(after.diphthongs@.last()) && after.diphthongs@.last()@ == p
            && after.vowels == before.vowels) ==> {
            &&& after.is_nucleus(p)
            &&& before.is_nucleus(q) ==> after.is_nucleus(q)
            &&& after.is_nucleus(q) ==> q == p || before.is_nucleus(q)
        },
        (after.vowels == before.vowels && after.diphthongs == before.diphthongs) ==> after.is_nucleus(q)
            == before.is_nucleus(q),
{
    lemma_push_has_string(before.vowels@, after.vowels@, p, q);
    lemma_push_has_string(before.diphthongs@, after.diphthongs@, p, q);
}

/// Appending a string whose content is `p` to a list: `p` occurs, earlier
/// strings still occur, and nothing else new occurs.
pub proof fn lemma_push_has_string(v: Seq<String>, w: Seq<String>, p: Seq<char>, q: Seq<char>)
    ensures
        (w.len() > 0 && w == v.push(w.last()) && w.last()@ == p) ==> {
            &&& seq_has_string(w, p)
            &&& seq_has_string(v, q) ==> seq_has_string(w, q)
            &&& seq_has_string(w, q) ==> q == p || seq_has_string(v, q)
        },
{
    if w.len() > 0 && w == v.push(w.last()) && w.last()@ == p {
        let n = v.len();
        assert(w[n as int]@ == p);
        if seq_has_string(v, q) {
            let i = choose|i: int| 0 <= i < v.len() && #[trigger] v[i]@ == q;
            assert(w[i] == v[i]);
        }
        if seq_has_string(w, q) && q != p {
            let i = choose|i: int| 0 <= i < w.len() && #[trigger] w[i]@ == q;
            assert(i < n);
            assert(w[i] == v[i]);
        }
    }
}

/// Metadata for a timing model.
#[derive(Debug, Clone)]
pub struct TimingMetadata {
    /// Voice library name (e.g., "ANGEL", "DAMIEN")
    pub library: String,
    /// Language name (e.g., "English", "Japanese")
    pub language: String,
    /// Voice color/style name (e.g., "Default", "Soft")
    pub voice_color: String,
    /// ISO 8601 timestamp when the model was created
    pub created_at: Option<String>,
    /// List of source TextGrid files used for training
    pub source_files: Option<Vec<String>>,
}

impl TimingMetadata {
    /// Create new metadata with the required fields.
    pub fn new(library: &str, language: &str, voice_color: &str) -> (m: Self)
        ensures
            m.library@ == library@,
            m.language@ == language@,
            m.voice_color@ == voice_color@,
            m.created_at.is_none(),
            m.source_files.is_none(),
    {
        TimingMetadata {
            library: library.to_owned(),
            language: language.to_owned(),
            voice_color: voice_color.to_owned(),
            created_at: None,
            source_files: None,
        }
    }
}

/// Timing data for one specific phoneme sequence.
#[derive(Debug, Clone)]
pub struct ClusterTiming {
    /// The phoneme sequence
    pub phonemes: Vec<String>,
    /// Duration samples in milliseconds; each inner list is one observation.
    pub samples: Vec<Vec<u16>>,
}

impl ClusterTiming {
    /// Create a new cluster timing entry with no samples.
    pub fn new(phonemes: Vec<String>) -> (c: Self)
        ensures
            c.phonemes == phonemes,
            c.samples@.len() == 0,
    {
        ClusterTiming { phonemes, samples: Vec::new() }
    }

    /// Add a duration sample.
    pub fn add_sample(&mut self, durations: Vec<u16>)
        ensures
            final(self).phonemes == old(self).phonemes,
            final(self).samples@ == old(self).samples@.push(durations),
    {
        self.samples.push(durations);
    }
}

/// Timing data for one sequence of phoneme types.
#[derive(Debug, Clone)]
pub struct GenericTiming {
    /// The phoneme type sequence
    pub types: Vec<PhonemeType>,
    /// Duration samples in milliseconds; each inner list is one observation.
    pub samples: Vec<Vec<u16>>,
}

impl GenericTiming {
    /// Create a new generic timing entry with no samples.
    pub fn new(types: Vec<PhonemeType>) -> (g: Self)
        ensures
            g.types == types,
            g.samples@.len() == 0,
    {
        GenericTiming { types, samples: Vec::new() }
    }

    /// Add a duration sample.
    pub fn add_sample(&mut self, durations: Vec<u16>)
        ensures
            final(self).types == old(self).types,
            final(self).samples@ == old(self).samples@.push(durations),
    {
        self.samples.push(durations);
    }
}

/// The format version written into new models.
pub open spec fn model_format_version() -> Seq<char> {
    seq!['1', '.', '0']
}

/// A complete timing model.
#[derive(Debug, Clone)]
pub struct TimingModel {
    /// Version of the timing model format
    pub version: String,
    /// Model metadata
    pub metadata: TimingMetadata,
    /// Cluster-specific timing data (exact phoneme matches)
    pub cluster_timings: Vec<ClusterTiming>,
    /// Generic timing data (phoneme type matches)
    pub generic_timings: Vec<GenericTiming>,
}

/// The current model format version as a string.
pub fn format_version() -> (s: String)
    ensures
        s@ == model_format_version(),
{
    proof {
        reveal_strlit("1.0");
    }
    "1.0".to_owned()
}

impl TimingModel {
    /// Create a new empty timing model.
    pub fn new(metadata: TimingMetadata) -> (m: Self)
        ensures
            m.version@ == model_format_version(),
            m.metadata == metadata,
            m.cluster_timings@.len() == 0,
            m.generic_timings@.len() == 0,
    {
        TimingModel {
            version: format_version(),
            metadata,
            cluster_timings: Vec::new(),
            generic_timings: Vec::new(),
        }
    }
}

/// Number of samples over a list of cluster timings.
pub open spec fn cluster_sample_count(ts: Seq<ClusterTiming>) -> int
    decreases ts.len(),
{
    if ts.len() == 0 {
        0
    } else {
        cluster_sample_count(ts.drop_last()) + ts.last().samples@.len()
    }
}

/// Number of samples over a list of generic timings.
pub open spec fn generic_sample_count(ts: Seq<GenericTiming>) -> int
    decreases ts.len(),
{
    if ts.len() == 0 {
        0
    } else {
        generic_sample_count(ts.drop_last()) + ts.last().samples@.len()
    }
}

/// `n`, or the largest `usize` where `n` does not fit.
pub open spec fn saturated(n: int) -> int {
    if n > usize::MAX {
        usize::MAX as int
    } else {
        n
    }
}

impl TimingModel {
    /// Total number of cluster samples (saturating at `usize::MAX`).
    pub fn cluster_sample_total(&self) -> (n: usize)
        ensures
            n == saturated(cluster_sample_count(self.cluster_timings@)),
    {
        let ts = &self.cluster_timings;
        let mut total: usize = 0;
        let mut i: usize = 0;
        while i < ts.len()
            invariant
                0 <= i <= ts@.len(),
                ts@ == self.cluster_timings@,
                total == saturated(cluster_sample_count(ts@.take(i as int))),
                cluster_sample_count(ts@.take(i as int)) >= 0,
            decreases ts@.len() - i,
        {
            assert(ts@.take(i + 1).drop_last() =~= ts@.take(i as int));
            total = total.saturating_add(ts[i].samples.len());
            i = i + 1;
        }
        assert(ts@.take(ts@.len() as int) =~= ts@);
        total
    }

    /// Total number of generic samples (saturating at `usize::MAX`).
    pub fn generic_sample_total(&self) -> (n: usize)
        ensures
            n == saturated(generic_sample_count(self.generic_timings@)),
    {
        let ts = &self.generic_timings;
        let mut total: usize = 0;
        let mut i: usize = 0;
        while i < ts.len()
            invariant
                0 <= i <= ts@.len(),
                ts@ == self.generic_timings@,
                total == saturated(generic_sample_count(ts@.take(i as int))),
                generic_sample_count(ts@.take(i as int)) >= 0,
            decreases ts@.len() - i,
        {
            assert(ts@.take(i + 1).drop_last() =~= ts@.take(i as int));
            total = total.saturating_add(ts[i].samples.len());
            i = i + 1;
        }
        assert(ts@.take(ts@.len() as int) =~= ts@);
        total
    }
}

/// Each cluster timing as its phoneme sequence and its samples.
pub open spec fn cluster_entries(ts: Seq<ClusterTiming>) -> Seq<(Seq<Seq<char>>, Seq<Seq<u16>>)> {
    ts.map_values(|t: ClusterTiming| (strings_view(t.phonemes@), crate::tree::samples_view(t.samples@)))
}

/// Each generic timing as its type sequence and its samples.
pub open spec fn generic_entries(ts: Seq<GenericTiming>) -> Seq<(Seq<PhonemeType>, Seq<Seq<u16>>)> {
    ts.map_values(|t: GenericTiming| (t.types@, crate::tree::samples_view(t.samples@)))
}

/// All samples recorded under key `p`, in order.
pub open spec fn group_of<V>(es: Seq<(Seq<V>, Seq<Seq<u16>>)>, p: Seq<V>) -> Seq<Seq<u16>>
    decreases es.len(),
{
    if es.len() == 0 {
        Seq::empty()
    } else {
        group_of(es.drop_last(), p) + (if es.last().0 == p {
            es.last().1
        } else {
            Seq::empty()
        })
    }
}

/// Whether some entry has key `p`.
pub open spec fn has_group<V>(es: Seq<(Seq<V>, Seq<Seq<u16>>)>, p: Seq<V>) -> bool {
    exists|i: int| 0 <= i < es.len() && #[trigger] es[i].0 == p
}

/// No key occurs twice.
pub open spec fn distinct_groups<V>(es: Seq<(Seq<V>, Seq<Seq<u16>>)>) -> bool {
    forall|i: int, j: int| 0 <= i < es.len() && 0 <= j < es.len() && i != j ==> #[trigger] es[i].0 != #[trigger] es[j].0
}

/// Every sample of every entry holds one duration per element of the
/// entry's sequence.
pub open spec fn widths_match<V>(es: Seq<(Seq<V>, Seq<Seq<u16>>)>) -> bool {
    forall|i: int, j: int| 0 <= i < es.len() && 0 <= j < es[i].1.len() ==> (#[trigger] es[i].1[j]).len() == es[i].0.len()
}

/// Where widths match, every sample grouped under `p` holds `p.len()`
/// durations.
pub proof fn lemma_group_widths<V>(es: Seq<(Seq<V>, Seq<Seq<u16>>)>, p: Seq<V>)
    requires
        widths_match(es),
    ensures
        forall|k: int| 0 <= k < group_of(es, p).len() ==> (#[trigger] group_of(es, p)[k]).len() == p.len(),
    decreases es.len(),
{
    if es.len() > 0 {
        let d = es.drop_last();
        assert(widths_match(d)) by {
            assert forall|i: int, j: int| 0 <= i < d.len() && 0 <= j < d[i].1.len() implies (#[trigger] d[i].1[j]).len() == d[i].0.len() by {
                assert(d[i] == es[i]);
            }
        }
        lemma_group_widths(d, p);
        let l = es.len() - 1;
        let g = group_of(es, p);
        let gd = group_of(d, p);
        assert forall|k: int| 0 <= k < g.len() implies (#[trigger] g[k]).len() == p.len() by {
            if k < gd.len() {
                assert(g[k] == gd[k]);
            } else {
                assert(es.last().0 == p);
                assert(g[k] == es[l].1[k - gd.len()]);
            }
        }
    }
}

/// All samples that `ts` records for the phoneme sequence `p`, in order.
pub open spec fn cluster_group(ts: Seq<ClusterTiming>, p: Seq<Seq<char>>) -> Seq<Seq<u16>> {
    group_of(cluster_entries(ts), p)
}

/// All samples that `ts` records for the type sequence `p`, in order.
pub open spec fn generic_group(ts: Seq<GenericTiming>, p: Seq<PhonemeType>) -> Seq<Seq<u16>> {
    group_of(generic_entries(ts), p)
}

/// Grouping two lists one after the other groups each and concatenates.
pub proof fn lemma_group_of_concat<V>(a: Seq<(Seq<V>, Seq<Seq<u16>>)>, b: Seq<(Seq<V>, Seq<Seq<u16>>)>, p: Seq<V>)
    ensures
        group_of(a + b, p) == group_of(a, p) + group_of(b, p),
    decreases b.len(),
{
    if b.len() == 0 {
        assert(a + b =~= a);
        assert(group_of(a, p) + group_of(b, p) =~= group_of(a, p));
    } else {
        assert((a + b).drop_last() =~= a + b.drop_last());
        lemma_group_of_concat(a, b.drop_last(), p);
        assert(group_of(a + b, p) =~= group_of(a, p) + group_of(b, p));
    }
}

/// With no key twice, a key's group is its one entry's samples.
pub proof fn lemma_group_of_distinct<V>(es: Seq<(Seq<V>, Seq<Seq<u16>>)>, p: Seq<V>)
    requires
        distinct_groups(es),
    ensures
        has_group(es, p) ==> exists|i: int| 0 <= i < es.len() && es[i].0 == p && #[trigger] group_of(es, p) == es[i].1,
        !has_group(es, p) ==> group_of(es, p) == Seq::<Seq<u16>>::empty(),
        has_group(es, p) ==> forall|i: int| 0 <= i < es.len() && es[i].0 == p ==> group_of(es, p) == #[trigger] es[i].1,
    decreases es.len(),
{
    if es.len() > 0 {
        let d = es.drop_last();
        assert(distinct_groups(d)) by {
            assert forall|i: int, j: int| 0 <= i < d.len() && 0 <= j < d.len() && i != j implies #[trigger] d[i].0 != #[trigger] d[j].0 by {
                assert(d[i] == es[i]);
                assert(d[j] == es[j]);
            }
        }
        lemma_group_of_distinct(d, p);
        let l = es.len() - 1;
        if es.last().0 == p {
            assert(!has_group(d, p)) by {
                if has_group(d, p) {
                    let i = choose|i: int| 0 <= i < d.len() && #[trigger] d[i].0 == p;
                    assert(es[i].0 == es[l].0);
                }
            }
            assert(group_of(es, p) =~= es.last().1);
            assert forall|i: int| 0 <= i < es.len() && es[i].0 == p implies group_of(es, p) == #[trigger] es[i].1 by {
                if i != l {
                    assert(es[i].0 == es[l].0);
                }
            }
        } else {
            assert(group_of(es, p) =~= group_of(d, p));
            if has_group(es, p) {
                let i = choose|i: int| 0 <= i < es.len() && #[trigger] es[i].0 == p;
                assert(d[i] == es[i]);
                assert(has_group(d, p));
                assert forall|i: int| 0 <= i < es.len() && es[i].0 == p implies group_of(es, p) == #[trigger] es[i].1 by {
                    assert(d[i] == es[i]);
                }
            } else {
                assert forall|i: int| 0 <= i < d.len() implies #[trigger] d[i].0 != p by {
                    assert(d[i] == es[i]);
                }
            }
        }
    }
}

/// Phoneme timing result from prediction.
#[derive(Debug, Clone)]
pub struct PhonemeTiming {
    /// Phoneme name
    pub phoneme: String,
    /// Predicted duration in milliseconds
    pub duration_ms: u32,
}

/// Sum of the durations of a list of phoneme/duration pairs.
pub open spec fn pairs_total(s: Seq<(String, u32)>) -> int
    decreases s.len(),
{
    if s.len() == 0 {
        0
    } else {
        pairs_total(s.drop_last()) + s.last().1
    }
}

/// Sum of the durations of a list of phoneme timings.
pub open spec fn timings_total(s: Seq<PhonemeTiming>) -> int
    decreases s.len(),
{
    if s.len() == 0 {
        0
    } else {
        timings_total(s.drop_last()) + s.last().duration_ms
    }
}

/// Partial sums of durations never exceed the full sum.
pub proof fn lemma_pairs_total_prefix(s: Seq<(String, u32)>, i: int)
    requires
        0 <= i <= s.len(),
    ensures
        0 <= pairs_total(s.take(i)) <= pairs_total(s),
    decreases s.len() - i,
{
    if i < s.len() {
        lemma_pairs_total_prefix(s, i + 1);
        assert(s.take(i + 1).drop_last() =~= s.take(i));
    } else {
        assert(s.take(i) =~= s);
    }
    lemma_pairs_total_nonneg(s.take(i));
}

/// Sums of durations are never negative.
pub proof fn lemma_pairs_total_nonneg(s: Seq<(String, u32)>)
    ensures
        pairs_total(s) >= 0,
    decreases s.len(),
{
    if s.len() > 0 {
        lemma_pairs_total_nonneg(s.drop_last());
    }
}

/// Result of timing prediction for an utterance.
#[derive(Debug, Clone)]
pub struct TimingResult {
    /// Individual phoneme timings
    pub timings: Vec<PhonemeTiming>,
    /// Total duration in milliseconds
    pub total_duration_ms: u32,
}

impl TimingResult {
    /// Create a result from a list of phoneme-duration pairs; the total is
    /// the sum of the durations.
    pub fn from_pairs(pairs: Vec<(String, u32)>) -> (r: Self)
        requires
            pairs_total(pairs@) <= u32::MAX,
        ensures
            r.timings@.len() == pairs@.len(),
            forall|i: int| 0 <= i < pairs@.len() ==> {
                &&& #[trigger] r.timings@[i].phoneme@ == pairs@[i].0@
                &&& r.timings@[i].duration_ms == pairs@[i].1
            },
            r.total_duration_ms == pairs_total(pairs@),
            r.total_duration_ms == timings_total(r.timings@),
    {
        let n = pairs.len();
        let mut timings: Vec<PhonemeTiming> = Vec::new();
        let mut total: u32 = 0;
        let mut i: usize = 0;
        while i < n
            invariant
                n == pairs@.len(),
                pairs_total(pairs@) <= u32::MAX,
                0 <= i <= n,
                timings@.len() == i,
                forall|j: int| 0 <= j < i ==> {
                    &&& #[trigger] timings@[j].phoneme@ == pairs@[j].0@
                    &&& timings@[j].duration_ms == pairs@[j].1
                },
                total == pairs_total(pairs@.take(i as int)),
                total == timings_total(timings@),
            decreases n - i,
        {
            let d = pairs[i].1;
            proof {
                lemma_pairs_total_prefix(pairs@, i + 1);
                assert(pairs@.take(i + 1).drop_last() =~= pairs@.take(i as int));
            }
            let ghost before = timings@;
            timings.push(PhonemeTiming { phoneme: pairs[i].0.clone(), duration_ms: d });
            assert(timings@.drop_last() =~= before);
            total = total + d;
            i = i + 1;
        }
        assert(pairs@.take(n as int) =~= pairs@);
        TimingResult { timings, total_duration_ms: total }
    }
}

/// The text lines of a list of timings: `phoneme: durationms`, one per line.
pub open spec fn timing_lines(ts: Seq<PhonemeTiming>) -> Seq<char>
    decreases ts.len(),
{
    if ts.len() == 0 {
        Seq::empty()
    } else {
        timing_lines(ts.drop_last()) + ts.last().phoneme@ + ": "@ + crate::text::decimal(ts.last().duration_ms as nat)
            + "ms\n"@
    }
}

/// The text form of a result: its timing lines, a `---` line, then the total.
pub open spec fn result_text(ts: Seq<PhonemeTiming>, total: u32) -> Seq<char> {
    timing_lines(ts) + "---\n"@ + "Total: "@ + crate::text::decimal(total as nat) + "ms"@
}

impl TimingResult {
    /// The result as text: one `phoneme: durationms` line per timing, a
    /// `---` line, then `Total: durationms`.
    pub fn render(&self) -> (s: String)
        ensures
            s@ == result_text(self.timings@, self.total_duration_ms),
    {
        let mut s = String::new();
        let n = self.timings.len();
        let mut i: usize = 0;
        while i < n
            invariant
                n == self.timings@.len(),
                0 <= i <= n,
                s@ == timing_lines(self.timings@.take(i as int)),
            decreases n - i,
        {
            let t = &self.timings[i];
            s.append(t.phoneme.as_str());
            s.append(": ");
            let d = crate::text::decimal_text(t.duration_ms);
            s.append(d.as_str());
            s.append("ms\n");
            proof {
                let tk = self.timings@.take(i + 1);
                assert(tk.drop_last() =~= self.timings@.take(i as int));
                assert(tk.last() == self.timings@[i as int]);
            }
            i = i + 1;
        }
        assert(self.timings@.take(n as int) =~= self.timings@);
        s.append("---\n");
        s.append("Total: ");
        let d = crate::text::decimal_text(self.total_duration_ms);
        s.append(d.as_str());
        s.append("ms");
        s
    }
}

/// Input format for utterance prediction.
#[derive(Debug, Clone)]
pub struct UtteranceInput {
    /// Phoneme names to predict timings for
    pub phonemes: Vec<String>,
}

} // verus!
