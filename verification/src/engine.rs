//! A high-level engine bundling an inventory and a lookup for repeated
//! predictions.

use std::sync::Arc;
use vstd::prelude::*;
use crate::classifier::MapClassifier;
use crate::error::TimingError;
use crate::model::{strings_view, LanguageInfo, PhonemeType, TimingModel, TimingResult};
use crate::predict::{default_ms, missing_phonemes, validate_phonemes, TimingLookup};
use crate::table::KeyedTable;

verus! {

/// Shared state of the engine (immutable after construction).
#[derive(Debug)]
struct TimingEngineInner {
    language_info: LanguageInfo,
    lookup: TimingLookup<String, MapClassifier>,
}

/// An engine that holds an inventory and its timing lookup, for repeated
/// predictions without reloading.
#[derive(Debug, Clone)]
pub struct TimingEngine {
    inner: Arc<TimingEngineInner>,
    /// Phoneme-type fallback durations (owned per engine, not shared).
    fallbacks: KeyedTable<PhonemeType, u32>,
}

/// The default fallback durations: every type has one, its default duration.
pub open spec fn default_fallbacks_hold(t: KeyedTable<PhonemeType, u32>) -> bool {
    &&& t.wf()
    &&& forall|p: PhonemeType| #[trigger] t.map().contains_key(p) && t.map()[p] == default_ms(p)
}

/// Default fallback durations (ms) by phoneme type.
pub fn default_fallbacks() -> (m: KeyedTable<PhonemeType, u32>)
    ensures
        default_fallbacks_hold(m),
{
    let mut m: KeyedTable<PhonemeType, u32> = KeyedTable::new();
    m.insert(PhonemeType::Affricate, 250);
    m.insert(PhonemeType::Diphthong, 400);
    m.insert(PhonemeType::Vowel, 400);
    m.insert(PhonemeType::Fricative, 200);
    m.insert(PhonemeType::Sonorant, 200);
    m.insert(PhonemeType::Plosive, 100);
    m.insert(PhonemeType::Tap, 50);
    m.insert(PhonemeType::Special, 200);
    m.insert(PhonemeType::Unknown, 0);
    assert forall|p: PhonemeType| #[trigger] m.map().contains_key(p) && m.map()[p] == default_ms(p) by {
        match p {
            PhonemeType::Vowel => {},
            PhonemeType::Diphthong => {},
            PhonemeType::Affricate => {},
            PhonemeType::Fricative => {},
            PhonemeType::Plosive => {},
            PhonemeType::Sonorant => {},
            PhonemeType::Tap => {},
            PhonemeType::Special => {},
            PhonemeType::Unknown => {},
        }
    }
    m
}

impl TimingEngine {
    /// The engine's language inventory.
    pub closed spec fn info(&self) -> LanguageInfo {
        self.inner.language_info
    }

    /// The engine's timing lookup.
    pub closed spec fn lookup_spec(&self) -> TimingLookup<String, MapClassifier> {
        self.inner.lookup
    }

    /// The engine's fallback durations.
    pub closed spec fn fallback_table(&self) -> KeyedTable<PhonemeType, u32> {
        self.fallbacks
    }

    /// The inventory and lookup can answer, and the fallback table keeps
    /// each type once.
    pub open spec fn wf(&self) -> bool {
        &&& self.info().wf()
        &&& self.lookup_spec().wf()
        &&& self.fallback_table().wf()
    }

    /// Create an engine from a model and a language inventory.
    pub fn from_components(model: TimingModel, language_info: LanguageInfo) -> (e: Self)
        requires
            language_info.wf(),
        ensures
            e.wf(),
            e.info() == language_info,
            forall|p: Seq<Seq<char>>| #[trigger] e.lookup_spec().clusters().entries_at(p)
                == crate::model::cluster_group(model.cluster_timings@, p),
            forall|p: Seq<PhonemeType>| #[trigger] e.lookup_spec().generics().entries_at(p)
                == crate::model::generic_group(model.generic_timings@, p),
            e.lookup_spec().classifier_view().table().map() == language_info.types(),
            e.lookup_spec().library_view() == model.metadata.library@,
            e.lookup_spec().language_view() == model.metadata.language@,
            e.lookup_spec().voice_color_view() == model.metadata.voice_color@,
            e.lookup_spec().version_view() == model.version@,
            e.lookup_spec().created_at_view() == model.metadata.created_at,
            e.lookup_spec().source_files_view() == crate::model::opt_seq(model.metadata.source_files),
            default_fallbacks_hold(e.fallback_table()),
    {
        let lookup = TimingLookup::from_model(&model, &language_info);
        TimingEngine {
            inner: Arc::new(TimingEngineInner { language_info, lookup }),
            fallbacks: default_fallbacks(),
        }
    }

    /// Timing for a cluster of phonemes.
    pub fn get_timing<'a>(&self, phonemes: &'a [String]) -> (r: Vec<(&'a String, u32)>)
        requires
            self.wf(),
            self.lookup_spec().timing_spec(phonemes@, 0) is Some,
        ensures
            r@.len() == self.lookup_spec().timing_spec(phonemes@, 0).unwrap().len(),
            forall|i: int| 0 <= i < r@.len() ==> {
                &&& *(#[trigger] r@[i]).0 == self.lookup_spec().timing_spec(phonemes@, 0).unwrap()[i].0
                &&& r@[i].1 == self.lookup_spec().timing_spec(phonemes@, 0).unwrap()[i].1
            },
    {
        self.inner.lookup.get_timing(phonemes)
    }

    /// Predict timings for a phoneme sequence.
    pub fn predict(&self, phonemes: &[String]) -> (r: TimingResult)
        requires
            self.wf(),
            self.lookup_spec().predictable(phonemes@),
        ensures
            self.lookup_spec().predicted(phonemes@, r),
    {
        self.inner.lookup.predict(phonemes)
    }

    /// `predict` for any phoneme sequence: `None` exactly where it is not
    /// predictable.
    pub fn try_predict(&self, phonemes: &[String]) -> (r: Option<TimingResult>)
        requires
            self.wf(),
        ensures
            r.is_some() == self.lookup_spec().predictable(phonemes@),
            r matches Some(x) ==> self.lookup_spec().predicted(phonemes@, x),
    {
        self.inner.lookup.try_predict(phonemes)
    }

    /// The fallback durations by phoneme type (per engine, not shared).
    pub fn fallbacks(&self) -> (r: &KeyedTable<PhonemeType, u32>)
        ensures
            *r == self.fallback_table(),
    {
        &self.fallbacks
    }

    /// The language inventory.
    pub fn language_info(&self) -> (r: &LanguageInfo)
        ensures
            *r == self.info(),
    {
        &self.inner.language_info
    }

    /// The underlying timing lookup.
    pub fn lookup(&self) -> (r: &TimingLookup<String, MapClassifier>)
        ensures
            *r == self.lookup_spec(),
    {
        &self.inner.lookup
    }

    /// The library name from the model metadata.
    pub fn library(&self) -> (s: &str)
        ensures
            s@ == self.lookup_spec().library_view(),
    {
        self.inner.lookup.library()
    }

    /// The language name from the model metadata.
    pub fn language(&self) -> (s: &str)
        ensures
            s@ == self.lookup_spec().language_view(),
    {
        self.inner.lookup.language()
    }

    /// The voice color name from the model metadata.
    pub fn voice_color(&self) -> (s: &str)
        ensures
            s@ == self.lookup_spec().voice_color_view(),
    {
        self.inner.lookup.voice_color()
    }

    /// The model version.
    pub fn model_version(&self) -> (s: &str)
        ensures
            s@ == self.lookup_spec().version_view(),
    {
        self.inner.lookup.model_version()
    }

    /// The creation timestamp, if available.
    pub fn created_at(&self) -> (r: Option<&str>)
        ensures
            r.is_some() == self.lookup_spec().created_at_view().is_some(),
            r matches Some(s) ==> s@ == self.lookup_spec().created_at_view().unwrap()@,
    {
        self.inner.lookup.created_at()
    }

    /// The source file names, if available.
    pub fn source_files(&self) -> (r: Option<&[String]>)
        ensures
            r.is_some() == self.lookup_spec().source_files_view().is_some(),
            r matches Some(s) ==> s@ == self.lookup_spec().source_files_view().unwrap(),
    {
        self.inner.lookup.source_files()
    }

    /// The phonemes the inventory lacks, in order.
    pub fn validate(&self, phonemes: &[String]) -> (r: Vec<String>)
        requires
            self.wf(),
        ensures
            strings_view(r@) == missing_phonemes(phonemes@, self.info().types()),
    {
        validate_phonemes(phonemes, &self.inner.language_info)
    }

    /// Predict timings for several utterances: one result per utterance, each
    /// the prediction for that utterance.
    pub fn predict_batch(&self, batches: &[Vec<String>]) -> (r: Vec<TimingResult>)
        requires
            self.wf(),
            forall|i: int| 0 <= i < batches@.len() ==> self.lookup_spec().predictable(#[trigger] batches@[i]@),
        ensures
            r@.len() == batches@.len(),
            forall|i: int| 0 <= i < batches@.len() ==> self.lookup_spec().predicted(batches@[i]@, #[trigger] r@[i]),
    {
        let mut out: Vec<TimingResult> = Vec::new();
        let n = batches.len();
        let mut i: usize = 0;
        while i < n
            invariant
                self.wf(),
                n == batches@.len(),
                forall|i: int| 0 <= i < batches@.len() ==> self.lookup_spec().predictable(#[trigger] batches@[i]@),
                0 <= i <= n,
                out@.len() == i,
                forall|j: int| 0 <= j < i ==> self.lookup_spec().predicted(batches@[j]@, #[trigger] out@[j]),
            decreases n - i,
        {
            let r = self.predict(batches[i].as_slice());
            out.push(r);
            i = i + 1;
        }
        out
    }

    /// Override the fallback duration for a phoneme type, in this engine only.
    pub fn with_fallback(&mut self, phoneme_type: PhonemeType, duration_ms: u32) -> (r: &mut Self)
        requires
            old(self).fallback_table().wf(),
        ensures
            r.fallback_table().wf(),
            r.fallback_table().map() == old(self).fallback_table().map().insert(phoneme_type, duration_ms),
            r.info() == old(self).info(),
            r.lookup_spec() == old(self).lookup_spec(),
            *final(self) == *final(r),
    {
        self.fallbacks.insert(phoneme_type, duration_ms);
        self
    }
}

/// An engine built from a model and an inventory times and predicts
/// exactly as a lookup built from the same model and inventory, and reports
/// the same metadata.
pub proof fn law_engine_matches_lookup(e: TimingEngine, l: TimingLookup<String, MapClassifier>, model: TimingModel, info: LanguageInfo)
    requires
        forall|p: Seq<Seq<char>>| #[trigger] e.lookup_spec().clusters().entries_at(p) == crate::model::cluster_group(model.cluster_timings@, p),
        forall|p: Seq<PhonemeType>| #[trigger] e.lookup_spec().generics().entries_at(p) == crate::model::generic_group(model.generic_timings@, p),
        e.lookup_spec().classifier_view().table().map() == info.types(),
        forall|p: Seq<Seq<char>>| #[trigger] l.clusters().entries_at(p) == crate::model::cluster_group(model.cluster_timings@, p),
        forall|p: Seq<PhonemeType>| #[trigger] l.generics().entries_at(p) == crate::model::generic_group(model.generic_timings@, p),
        l.classifier_view().table().map() == info.types(),
    ensures
        forall|c: Seq<String>, d: nat| #[trigger] e.lookup_spec().timing_spec(c, d) == l.timing_spec(c, d),
        forall|c: Seq<String>| #[trigger] e.lookup_spec().predictable(c) == l.predictable(c),
        forall|c: Seq<String>, r: TimingResult| #[trigger] e.lookup_spec().predicted(c, r) == l.predicted(c, r),
{
    let a = e.lookup_spec();
    assert forall|p: Seq<Seq<char>>| #[trigger] a.clusters().entries_at(p) == l.clusters().entries_at(p) by {
        assert(a.clusters().entries_at(p) == crate::model::cluster_group(model.cluster_timings@, p));
        assert(l.clusters().entries_at(p) == crate::model::cluster_group(model.cluster_timings@, p));
    }
    assert forall|p: Seq<PhonemeType>| #[trigger] a.generics().entries_at(p) == l.generics().entries_at(p) by {
        assert(a.generics().entries_at(p) == crate::model::generic_group(model.generic_timings@, p));
        assert(l.generics().entries_at(p) == crate::model::generic_group(model.generic_timings@, p));
    }
    assert forall|c: Seq<String>, d: nat| #[trigger] a.timing_spec(c, d) == l.timing_spec(c, d) by {
        a.lemma_same_contents_same_timing(l, c, d);
    }
    assert forall|c: Seq<String>| #[trigger] a.predictable(c) == l.predictable(c) by {
        a.lemma_same_contents_same_timing(l, c, 0);
    }
    assert forall|c: Seq<String>, r: TimingResult| #[trigger] a.predicted(c, r) == l.predicted(c, r) by {
        a.lemma_same_contents_same_timing(l, c, 0);
    }
}

/// Builder for constructing a `TimingEngine` step by step.
#[derive(Debug)]
pub struct TimingEngineBuilder {
    model: Option<TimingModel>,
    language_info: Option<LanguageInfo>,
    fallbacks: KeyedTable<PhonemeType, u32>,
}

/// Message when a builder has no model.
pub open spec fn missing_model_message() -> Seq<char> {
    "TimingModel is required. Use .model() or .model_path()"@
}

/// Message when a builder has no language inventory.
pub open spec fn missing_language_message() -> Seq<char> {
    "LanguageInfo is required. Use .language_info() or .language_info_path()"@
}

impl TimingEngineBuilder {
    /// The model set so far.
    pub closed spec fn model_spec(&self) -> Option<TimingModel> {
        self.model
    }

    /// The inventory set so far.
    pub closed spec fn language_info_spec(&self) -> Option<LanguageInfo> {
        self.language_info
    }

    /// The fallback durations set so far.
    pub closed spec fn fallbacks_spec(&self) -> KeyedTable<PhonemeType, u32> {
        self.fallbacks
    }

    /// The fallback table keeps each type once and the inventory (if set)
    /// is well formed.
    pub open spec fn wf(&self) -> bool {
        &&& self.fallbacks_spec().wf()
        &&& (self.language_info_spec() matches Some(info) ==> info.wf())
    }

    /// Create a new empty builder with the default fallback durations.
    pub fn new() -> (b: Self)
        ensures
            b.wf(),
            b.model_spec().is_none(),
            b.language_info_spec().is_none(),
            default_fallbacks_hold(b.fallbacks_spec()),
    {
        TimingEngineBuilder { model: None, language_info: None, fallbacks: default_fallbacks() }
    }

    /// Set the timing model.
    pub fn model(self, model: TimingModel) -> (b: Self)
        ensures
            b.model_spec() == Some(model),
            b.language_info_spec() == self.language_info_spec(),
            b.fallbacks_spec() == self.fallbacks_spec(),
    {
        let mut b = self;
        b.model = Some(model);
        b
    }

    /// Set the language inventory.
    pub fn language_info(self, info: LanguageInfo) -> (b: Self)
        ensures
            b.language_info_spec() == Some(info),
            b.model_spec() == self.model_spec(),
            b.fallbacks_spec() == self.fallbacks_spec(),
    {
        let mut b = self;
        b.language_info = Some(info);
        b
    }

    /// Override the fallback duration for a phoneme type.
    pub fn fallback(self, phoneme_type: PhonemeType, duration_ms: u32) -> (b: Self)
        requires
            self.wf(),
        ensures
            b.wf(),
            b.fallbacks_spec().map() == self.fallbacks_spec().map().insert(phoneme_type, duration_ms),
            b.model_spec() == self.model_spec(),
            b.language_info_spec() == self.language_info_spec(),
    {
        let mut b = self;
        b.fallbacks.insert(phoneme_type, duration_ms);
        b
    }

    /// Build the engine; it needs both a model and a language inventory.
    pub fn build(self) -> (r: Result<TimingEngine, TimingError>)
        requires
            self.wf(),
        ensures
            (self.model_spec() is Some && self.language_info_spec() is Some) <==> r is Ok,
            self.model_spec() is None ==> (r matches Err(TimingError::Other(m)) && m@ == missing_model_message()),
            self.model_spec() is Some && self.language_info_spec() is None
                ==> (r matches Err(TimingError::Other(m)) && m@ == missing_language_message()),
            r matches Ok(e) ==> {
                &&& e.wf()
                &&& e.info() == self.language_info_spec().unwrap()
                &&& e.fallback_table() == self.fallbacks_spec()
                &&& e.lookup_spec().library_view() == self.model_spec().unwrap().metadata.library@
                &&& e.lookup_spec().language_view() == self.model_spec().unwrap().metadata.language@
                &&& e.lookup_spec().voice_color_view() == self.model_spec().unwrap().metadata.voice_color@
                &&& e.lookup_spec().version_view() == self.model_spec().unwrap().version@
                &&& e.lookup_spec().created_at_view() == self.model_spec().unwrap().metadata.created_at
                &&& e.lookup_spec().source_files_view() == crate::model::opt_seq(self.model_spec().unwrap().metadata.source_files)
                &&& forall|p: Seq<Seq<char>>| #[trigger] e.lookup_spec().clusters().entries_at(p)
                    == crate::model::cluster_group(self.model_spec().unwrap().cluster_timings@, p)
                &&& forall|p: Seq<PhonemeType>| #[trigger] e.lookup_spec().generics().entries_at(p)
                    == crate::model::generic_group(self.model_spec().unwrap().generic_timings@, p)
                &&& e.lookup_spec().classifier_view().table().map() == self.language_info_spec().unwrap().types()
            },
    {
        let TimingEngineBuilder { model, language_info, fallbacks } = self;
        let model = match model {
            Some(m) => m,
            None => {
                return Err(TimingError::Other("TimingModel is required. Use .model() or .model_path()".to_owned()));
            },
        };
        let language_info = match language_info {
            Some(i) => i,
            None => {
                return Err(
                    TimingError::Other(
                        "LanguageInfo is required. Use .language_info() or .language_info_path()".to_owned(),
                    ),
                );
            },
        };
        let lookup = TimingLookup::from_model(&model, &language_info);
        Ok(TimingEngine { inner: Arc::new(TimingEngineInner { language_info, lookup }), fallbacks })
    }
}

impl Default for TimingEngineBuilder {
    fn default() -> (b: Self)
        ensures
            b.wf(),
            b.model_spec().is_none(),
            b.language_info_spec().is_none(),
            default_fallbacks_hold(b.fallbacks_spec()),
    {
        TimingEngineBuilder::new()
    }
}

} // verus!
