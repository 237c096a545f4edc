//! Classification of phonemes into articulatory types.

use vstd::prelude::*;
use crate::model::PhonemeType;
use crate::table::KeyedTable;

verus! {

/// Classifies phonemes into articulatory types.
///
/// Implement this trait for your phoneme key type to use `TimingLookup`
/// with the generic tree fallback. An implementation names the type it gives
/// each phoneme (`classify_spec`) and what it needs to answer (`ready`);
/// `classify` must return that type.
pub trait PhonemeClassifier<K> {
    /// The type this classifier gives `phoneme`.
    spec fn classify_spec(&self, phoneme: K) -> PhonemeType;

    /// What the classifier needs of its own state to answer.
    spec fn ready(&self) -> bool;

    /// Returns the `PhonemeType` for the given phoneme.
    fn classify(&self, phoneme: &K) -> (t: PhonemeType)
        requires
            self.ready(),
        ensures
            t == self.classify_spec(*phoneme),
    ;
}

/// Classifier for `String` keys backed by a table of phoneme types.
///
/// Phonemes missing from the table are `PhonemeType::Unknown`.
#[derive(Debug, Clone)]
pub struct MapClassifier {
    types: KeyedTable<String, PhonemeType>,
}

impl MapClassifier {
    /// The table this classifier answers from.
    pub closed spec fn table(&self) -> KeyedTable<String, PhonemeType> {
        self.types
    }

    /// Create a new classifier from a phoneme type table.
    pub fn new(types: KeyedTable<String, PhonemeType>) -> (c: Self)
        ensures
            c.table() == types,
    {
        MapClassifier { types }
    }
}

impl PhonemeClassifier<String> for MapClassifier {
    open spec fn classify_spec(&self, phoneme: String) -> PhonemeType {
        if self.table().map().contains_key(phoneme@) {
            self.table().map()[phoneme@]
        } else {
            PhonemeType::Unknown
        }
    }

    open spec fn ready(&self) -> bool {
        self.table().wf()
    }

    fn classify(&self, phoneme: &String) -> (t: PhonemeType)
        ensures
            self.table().map().contains_key(phoneme@) ==> t == self.table().map()[phoneme@],
            !self.table().map().contains_key(phoneme@) ==> t == PhonemeType::Unknown,
    {
        match self.types.get(phoneme) {
            Some(t) => *t,
            None => PhonemeType::Unknown,
        }
    }
}

/// The classifier of a type table gives every listed phoneme exactly the
/// type the table lists, and every other phoneme `Unknown`: no type is
/// rewritten to another class.
pub proof fn law_classifier_keeps_table_types(c: MapClassifier, phoneme: String)
    ensures
        c.table().map().contains_key(phoneme@) ==> c.classify_spec(phoneme) == c.table().map()[phoneme@],
        !c.table().map().contains_key(phoneme@) ==> c.classify_spec(phoneme) == PhonemeType::Unknown,
{
}

} // verus!
