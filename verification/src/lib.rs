//! Phoneme timing model: consonant-cluster timing data learned from
//! annotated recordings, stored as prefix trees and queried with a
//! four-level fallback cascade (exact cluster, phoneme types, per-type
//! defaults, recursive split).

pub mod key;
pub mod table;
pub mod model;
pub mod tree;
pub mod classifier;
pub mod predict;
pub mod cluster;
pub mod groups;
pub mod resources;
pub mod error;
pub mod train;
pub mod text;
pub mod engine;

pub use classifier::{MapClassifier, PhonemeClassifier};
pub use cluster::{split_into_clusters, Cluster};
pub use engine::{TimingEngine, TimingEngineBuilder};
pub use error::TimingError;
pub use key::PhonemeKey;
pub use model::{
    ClusterTiming, GenericTiming, LanguageInfo, PhonemeMap, PhonemeTiming, PhonemeType, TimingMetadata, TimingModel,
    TimingResult, UtteranceInput,
};
pub use predict::{validate_phonemes, TimingLookup};
pub use resources::{build_language_info_from_raw, merge_models, RawLanguageInfoFile};
pub use table::KeyedTable;
pub use train::TrainingConfig;
pub use tree::{PhonemeTree, TreeNode};
