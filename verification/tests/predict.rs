use nchant_flow::classifier::PhonemeClassifier;
use nchant_flow::model::{ClusterTiming, GenericTiming, LanguageInfo, PhonemeType, TimingMetadata, TimingModel};
use nchant_flow::predict::{
    average_timing, default_duration, validate_phonemes, TimingLookup, DEFAULT_FRICATIVE_MS, DEFAULT_PLOSIVE_MS,
    DEFAULT_VOWEL_MS,
};
use nchant_flow::tree::TreeNode;

fn create_test_model() -> TimingModel {
    let mut model = TimingModel::new(TimingMetadata::new("TestLib", "English", "Default"));

    let mut ct = ClusterTiming::new(vec!["k".to_string(), "s".to_string()]);
    ct.add_sample(vec![95, 110]);
    ct.add_sample(vec![100, 105]);
    ct.add_sample(vec![90, 115]);
    model.cluster_timings.push(ct);

    let mut ct2 = ClusterTiming::new(vec!["t".to_string()]);
    ct2.add_sample(vec![80]);
    ct2.add_sample(vec![90]);
    ct2.add_sample(vec![85]);
    model.cluster_timings.push(ct2);

    let mut gt = GenericTiming::new(vec![PhonemeType::Plosive, PhonemeType::Fricative]);
    gt.add_sample(vec![100, 120]);
    gt.add_sample(vec![90, 130]);
    model.generic_timings.push(gt);

    model
}

fn create_test_phoneme_map() -> LanguageInfo {
    let mut map = LanguageInfo::new("Test");
    map.add_phoneme("k", PhonemeType::Plosive);
    map.add_phoneme("t", PhonemeType::Plosive);
    map.add_phoneme("s", PhonemeType::Fricative);
    map.add_phoneme("f", PhonemeType::Fricative);
    map.add_phoneme("a", PhonemeType::Vowel);
    map
}

#[test]
fn test_exact_match() {
    let model = create_test_model();
    let map = create_test_phoneme_map();
    let lookup = TimingLookup::from_model(&model, &map);

    let cluster = ["k".to_string(), "s".to_string()];
    let result = lookup.get_timing(&cluster);

    assert_eq!(result.len(), 2);
    assert_eq!(result[0].1, 95);
    assert_eq!(result[1].1, 110);
}

#[test]
fn test_generic_fallback() {
    let model = create_test_model();
    let map = create_test_phoneme_map();
    let lookup = TimingLookup::from_model(&model, &map);

    let cluster = ["t".to_string(), "f".to_string()];
    let result = lookup.get_timing(&cluster);

    assert_eq!(result.len(), 2);
    assert_eq!(result[0].1, 95);
    assert_eq!(result[1].1, 125);
}

#[test]
fn test_single_phoneme_exact() {
    let model = create_test_model();
    let map = create_test_phoneme_map();
    let lookup = TimingLookup::from_model(&model, &map);

    let cluster = ["t".to_string()];
    let result = lookup.get_timing(&cluster);
    assert_eq!(result.len(), 1);
    assert_eq!(result[0].1, 85);
}

#[test]
fn test_single_phoneme_default() {
    let model = create_test_model();
    let map = create_test_phoneme_map();
    let lookup = TimingLookup::from_model(&model, &map);

    let cluster = ["f".to_string()];
    let result = lookup.get_timing(&cluster);
    assert_eq!(result.len(), 1);
    assert_eq!(result[0].1, 200);
}

#[test]
fn test_predict() {
    let model = create_test_model();
    let map = create_test_phoneme_map();
    let lookup = TimingLookup::from_model(&model, &map);

    let result = lookup.predict(&["k".to_string(), "s".to_string()]);

    assert_eq!(result.timings.len(), 2);
    assert_eq!(result.total_duration_ms, 95 + 110);
}

struct I32Classifier;

impl PhonemeClassifier<i32> for I32Classifier {
    fn classify_spec(&self, phoneme: i32) -> PhonemeType {
        self.classify(&phoneme)
    }

    fn ready(&self) -> bool {
        true
    }

    fn classify(&self, phoneme: &i32) -> PhonemeType {
        if *phoneme < 10 {
            PhonemeType::Plosive
        } else {
            PhonemeType::Fricative
        }
    }
}

#[test]
fn test_generic_from_trees() {
    let mut cluster_tree: TreeNode<i32> = TreeNode::default();
    let mut node_1: TreeNode<i32> = TreeNode::default();
    node_1.entries.push(vec![100]);
    cluster_tree.children.push((1, node_1));

    let generic_tree: TreeNode<PhonemeType> = TreeNode::default();

    let lookup = TimingLookup::from_trees(
        "TestLib".into(),
        "TestLang".into(),
        "Default".into(),
        cluster_tree,
        generic_tree,
        Box::new(I32Classifier),
    );

    let result = lookup.get_timing(&[1]);
    assert_eq!(result.len(), 1);
    assert_eq!(result[0].1, 100);

    let result = lookup.get_timing(&[5]);
    assert_eq!(result.len(), 1);
    assert_eq!(result[0].1, DEFAULT_PLOSIVE_MS);
}

fn create_cascade_model() -> (TimingModel, LanguageInfo) {
    let mut model = TimingModel::new(TimingMetadata::new("Cascade", "English", "Default"));

    let mut ks = ClusterTiming::new(vec!["k".to_string(), "s".to_string()]);
    ks.add_sample(vec![95, 110]);
    model.cluster_timings.push(ks);

    let mut g_plosive = GenericTiming::new(vec![PhonemeType::Plosive]);
    g_plosive.add_sample(vec![70]);
    model.generic_timings.push(g_plosive);

    let mut g_plos_fric = GenericTiming::new(vec![PhonemeType::Plosive, PhonemeType::Fricative]);
    g_plos_fric.add_sample(vec![95, 125]);
    model.generic_timings.push(g_plos_fric);

    let mut g_son_son = GenericTiming::new(vec![PhonemeType::Sonorant, PhonemeType::Sonorant]);
    g_son_son.add_sample(vec![150, 160]);
    model.generic_timings.push(g_son_son);

    let mut map = LanguageInfo::new("Cascade");
    map.add_phoneme("k", PhonemeType::Plosive);
    map.add_phoneme("t", PhonemeType::Plosive);
    map.add_phoneme("s", PhonemeType::Fricative);
    map.add_phoneme("f", PhonemeType::Fricative);
    map.add_phoneme("m", PhonemeType::Sonorant);
    map.add_phoneme("n", PhonemeType::Sonorant);
    map.add_phoneme("a", PhonemeType::Vowel);

    (model, map)
}

#[test]
fn test_exact_takes_precedence_over_generic() {
    let (model, map) = create_cascade_model();
    let lookup = TimingLookup::from_model(&model, &map);

    let cluster = ["k".to_string(), "s".to_string()];
    let result = lookup.get_timing(&cluster);
    assert_eq!(result.len(), 2);
    assert_eq!(result[0].1, 95);
    assert_eq!(result[1].1, 110);
}

#[test]
fn test_unknown_cluster_falls_back_to_generic() {
    let (model, map) = create_cascade_model();
    let lookup = TimingLookup::from_model(&model, &map);

    let cluster = ["t".to_string(), "f".to_string()];
    let result = lookup.get_timing(&cluster);
    assert_eq!(result.len(), 2);
    assert_eq!(result[0].1, 95);
    assert_eq!(result[1].1, 125);
    assert_eq!(result[0].0, "t");
    assert_eq!(result[1].0, "f");
}

#[test]
fn test_partial_exact_path_falls_back_to_generic() {
    let (model, map) = create_cascade_model();
    let lookup = TimingLookup::from_model(&model, &map);

    let cluster = ["k".to_string()];
    let result = lookup.get_timing(&cluster);
    assert_eq!(result.len(), 1);
    assert_eq!(result[0].1, 70);
}

#[test]
fn test_multi_phoneme_generic_match() {
    let (model, map) = create_cascade_model();
    let lookup = TimingLookup::from_model(&model, &map);

    let cluster = ["m".to_string(), "n".to_string()];
    let result = lookup.get_timing(&cluster);
    assert_eq!(result.len(), 2);
    assert_eq!(result[0].1, 150);
    assert_eq!(result[1].1, 160);
}

#[test]
fn test_no_generic_single_falls_back_to_default() {
    let (model, map) = create_cascade_model();
    let lookup = TimingLookup::from_model(&model, &map);

    let cluster = ["a".to_string()];
    let result = lookup.get_timing(&cluster);
    assert_eq!(result.len(), 1);
    assert_eq!(result[0].1, DEFAULT_VOWEL_MS);
}

#[test]
fn test_no_generic_multi_falls_back_to_recursive_split() {
    let (model, map) = create_cascade_model();
    let lookup = TimingLookup::from_model(&model, &map);

    let cluster = ["s".to_string(), "t".to_string()];
    let result = lookup.get_timing(&cluster);
    assert_eq!(result.len(), 2);
    assert_eq!(result[0].0, "s");
    assert_eq!(result[0].1, DEFAULT_FRICATIVE_MS);
    assert_eq!(result[1].0, "t");
    assert_eq!(result[1].1, 70);
}

#[test]
fn test_metadata_accessors() {
    let model = create_test_model();
    let map = create_test_phoneme_map();
    let lookup = TimingLookup::from_model(&model, &map);

    assert_eq!(lookup.library(), "TestLib");
    assert_eq!(lookup.language(), "English");
    assert_eq!(lookup.voice_color(), "Default");
    assert_eq!(lookup.model_version(), "1.0");
    assert!(lookup.created_at().is_none());
    assert!(lookup.source_files().is_none());
}

#[test]
fn test_validate_phonemes() {
    let map = create_test_phoneme_map();
    let valid = vec!["k".to_string(), "a".to_string()];
    let invalid = vec!["k".to_string(), "zzz".to_string(), "a".to_string()];

    assert!(validate_phonemes(&valid, &map).is_empty());
    let issues = validate_phonemes(&invalid, &map);
    assert_eq!(issues, vec!["zzz"]);
}

#[test]
fn average_truncates_toward_zero() {
    assert_eq!(average_timing(&[vec![1, 10], vec![2, 11]]), vec![1, 10]);
    assert_eq!(average_timing(&[vec![65535], vec![65535], vec![65535]]), vec![65535]);
    assert_eq!(average_timing(&[vec![3, 4, 5]]), vec![3, 4, 5]);
}

#[test]
fn default_durations_by_type() {
    assert_eq!(default_duration(PhonemeType::Affricate), 250);
    assert_eq!(default_duration(PhonemeType::Vowel), 400);
    assert_eq!(default_duration(PhonemeType::Diphthong), 400);
    assert_eq!(default_duration(PhonemeType::Fricative), 200);
    assert_eq!(default_duration(PhonemeType::Sonorant), 200);
    assert_eq!(default_duration(PhonemeType::Plosive), 100);
    assert_eq!(default_duration(PhonemeType::Tap), 50);
    assert_eq!(default_duration(PhonemeType::Special), 200);
    assert_eq!(default_duration(PhonemeType::Unknown), 0);
}

#[test]
fn unknown_phoneme_in_cluster_gets_zero() {
    let (model, map) = create_cascade_model();
    let lookup = TimingLookup::from_model(&model, &map);
    let cluster = ["q".to_string()];
    let result = lookup.get_timing(&cluster);
    assert_eq!(result.len(), 1);
    assert_eq!(result[0].1, 0);
}

#[test]
fn three_phoneme_split_times_each_phoneme_once() {
    // [s, s, s]: no exact or type entry at any length, so the split gives
    // the timing of [s, s] followed by that of the last [s]: one default per
    // phoneme.
    let (model, map) = create_cascade_model();
    let lookup = TimingLookup::from_model(&model, &map);
    let cluster = ["s".to_string(), "s".to_string(), "s".to_string()];
    let result = lookup.get_timing(&cluster);
    assert_eq!(result.len(), 3);
    assert!(result.iter().all(|(p, d)| *p == "s" && *d == DEFAULT_FRICATIVE_MS));
}

#[test]
fn split_uses_exact_match_of_the_head() {
    // [k, s, m] has no entry; its head [k, s] matches exactly and the last
    // phoneme m falls back to its type default.
    let (model, map) = create_cascade_model();
    let lookup = TimingLookup::from_model(&model, &map);
    let cluster = ["k".to_string(), "s".to_string(), "m".to_string()];
    let result = lookup.get_timing(&cluster);
    assert_eq!(result.len(), 3);
    assert_eq!((result[0].0.as_str(), result[0].1), ("k", 95));
    assert_eq!((result[1].0.as_str(), result[1].1), ("s", 110));
    assert_eq!((result[2].0.as_str(), result[2].1), ("m", 200));
}

#[test]
fn empty_prediction_has_zero_total() {
    let (model, map) = create_cascade_model();
    let lookup = TimingLookup::from_model(&model, &map);
    let result = lookup.predict(&[]);
    assert!(result.timings.is_empty());
    assert_eq!(result.total_duration_ms, 0);
}

#[test]
fn try_get_timing_reports_short_samples() {
    // The second sample is shorter than the first: averaging would read
    // past its end, so no timing is given.
    let mut model = TimingModel::new(TimingMetadata::new("L", "English", "Default"));
    let mut ct = ClusterTiming::new(vec!["k".to_string(), "s".to_string()]);
    ct.add_sample(vec![10, 20]);
    ct.add_sample(vec![30]);
    model.cluster_timings.push(ct);
    let map = create_test_phoneme_map();
    let lookup = TimingLookup::from_model(&model, &map);
    let cluster = ["k".to_string(), "s".to_string()];
    assert!(lookup.try_get_timing(&cluster).is_none());
    assert!(lookup.try_predict(&cluster).is_none());
    // A cluster that does not reach that node is still timed.
    let other = ["t".to_string()];
    assert_eq!(lookup.try_get_timing(&other).unwrap()[0].1, DEFAULT_PLOSIVE_MS);
}

#[test]
fn try_predict_matches_predict() {
    let model = create_test_model();
    let map = create_test_phoneme_map();
    let lookup = TimingLookup::from_model(&model, &map);
    let phonemes = ["k".to_string(), "s".to_string()];
    let a = lookup.try_predict(&phonemes).unwrap();
    let b = lookup.predict(&phonemes);
    assert_eq!(a.total_duration_ms, b.total_duration_ms);
    assert_eq!(a.total_duration_ms, 205);
    assert_eq!(a.timings.len(), 2);
    assert_eq!(a.timings[1].phoneme, "s");
    assert_eq!(a.timings[1].duration_ms, 110);
}

#[test]
fn longer_first_sample_is_averaged_over_its_width() {
    // Samples may be longer than the first one; only the first one's width
    // is averaged, and the timing pairs stop at the shorter of the two.
    let mut model = TimingModel::new(TimingMetadata::new("L", "English", "Default"));
    let mut ct = ClusterTiming::new(vec!["k".to_string(), "s".to_string()]);
    ct.add_sample(vec![10]);
    ct.add_sample(vec![30, 99]);
    model.cluster_timings.push(ct);
    let map = create_test_phoneme_map();
    let lookup = TimingLookup::from_model(&model, &map);
    let cluster = ["k".to_string(), "s".to_string()];
    let r = lookup.try_get_timing(&cluster).unwrap();
    assert_eq!(r.len(), 1);
    assert_eq!(r[0].1, 20);
}

#[test]
fn long_unmatched_cluster_gets_one_timing_per_phoneme() {
    // Beyond the recursion limit the remaining head takes type defaults.
    let (model, map) = create_cascade_model();
    let lookup = TimingLookup::from_model(&model, &map);
    let cluster: Vec<String> = (0..20).map(|_| "s".to_string()).collect();
    let result = lookup.get_timing(&cluster);
    assert_eq!(result.len(), 20);
    assert!(result.iter().all(|(p, d)| *p == "s" && *d == DEFAULT_FRICATIVE_MS));
    assert_eq!(lookup.predict(&cluster).total_duration_ms, 20 * DEFAULT_FRICATIVE_MS);
}
