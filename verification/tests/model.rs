use nchant_flow::model::{
    ClusterTiming, GenericTiming, LanguageInfo, PhonemeMap, PhonemeType, TimingMetadata, TimingModel, TimingResult,
};

fn phoneme_map() {
    let mut map = PhonemeMap::new("Test Map");
    map.add_phoneme("t", PhonemeType::Plosive);
    map.add_phoneme("a", PhonemeType::Vowel);

    assert_eq!(map.get_type("t"), Some(PhonemeType::Plosive));
    assert_eq!(map.get_type("a"), Some(PhonemeType::Vowel));
    assert_eq!(map.get_type("zzz"), None);
}

fn language_info() {
    let mut lang = LanguageInfo::new("English");
    lang.add_vowel("{");
    lang.add_vowel("i");
    lang.add_diphthong("aI", "A");

    assert!(lang.is_vowel("{"));
    assert!(lang.is_vowel("aI"));
    assert!(!lang.is_vowel("t"));
}

fn timing_result() {
    let pairs = vec![("t".to_string(), 100), ("a".to_string(), 300)];
    let result = TimingResult::from_pairs(pairs);

    assert_eq!(result.timings.len(), 2);
    assert_eq!(result.total_duration_ms, 400);
}

fn phoneme_type_default() {
    assert_eq!(PhonemeType::default(), PhonemeType::Unknown);
}

fn phoneme_map_contains() {
    let mut map = PhonemeMap::new("Test Map");
    map.add_phoneme("t", PhonemeType::Plosive);

    assert!(map.contains("t"));
    assert!(!map.contains("z"));
}

fn phoneme_map_overwrite() {
    let mut map = PhonemeMap::new("Test Map");
    map.add_phoneme("t", PhonemeType::Plosive);
    map.add_phoneme("t", PhonemeType::Fricative);

    assert_eq!(map.get_type("t"), Some(PhonemeType::Fricative));
}

fn language_info_consonant_not_vowel() {
    let mut lang = LanguageInfo::new("English");
    lang.add_vowel("a");
    lang.add_vowel("i");

    assert!(!lang.is_vowel("k"));
    assert!(!lang.is_vowel("s"));
    assert!(!lang.is_vowel(""));
}

fn language_info_diphthong_extension() {
    let mut lang = LanguageInfo::new("English");
    lang.add_diphthong("aI", "A");
    lang.add_diphthong("eI", "E");

    assert_eq!(lang.diphthong_extensions.get(&"aI".to_string()), Some(&"A".to_string()));
    assert_eq!(lang.diphthong_extensions.get(&"eI".to_string()), Some(&"E".to_string()));
    assert_eq!(lang.diphthong_extensions.get(&"oU".to_string()), None);
}

fn cluster_timing_multiple_samples() {
    let mut ct = ClusterTiming::new(vec!["k".to_string(), "a".to_string()]);
    ct.add_sample(vec![100, 200]);
    ct.add_sample(vec![110, 210]);
    ct.add_sample(vec![90, 190]);

    assert_eq!(ct.samples.len(), 3);
    assert_eq!(ct.phonemes.len(), 2);
    assert_eq!(ct.samples[0], vec![100, 200]);
    assert_eq!(ct.samples[2], vec![90, 190]);
}

fn generic_timing_construction() {
    let mut gt = GenericTiming::new(vec![PhonemeType::Plosive, PhonemeType::Vowel]);
    gt.add_sample(vec![100, 300]);

    assert_eq!(gt.types.len(), 2);
    assert_eq!(gt.samples.len(), 1);
    assert_eq!(gt.types[0], PhonemeType::Plosive);
    assert_eq!(gt.types[1], PhonemeType::Vowel);
}

fn timing_model_new() {
    let metadata = TimingMetadata::new("TestLib", "English", "Default");
    let model = TimingModel::new(metadata);

    assert_eq!(model.version, "1.0");
    assert_eq!(model.metadata.library, "TestLib");
    assert_eq!(model.metadata.language, "English");
    assert_eq!(model.metadata.voice_color, "Default");
    assert!(model.cluster_timings.is_empty());
    assert!(model.generic_timings.is_empty());
}

fn timing_metadata_optional_fields() {
    let metadata = TimingMetadata::new("Lib", "Lang", "Color");

    assert!(metadata.created_at.is_none());
    assert!(metadata.source_files.is_none());
}

fn timing_result_empty() {
    let result = TimingResult::from_pairs(vec![]);

    assert_eq!(result.timings.len(), 0);
    assert_eq!(result.total_duration_ms, 0);
}

fn timing_result_single_phoneme() {
    let pairs = vec![("a".to_string(), 500)];
    let result = TimingResult::from_pairs(pairs);

    assert_eq!(result.timings.len(), 1);
    assert_eq!(result.timings[0].phoneme, "a");
    assert_eq!(result.timings[0].duration_ms, 500);
    assert_eq!(result.total_duration_ms, 500);
}

fn timing_result_total_is_sum() {
    let pairs = vec![("t".to_string(), 100), ("a".to_string(), 300), ("k".to_string(), 80)];
    let result = TimingResult::from_pairs(pairs);

    assert_eq!(result.total_duration_ms, 480);
}

fn timing_result_display() {
    let pairs = vec![("t".to_string(), 100), ("a".to_string(), 300)];
    let result = TimingResult::from_pairs(pairs);
    let display = result.render();
    assert!(display.contains("t: 100ms"));
    assert!(display.contains("a: 300ms"));
    assert!(display.contains("Total: 400ms"));
}

#[test]
fn model_test_phoneme_map() {
    phoneme_map();
}

#[test]
fn test_phoneme_map() {
    phoneme_map();
}

#[test]
fn model_test_language_info() {
    language_info();
}

#[test]
fn test_language_info() {
    language_info();
}

#[test]
fn model_test_timing_result() {
    timing_result();
}

#[test]
fn test_timing_result() {
    timing_result();
}

#[test]
fn model_test_phoneme_type_default() {
    phoneme_type_default();
}

#[test]
fn test_phoneme_type_default() {
    phoneme_type_default();
}

#[test]
fn model_test_phoneme_map_contains() {
    phoneme_map_contains();
}

#[test]
fn test_phoneme_map_contains() {
    phoneme_map_contains();
}

#[test]
fn model_test_phoneme_map_overwrite() {
    phoneme_map_overwrite();
}

#[test]
fn test_phoneme_map_overwrite() {
    phoneme_map_overwrite();
}

#[test]
fn model_test_language_info_consonant_not_vowel() {
    language_info_consonant_not_vowel();
}

#[test]
fn test_language_info_consonant_not_vowel() {
    language_info_consonant_not_vowel();
}

#[test]
fn model_test_language_info_diphthong_extension() {
    language_info_diphthong_extension();
}

#[test]
fn test_language_info_diphthong_extension() {
    language_info_diphthong_extension();
}

#[test]
fn model_test_cluster_timing_multiple_samples() {
    cluster_timing_multiple_samples();
}

#[test]
fn test_cluster_timing_multiple_samples() {
    cluster_timing_multiple_samples();
}

#[test]
fn model_test_generic_timing_construction() {
    generic_timing_construction();
}

#[test]
fn test_generic_timing_construction() {
    generic_timing_construction();
}

#[test]
fn model_test_timing_model_new() {
    timing_model_new();
}

#[test]
fn test_timing_model_new() {
    timing_model_new();
}

#[test]
fn model_test_timing_metadata_optional_fields() {
    timing_metadata_optional_fields();
}

#[test]
fn test_timing_metadata_optional_fields() {
    timing_metadata_optional_fields();
}

#[test]
fn model_test_timing_result_empty() {
    timing_result_empty();
}

#[test]
fn test_timing_result_empty() {
    timing_result_empty();
}

#[test]
fn model_test_timing_result_single_phoneme() {
    timing_result_single_phoneme();
}

#[test]
fn test_timing_result_single_phoneme() {
    timing_result_single_phoneme();
}

#[test]
fn model_test_timing_result_total_is_sum() {
    timing_result_total_is_sum();
}

#[test]
fn test_timing_result_total_is_sum() {
    timing_result_total_is_sum();
}

#[test]
fn model_test_timing_result_display() {
    timing_result_display();
}

#[test]
fn test_timing_result_display() {
    timing_result_display();
}

#[test]
fn render_lists_lines_in_order_then_total() {
    let result = TimingResult::from_pairs(vec![("k".to_string(), 7), ("i".to_string(), 1234)]);
    assert_eq!(result.render(), "k: 7ms\ni: 1234ms\n---\nTotal: 1241ms");
}

#[test]
fn render_of_empty_result_is_total_only() {
    let result = TimingResult::from_pairs(vec![]);
    assert_eq!(result.render(), "---\nTotal: 0ms");
}

#[test]
fn language_info_types_follow_additions() {
    let mut lang = LanguageInfo::new("English");
    lang.add_vowel("a");
    lang.add_diphthong("aI", "A");
    lang.add_phoneme("t", PhonemeType::Plosive);
    assert_eq!(lang.get_type("a"), Some(PhonemeType::Vowel));
    assert_eq!(lang.get_type("aI"), Some(PhonemeType::Diphthong));
    assert_eq!(lang.get_type("t"), Some(PhonemeType::Plosive));
    assert_eq!(lang.get_type("x"), None);
    assert!(lang.contains("t"));
    assert!(!lang.contains("x"));
    assert_eq!(lang.vowels, vec!["a".to_string()]);
    assert_eq!(lang.diphthongs, vec!["aI".to_string()]);
}

#[test]
fn format_version_is_one_point_zero() {
    assert_eq!(nchant_flow::model::format_version(), "1.0");
}

#[test]
fn sample_totals_count_every_sample() {
    let mut model = TimingModel::new(TimingMetadata::new("L", "English", "Default"));
    let mut a = ClusterTiming::new(vec!["k".to_string()]);
    a.add_sample(vec![1]);
    a.add_sample(vec![2]);
    let mut b = ClusterTiming::new(vec!["t".to_string()]);
    b.add_sample(vec![3]);
    model.cluster_timings.push(a);
    model.cluster_timings.push(b);
    let mut g = GenericTiming::new(vec![PhonemeType::Plosive]);
    g.add_sample(vec![4]);
    model.generic_timings.push(g);
    assert_eq!(model.cluster_sample_total(), 3);
    assert_eq!(model.generic_sample_total(), 1);
    let empty = TimingModel::new(TimingMetadata::new("L", "English", "Default"));
    assert_eq!(empty.cluster_sample_total(), 0);
    assert_eq!(empty.generic_sample_total(), 0);
}
