use nchant_flow::error::TimingError;
use nchant_flow::model::{LanguageInfo, PhonemeType, TimingMetadata};
use nchant_flow::table::KeyedTable;
use nchant_flow::text::format_timestamp;
use nchant_flow::train::{
    extract_clusters, is_noise, is_silence, is_textgrid_extension, split_by_vowels, train_from_clusters, unknown_labels,
    IntervalData, ParsedPhoneme,
    TierData, TrainingConfig,
};

fn pp(label: &str, duration_ms: u16) -> ParsedPhoneme {
    ParsedPhoneme { label: label.to_string(), duration_ms }
}

fn iv(text: &str, duration_ms: u16) -> IntervalData {
    IntervalData { text: text.to_string(), duration_ms }
}

fn check_is_silence() {
    assert!(is_silence("Sil"));
    assert!(is_silence("sil"));
    assert!(is_silence("sp"));
    assert!(is_silence(""));
    assert!(!is_silence("k"));
    assert!(!is_silence("a"));
}

fn check_split_by_vowels() {
    let mut lang = LanguageInfo::new("Test");
    lang.add_vowel("a");
    lang.add_vowel("i");

    let phonemes = vec![
        ParsedPhoneme { label: "k".to_string(), duration_ms: 100 },
        ParsedPhoneme { label: "a".to_string(), duration_ms: 200 },
        ParsedPhoneme { label: "t".to_string(), duration_ms: 80 },
        ParsedPhoneme { label: "s".to_string(), duration_ms: 90 },
        ParsedPhoneme { label: "i".to_string(), duration_ms: 180 },
    ];

    let clusters = split_by_vowels(&phonemes, &lang);

    assert_eq!(clusters.len(), 2);
    assert_eq!(clusters[0].len(), 1);
    assert_eq!(clusters[0][0].label, "k");
    assert_eq!(clusters[1].len(), 2);
    assert_eq!(clusters[1][0].label, "t");
    assert_eq!(clusters[1][1].label, "s");
}

fn check_split_by_vowels_with_diphthong() {
    let mut lang = LanguageInfo::new("Test");
    lang.add_vowel("a");
    lang.add_diphthong("aI", "A");

    let phonemes = vec![
        ParsedPhoneme { label: "k".to_string(), duration_ms: 100 },
        ParsedPhoneme { label: "aI".to_string(), duration_ms: 250 },
        ParsedPhoneme { label: "t".to_string(), duration_ms: 80 },
    ];

    let clusters = split_by_vowels(&phonemes, &lang);

    assert_eq!(clusters.len(), 2);
    assert_eq!(clusters[0].len(), 1);
    assert_eq!(clusters[0][0].label, "k");
    assert_eq!(clusters[1].len(), 1);
    assert_eq!(clusters[1][0].label, "t");
}

#[test]
fn train_test_is_silence() {
    check_is_silence();
}

#[test]
fn test_is_silence() {
    check_is_silence();
}

#[test]
fn train_test_split_by_vowels() {
    check_split_by_vowels();
}

#[test]
fn test_split_by_vowels() {
    check_split_by_vowels();
}

#[test]
fn train_test_split_by_vowels_with_diphthong() {
    check_split_by_vowels_with_diphthong();
}

#[test]
fn test_split_by_vowels_with_diphthong() {
    check_split_by_vowels_with_diphthong();
}

#[test]
fn noise_and_silence_labels() {
    assert!(is_silence("SP"));
    assert!(!is_silence("SIL"));
    assert!(is_noise("<noise>"));
    assert!(is_noise("NOISE"));
    assert!(is_noise("noise"));
    assert!(is_noise("<spn>"));
    assert!(!is_noise("sil"));
}

#[test]
fn split_keeps_trailing_cluster_and_drops_empty_ones() {
    let mut lang = LanguageInfo::new("Test");
    lang.add_vowel("a");
    let phonemes = vec![pp("a", 1), pp("a", 2), pp("t", 3), pp("s", 4)];
    let clusters = split_by_vowels(&phonemes, &lang);
    assert_eq!(clusters.len(), 1);
    assert_eq!(clusters[0].len(), 2);
    assert_eq!(clusters[0][0].duration_ms, 3);
    assert_eq!(clusters[0][1].duration_ms, 4);
}

fn english() -> LanguageInfo {
    let mut lang = LanguageInfo::new("English");
    lang.add_vowel("a");
    lang.add_phoneme("k", PhonemeType::Plosive);
    lang.add_phoneme("t", PhonemeType::Plosive);
    lang.add_phoneme("s", PhonemeType::Fricative);
    lang
}

#[test]
fn extract_reports_missing_tiers() {
    let lang = english();
    let r = extract_clusters("x.TextGrid", &vec![], &lang, &TrainingConfig::default(), None);
    match r {
        Err(TimingError::TextGrid { path, reason }) => {
            assert_eq!(path, "x.TextGrid");
            assert_eq!(reason, "TextGrid has no tiers");
        }
        _ => panic!("expected a TextGrid error"),
    }
}

#[test]
fn extract_reports_point_tier() {
    let lang = english();
    let tiers = vec![TierData::IntervalTier(vec![iv("k", 50)]), TierData::PointTier];
    let r = extract_clusters("y.TextGrid", &tiers, &lang, &TrainingConfig::default(), None);
    match r {
        Err(TimingError::TextGrid { path, reason }) => {
            assert_eq!(path, "y.TextGrid");
            assert_eq!(reason, "expected IntervalTier, got PointTier");
        }
        _ => panic!("expected a TextGrid error"),
    }
}

#[test]
fn extract_splits_on_silence_vowels_and_bounds() {
    let lang = english();
    // "k a t s sil t" with an over-long interval and a noise interval
    let tiers = vec![TierData::IntervalTier(vec![
        iv("k", 60),
        iv("a", 150),
        iv("t", 70),
        iv("s", 90),
        iv("sil", 300),
        iv("t", 3000),
        iv("k", 5),
        iv("<noise>", 40),
        iv("s", 55),
        iv("a", 100),
        iv("X", 45),
    ])];
    let mut map: KeyedTable<String, String> = KeyedTable::new();
    map.insert("X".to_string(), "t".to_string());
    let clusters =
        extract_clusters("z.TextGrid", &tiers, &lang, &TrainingConfig::default(), Some(&map)).unwrap();
    // [k], [t, s], ([<noise>, s] dropped), [t] (X relabelled as t)
    assert_eq!(clusters.len(), 3);
    assert_eq!(clusters[0].len(), 1);
    assert_eq!(clusters[0][0].label, "k");
    assert_eq!(clusters[0][0].duration_ms, 60);
    assert_eq!(clusters[1].len(), 2);
    assert_eq!(clusters[1][0].label, "t");
    assert_eq!(clusters[1][1].label, "s");
    assert_eq!(clusters[2].len(), 1);
    assert_eq!(clusters[2][0].label, "t");
    assert_eq!(clusters[2][0].duration_ms, 45);
}

#[test]
fn train_without_files_is_an_error() {
    let lang = english();
    let r = train_from_clusters(
        "dir",
        0,
        &vec![],
        &lang,
        TimingMetadata::new("L", "English", "C"),
        vec![],
        "now".to_string(),
    );
    match r {
        Err(TimingError::NoTextGridFiles { dir }) => assert_eq!(dir, "dir"),
        _ => panic!("expected NoTextGridFiles"),
    }
}

#[test]
fn train_groups_samples_by_labels_and_types() {
    let lang = english();
    let clusters = vec![vec![pp("k", 100)], vec![pp("t", 80), pp("s", 90)], vec![pp("k", 120)], vec![pp("q", 7)]];
    let model = train_from_clusters(
        "dir",
        2,
        &clusters,
        &lang,
        TimingMetadata::new("L", "English", "C"),
        vec!["a.TextGrid".to_string(), "b.TextGrid".to_string()],
        format_timestamp(0),
    )
    .unwrap();
    assert_eq!(model.version, "1.0");
    assert_eq!(model.metadata.library, "L");
    assert_eq!(model.metadata.created_at, Some("1970-01-01T00:00:00Z".to_string()));
    assert_eq!(model.metadata.source_files, Some(vec!["a.TextGrid".to_string(), "b.TextGrid".to_string()]));

    assert_eq!(model.cluster_timings.len(), 3);
    let k = model.cluster_timings.iter().find(|c| c.phonemes == vec!["k"]).unwrap();
    assert_eq!(k.samples, vec![vec![100], vec![120]]);
    let ts = model.cluster_timings.iter().find(|c| c.phonemes == vec!["t", "s"]).unwrap();
    assert_eq!(ts.samples, vec![vec![80, 90]]);

    assert_eq!(model.generic_timings.len(), 3);
    let p = model.generic_timings.iter().find(|g| g.types == vec![PhonemeType::Plosive]).unwrap();
    assert_eq!(p.samples, vec![vec![100], vec![120]]);
    let pf = model
        .generic_timings
        .iter()
        .find(|g| g.types == vec![PhonemeType::Plosive, PhonemeType::Fricative])
        .unwrap();
    assert_eq!(pf.samples, vec![vec![80, 90]]);
    let u = model.generic_timings.iter().find(|g| g.types == vec![PhonemeType::Unknown]).unwrap();
    assert_eq!(u.samples, vec![vec![7]]);
}

#[test]
fn timestamp_on_simple_calendar() {
    assert_eq!(format_timestamp(0), "1970-01-01T00:00:00Z");
    assert_eq!(format_timestamp(86400 * 400 + 3661), "1971-02-06T01:01:01Z");
    assert_eq!(format_timestamp(59), "1970-01-01T00:00:59Z");
}

#[test]
fn default_config_bounds() {
    let c = TrainingConfig::default();
    assert_eq!(c.min_duration_ms, 10);
    assert_eq!(c.max_duration_ms, 2000);
}

#[test]
fn trained_model_times_every_cluster() {
    let lang = english();
    let clusters = vec![vec![pp("k", 100)], vec![pp("t", 80), pp("s", 90)], vec![pp("k", 120), pp("s", 60)]];
    let model = train_from_clusters(
        "dir",
        1,
        &clusters,
        &lang,
        TimingMetadata::new("L", "English", "C"),
        vec!["a.TextGrid".to_string()],
        format_timestamp(0),
    )
    .unwrap();
    for c in model.cluster_timings.iter() {
        for s in c.samples.iter() {
            assert_eq!(s.len(), c.phonemes.len());
        }
    }
    let lookup = nchant_flow::predict::TimingLookup::from_model(&model, &lang);
    for cluster in [vec!["k"], vec!["t", "s"], vec!["s", "k", "t"], vec!["q", "q"], vec![]] {
        let cluster: Vec<String> = cluster.into_iter().map(String::from).collect();
        assert!(lookup.try_get_timing(&cluster).is_some());
        assert!(lookup.try_predict(&cluster).is_some());
    }
    let ks = ["k".to_string(), "s".to_string()];
    let r = lookup.try_get_timing(&ks).unwrap();
    assert_eq!(r.len(), 2);
    assert_eq!(r[0].1, 120);
    assert_eq!(r[1].1, 60);
}

#[test]
fn unknown_labels_after_bounds_and_label_map() {
    let lang = english();
    let tiers = vec![TierData::IntervalTier(vec![
        iv("q", 50),
        iv("sil", 50),
        iv("<noise>", 50),
        iv("a", 50),
        iv("z", 5000),
        iv("X", 50),
        iv("Y", 50),
        iv("q", 60),
    ])];
    let mut map: KeyedTable<String, String> = KeyedTable::new();
    map.insert("X".to_string(), "t".to_string());
    let labels = unknown_labels(&tiers, &lang, &TrainingConfig::default(), Some(&map));
    // "z" is over the bound, "X" maps to the known "t".
    assert_eq!(labels, vec!["q".to_string(), "Y".to_string(), "q".to_string()]);
    assert!(unknown_labels(&vec![], &lang, &TrainingConfig::default(), None).is_empty());
    let points = vec![TierData::IntervalTier(vec![iv("q", 50)]), TierData::PointTier];
    assert!(unknown_labels(&points, &lang, &TrainingConfig::default(), None).is_empty());
}

#[test]
fn textgrid_extension_ignores_ascii_case() {
    assert!(is_textgrid_extension("TextGrid"));
    assert!(is_textgrid_extension("textgrid"));
    assert!(is_textgrid_extension("TEXTGRID"));
    assert!(!is_textgrid_extension("TextGri"));
    assert!(!is_textgrid_extension("TextGrids"));
    assert!(!is_textgrid_extension("wav"));
    assert!(!is_textgrid_extension(""));
}

#[test]
fn extracted_clusters_are_clean_and_within_bounds() {
    let lang = english();
    let config = TrainingConfig { min_duration_ms: 20, max_duration_ms: 100 };
    let tiers = vec![TierData::IntervalTier(vec![
        iv("k", 30),
        iv("t", 10),
        iv("s", 99),
        iv("a", 50),
        iv("sp", 40),
        iv("NOISE", 40),
        iv("k", 40),
        iv("s", 101),
    ])];
    let clusters = extract_clusters("f.TextGrid", &tiers, &lang, &config, None).unwrap();
    assert_eq!(clusters.len(), 1);
    assert_eq!(clusters[0].iter().map(|p| p.label.as_str()).collect::<Vec<_>>(), vec!["k", "s"]);
    for c in &clusters {
        for p in c {
            assert!(p.duration_ms >= 20 && p.duration_ms <= 100);
            assert!(!is_silence(&p.label) && !is_noise(&p.label) && !lang.is_vowel(&p.label));
        }
    }
}
