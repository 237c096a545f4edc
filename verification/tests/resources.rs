use nchant_flow::model::{ClusterTiming, GenericTiming, PhonemeType, TimingMetadata, TimingModel};
use nchant_flow::resources::{build_language_info_from_raw, merge_models, phoneme_map_from_language_info, RawLanguageInfoFile};

#[test]
fn test_merge_models() {
    let mut m1 = TimingModel::new(TimingMetadata::new("Lib1", "English", "Default"));
    let mut ct1 = ClusterTiming::new(vec!["k".to_string(), "s".to_string()]);
    ct1.add_sample(vec![95, 110]);
    m1.cluster_timings.push(ct1);

    let mut m2 = TimingModel::new(TimingMetadata::new("Lib2", "English", "Default"));
    let mut ct2 = ClusterTiming::new(vec!["k".to_string(), "s".to_string()]);
    ct2.add_sample(vec![100, 105]);
    m2.cluster_timings.push(ct2);
    let mut ct3 = ClusterTiming::new(vec!["t".to_string()]);
    ct3.add_sample(vec![80]);
    m2.cluster_timings.push(ct3);

    let merged = merge_models(&m1, &m2);

    assert_eq!(merged.metadata.library, "Lib1");
    let ks = merged.cluster_timings.iter().find(|c| c.phonemes == vec!["k", "s"]).unwrap();
    assert_eq!(ks.samples.len(), 2);
    let t = merged.cluster_timings.iter().find(|c| c.phonemes == vec!["t"]).unwrap();
    assert_eq!(t.samples.len(), 1);
}

#[test]
fn merge_puts_primary_samples_first_and_merges_generics() {
    let mut m1 = TimingModel::new(TimingMetadata::new("A", "English", "Default"));
    let mut g1 = GenericTiming::new(vec![PhonemeType::Plosive]);
    g1.add_sample(vec![1]);
    m1.generic_timings.push(g1);
    let mut c1 = ClusterTiming::new(vec!["k".to_string()]);
    c1.add_sample(vec![5]);
    m1.cluster_timings.push(c1);

    let mut m2 = TimingModel::new(TimingMetadata::new("B", "German", "Soft"));
    let mut g2 = GenericTiming::new(vec![PhonemeType::Plosive]);
    g2.add_sample(vec![2]);
    m2.generic_timings.push(g2);
    let mut c2 = ClusterTiming::new(vec!["k".to_string()]);
    c2.add_sample(vec![6]);
    m2.cluster_timings.push(c2);

    let merged = merge_models(&m1, &m2);
    assert_eq!(merged.version, "1.0");
    assert_eq!(merged.metadata.language, "English");
    assert_eq!(merged.cluster_timings.len(), 1);
    assert_eq!(merged.cluster_timings[0].samples, vec![vec![5], vec![6]]);
    assert_eq!(merged.generic_timings.len(), 1);
    assert_eq!(merged.generic_timings[0].samples, vec![vec![1], vec![2]]);
}

#[test]
fn raw_inventory_gives_last_listed_type() {
    let raw = RawLanguageInfoFile {
        plosives: vec!["p".to_string(), "t".to_string()],
        affricates: vec!["tS".to_string()],
        fricatives: vec!["s".to_string(), "t".to_string()],
        sonorants: vec!["m".to_string(), "n".to_string(), "l".to_string()],
        taps: vec!["4".to_string()],
        vowels: vec!["{".to_string(), "a".to_string()],
        diphthongs: vec!["aI".to_string()],
    };
    let info = build_language_info_from_raw("English", raw);
    assert_eq!(info.name, "English");
    assert_eq!(info.sonorants, vec!["m", "n", "l"]);
    assert_eq!(info.get_type("p"), Some(PhonemeType::Plosive));
    assert_eq!(info.get_type("t"), Some(PhonemeType::Fricative));
    assert_eq!(info.get_type("tS"), Some(PhonemeType::Affricate));
    assert_eq!(info.get_type("4"), Some(PhonemeType::Tap));
    assert_eq!(info.get_type("aI"), Some(PhonemeType::Diphthong));
    assert!(info.is_vowel("{"));
    assert!(info.is_vowel("aI"));
    assert!(!info.is_vowel("p"));
    assert!(info.diphthong_extensions.is_empty());
    assert!(info.syllabic_consonants.is_empty());

    let map = phoneme_map_from_language_info(info);
    assert_eq!(map.name, "English");
    assert_eq!(map.get_type("m"), Some(PhonemeType::Sonorant));
    assert!(!map.contains("zz"));
}
