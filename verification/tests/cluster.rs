use nchant_flow::cluster::split_into_clusters;

fn is_vowel(p: &&str) -> bool {
    matches!(*p, "a" | "i" | "u" | "e" | "o")
}

#[test]
fn test_split_basic() {
    // [k, a, t, s, i] → [k]+a, [t,s]+i
    let phonemes = vec!["k", "a", "t", "s", "i"];
    let clusters = split_into_clusters(&phonemes, is_vowel);

    assert_eq!(clusters.len(), 2);
    assert_eq!(clusters[0].vowel, Some(&"a"));
    assert_eq!(clusters[0].consonants, vec![&"k"]);
    assert_eq!(clusters[1].vowel, Some(&"i"));
    assert_eq!(clusters[1].consonants, vec![&"t", &"s"]);
}

#[test]
fn test_split_trailing_consonants() {
    // [k, a, t, s] → [k]+a, [t,s]+None
    let phonemes = vec!["k", "a", "t", "s"];
    let clusters = split_into_clusters(&phonemes, is_vowel);

    assert_eq!(clusters.len(), 2);
    assert_eq!(clusters[0].vowel, Some(&"a"));
    assert_eq!(clusters[0].consonants, vec![&"k"]);
    assert_eq!(clusters[1].vowel, None);
    assert_eq!(clusters[1].consonants, vec![&"t", &"s"]);
}

#[test]
fn test_split_no_consonants() {
    // [a, i, u] → []+a, []+i, []+u
    let phonemes = vec!["a", "i", "u"];
    let clusters = split_into_clusters(&phonemes, is_vowel);

    assert_eq!(clusters.len(), 3);
    for cluster in &clusters {
        assert!(cluster.consonants.is_empty());
        assert!(cluster.vowel.is_some());
    }
}

#[test]
fn test_split_no_vowels() {
    // [k, t, s] → [k,t,s]+None
    let phonemes = vec!["k", "t", "s"];
    let clusters = split_into_clusters(&phonemes, is_vowel);

    assert_eq!(clusters.len(), 1);
    assert_eq!(clusters[0].vowel, None);
    assert_eq!(clusters[0].consonants, vec![&"k", &"t", &"s"]);
}

#[test]
fn test_split_empty() {
    let phonemes: Vec<&str> = vec![];
    let clusters = split_into_clusters(&phonemes, is_vowel);
    assert!(clusters.is_empty());
}

#[test]
fn test_split_single_vowel() {
    let phonemes = vec!["a"];
    let clusters = split_into_clusters(&phonemes, is_vowel);

    assert_eq!(clusters.len(), 1);
    assert_eq!(clusters[0].vowel, Some(&"a"));
    assert!(clusters[0].consonants.is_empty());
}

#[test]
fn test_split_leading_consonants() {
    // [t, k, a] → [t,k]+a
    let phonemes = vec!["t", "k", "a"];
    let clusters = split_into_clusters(&phonemes, is_vowel);

    assert_eq!(clusters.len(), 1);
    assert_eq!(clusters[0].vowel, Some(&"a"));
    assert_eq!(clusters[0].consonants, vec![&"t", &"k"]);
}

#[test]
fn clusters_partition_the_sequence() {
    // Concatenating each cluster's consonants and then its vowel gives the
    // input back.
    let phonemes = vec!["s", "t", "r", "a", "i", "k", "e", "n", "t", "s"];
    let clusters = split_into_clusters(&phonemes, is_vowel);
    let mut flat: Vec<&str> = Vec::new();
    for c in &clusters {
        for k in &c.consonants {
            flat.push(**k);
        }
        if let Some(v) = c.vowel {
            flat.push(*v);
        }
    }
    assert_eq!(flat, phonemes);
    // only the last cluster may lack a vowel
    for c in &clusters[..clusters.len() - 1] {
        assert!(c.vowel.is_some());
    }
    assert_eq!(clusters.last().unwrap().vowel, None);
}
