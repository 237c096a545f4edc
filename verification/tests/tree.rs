use nchant_flow::model::{ClusterTiming, GenericTiming, PhonemeType, TimingMetadata, TimingModel};
use nchant_flow::tree::{PhonemeTree, TreeNode};

fn insert_and_collect() {
    let mut node: TreeNode<String> = TreeNode::new();
    node.insert_path(&["k".to_string(), "s".to_string()], &[vec![95, 110]]);
    node.insert_path(&["k".to_string(), "s".to_string()], &[vec![100, 105]]);
    node.insert_path(&["t".to_string()], &[vec![80]]);

    let mut paths = node.collect_paths();
    paths.sort_by_key(|(p, _)| p.join(","));

    assert_eq!(paths.len(), 2);
    assert_eq!(paths[0].0, vec!["k".to_string(), "s".to_string()]);
    assert_eq!(paths[0].1, vec![vec![95, 110], vec![100, 105]]);
    assert_eq!(paths[1].0, vec!["t".to_string()]);
    assert_eq!(paths[1].1, vec![vec![80]]);
}

fn phoneme_tree_roundtrip() {
    let mut model = TimingModel::new(TimingMetadata::new("Lib", "English", "Default"));
    let mut ct = ClusterTiming::new(vec!["k".to_string(), "s".to_string()]);
    ct.add_sample(vec![95, 110]);
    model.cluster_timings.push(ct);
    let mut gt = GenericTiming::new(vec![PhonemeType::Plosive, PhonemeType::Fricative]);
    gt.add_sample(vec![100, 120]);
    model.generic_timings.push(gt);

    let tree = PhonemeTree::from_model(&model);
    let rebuilt = tree.to_model(model.version.clone(), model.metadata.clone());

    assert_eq!(rebuilt.cluster_timings.len(), 1);
    assert_eq!(rebuilt.cluster_timings[0].phonemes, vec!["k", "s"]);
    assert_eq!(rebuilt.cluster_timings[0].samples, vec![vec![95, 110]]);
    assert_eq!(rebuilt.generic_timings.len(), 1);
    assert_eq!(
        rebuilt.generic_timings[0].types,
        vec![PhonemeType::Plosive, PhonemeType::Fricative]
    );
}

#[test]
fn tree_test_insert_and_collect() {
    insert_and_collect();
}

#[test]
fn test_insert_and_collect() {
    insert_and_collect();
}

#[test]
fn tree_test_phoneme_tree_roundtrip() {
    phoneme_tree_roundtrip();
}

#[test]
fn test_phoneme_tree_roundtrip() {
    phoneme_tree_roundtrip();
}

#[test]
fn roundtrip_groups_repeated_sequences() {
    // Two entries for the same sequence come back as one, with all samples
    // in order; an entry without samples disappears.
    let mut model = TimingModel::new(TimingMetadata::new("Lib", "English", "Default"));
    let mut a = ClusterTiming::new(vec!["k".to_string(), "s".to_string()]);
    a.add_sample(vec![1, 2]);
    let mut b = ClusterTiming::new(vec!["t".to_string()]);
    b.add_sample(vec![3]);
    let mut c = ClusterTiming::new(vec!["k".to_string(), "s".to_string()]);
    c.add_sample(vec![4, 5]);
    let d = ClusterTiming::new(vec!["m".to_string()]);
    model.cluster_timings.push(a);
    model.cluster_timings.push(b);
    model.cluster_timings.push(c);
    model.cluster_timings.push(d);

    let rebuilt = PhonemeTree::from_model(&model).to_model("1.0".to_string(), model.metadata.clone());
    assert_eq!(rebuilt.cluster_timings.len(), 2);
    let ks = rebuilt.cluster_timings.iter().find(|c| c.phonemes == vec!["k", "s"]).unwrap();
    assert_eq!(ks.samples, vec![vec![1, 2], vec![4, 5]]);
    let t = rebuilt.cluster_timings.iter().find(|c| c.phonemes == vec!["t"]).unwrap();
    assert_eq!(t.samples, vec![vec![3]]);
    assert!(rebuilt.cluster_timings.iter().all(|c| c.phonemes != vec!["m"]));
}

#[test]
fn prefix_node_without_samples_is_not_collected() {
    let mut node: TreeNode<String> = TreeNode::default();
    node.insert_path(&["a".to_string(), "b".to_string(), "c".to_string()], &[vec![1, 2, 3]]);
    let paths = node.collect_paths();
    assert_eq!(paths.len(), 1);
    assert_eq!(paths[0].0, vec!["a", "b", "c"]);
    assert_eq!(paths[0].1, vec![vec![1, 2, 3]]);
}

#[test]
fn child_lookup_follows_keys() {
    let mut node: TreeNode<String> = TreeNode::new();
    node.insert_path(&["k".to_string(), "s".to_string()], &[vec![9, 8]]);
    let k = node.child(&"k".to_string()).unwrap();
    assert!(k.entries.is_empty());
    let ks = k.child(&"s".to_string()).unwrap();
    assert_eq!(ks.entries, vec![vec![9, 8]]);
    assert!(node.child(&"s".to_string()).is_none());
    assert!(node.find_node(&["k".to_string(), "s".to_string()]).is_some());
    assert!(node.find_node(&["k".to_string(), "t".to_string()]).is_none());
}
