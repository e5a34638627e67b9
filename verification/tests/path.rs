use std::collections::hash_map::DefaultHasher;
use std::hash::{Hash, Hasher};

use modus_ponens::matching::MPMatching;
use modus_ponens::path::MPPath;
use modus_ponens::segment::MPSegment;

fn calculate_hash<T: Hash>(t: &T) -> u64 {
    let mut s = DefaultHasher::new();
    t.hash(&mut s);
    s.finish()
}

fn seg(name: &str, text: &str, is_leaf: bool) -> MPSegment {
    MPSegment::new(name.to_string(), text.to_string(), is_leaf)
}

#[test]
fn make_paths_1() {
    let segm11 = seg("rule-name1", "some text1", false);
    let segm12 = seg("rule-name2", "some text2", true);
    let path1 = MPPath::new(vec![&segm11, &segm12]);
    let segm21 = seg("rule-name1", "some text1", false);
    let segm22 = seg("rule-name2", "some text2", true);
    let path2 = MPPath::new(vec![&segm21, &segm22]);
    assert_eq!(&path1, &path2);
    assert_eq!(calculate_hash(&path1), calculate_hash(&path2));
}

#[test]
fn make_paths_2() {
    let segm11 = seg("rule-name1", "some text3", false);
    let segm12 = seg("rule-name2", "some text2", true);
    let path1 = MPPath::new(vec![&segm11, &segm12]);
    let segm21 = seg("rule-name1", "some text1", false);
    let segm22 = seg("rule-name2", "some text2", true);
    let path2 = MPPath::new(vec![&segm21, &segm22]);
    assert_eq!(&path1, &path2);
    assert_eq!(calculate_hash(&path1), calculate_hash(&path2));
}

#[test]
fn starts_with_path_3() {
    let segm11 = seg("rule-name1", "some text1", false);
    let segm12 = seg("rule-name2", "some text2", true);
    let segm13 = seg("rule-name3", "some text3", true);
    let path1 = MPPath::new(vec![&segm11, &segm12, &segm13]);
    let segm21 = seg("rule-name1", "some text1", false);
    let segm22 = seg("rule-name2", "some text2", false);
    let segm23 = seg("rule-name3", "some text3", false);
    let segm24 = seg("rule-name4", "some text4", false);
    let segm25 = seg("rule-name5", "some text5", true);
    let path2 = MPPath::new(vec![&segm21, &segm22, &segm23, &segm24, &segm25]);
    assert!(path2.starts_with(&path1));
    assert_ne!(path1.starts_with(&path2), true);
}

#[test]
fn not_starts_with_path_1() {
    let segm11 = seg("rule-name9", "some text1", false);
    let segm12 = seg("rule-name2", "some text2", true);
    let segm13 = seg("rule-name3", "some text3", true);
    let path1 = MPPath::new(vec![&segm11, &segm12, &segm13]);
    let segm21 = seg("rule-name1", "some text1", false);
    let segm22 = seg("rule-name2", "some text2", false);
    let segm23 = seg("rule-name3", "some text3", false);
    let segm24 = seg("rule-name4", "some text4", false);
    let segm25 = seg("rule-name5", "some text5", true);
    let path2 = MPPath::new(vec![&segm21, &segm22, &segm23, &segm24, &segm25]);
    assert_ne!(path2.starts_with(&path1), true);
    assert_ne!(path1.starts_with(&path2), true);
}

#[test]
fn not_starts_with_path_2() {
    let segm11 = seg("rule-name1", "some text9", false);
    let segm12 = seg("rule-name2", "some text2", true);
    let segm13 = seg("rule-name3", "some text3", true);
    let path1 = MPPath::new(vec![&segm11, &segm12, &segm13]);
    let segm21 = seg("rule-name1", "some text1", false);
    let segm22 = seg("rule-name2", "some text2", false);
    let segm23 = seg("rule-name3", "some text3", false);
    let segm24 = seg("rule-name4", "some text4", false);
    let segm25 = seg("rule-name5", "some text5", true);
    let path2 = MPPath::new(vec![&segm21, &segm22, &segm23, &segm24, &segm25]);
    assert_ne!(path2.starts_with(&path1), true);
    assert_ne!(path1.starts_with(&path2), true);
}

#[test]
fn var_range_1() {
    let segm11 = seg("rule-name1", "some text1", false);
    let segm12 = seg("v_rule-name2", "some text2", true);
    let path1 = MPPath::new(vec![&segm11, &segm12]);
    assert!(path1.value.in_var_range);
}

#[test]
fn not_var_range_1() {
    let segm11 = seg("rule-name1", "some text1", false);
    let segm12 = seg("rule-name2", "some text2", true);
    let path1 = MPPath::new(vec![&segm11, &segm12]);
    assert!(!path1.value.in_var_range);
}

#[test]
fn substitute_1() {
    let segm11 = seg("rule-name1", "some text1", false);
    let segm12 = seg("rule-name2", "some text2", false);
    let segm13 = seg("rule-name3", "some text3", true);
    let path1 = MPPath::new(vec![&segm11, &segm12, &segm13]);
    let segm23 = seg("rule-name3", "some text3", false);
    let segm24 = seg("rule-name4", "some text4", false);
    let mut matching = MPMatching::new();
    matching.insert(&segm23, &segm24);
    let (new_path, old_path) = path1.substitute(&matching);

    assert_eq!(new_path.value.name, "rule-name4");
    assert_eq!(old_path.unwrap().value.name, "rule-name3");
}

#[test]
fn substitute_2() {
    let segm11 = seg("rule-name1", "some text1", false);
    let segm12 = seg("rule-name2", "some text2", false);
    let segm13 = seg("rule-name3", "some text3", true);
    let path1 = MPPath::new(vec![&segm11, &segm12, &segm13]);
    let segm23 = seg("rule-name5", "some text3", false);
    let segm24 = seg("rule-name4", "some text4", false);
    let mut matching = MPMatching::new();
    matching.insert(&segm23, &segm24);
    let (new_path, old_path) = path1.substitute(&matching);

    assert_eq!(new_path.value.name, "rule-name3");
    assert_eq!(old_path, None);
}
