use std::collections::hash_map::DefaultHasher;
use std::hash::{Hash, Hasher};

use modus_ponens::constants;
use modus_ponens::lexicon::Lexicon;
use modus_ponens::segment::MPSegment;

fn calculate_hash<T: Hash>(t: &T) -> u64 {
    let mut s = DefaultHasher::new();
    t.hash(&mut s);
    s.finish()
}

#[test]
fn segment_make_segment() {
    let name = "rule-name".to_string();
    let text = "some text".to_string();
    let segm = MPSegment::new(name, text, true);
    assert_eq!(segm.name, "rule-name");
    assert_eq!(segm.text, "some text");
    assert_eq!(segm.is_leaf, true);
    assert_eq!(segm.is_var, false);
}

#[test]
fn segment_make_var() {
    let mut lexicon = Lexicon::new();
    let var = lexicon.make_var(0);
    assert_eq!(var.name, constants::VAR_RULE_NAME);
    assert_eq!(var.text, "<__X0>");
    assert_eq!(var.is_leaf, true);
    assert_eq!(var.is_var, true);
}

#[test]
fn segment_segment_eq1() {
    let name = "rule-name";
    let text = "some text";
    let segm1 = MPSegment::new(name.to_string(), text.to_string(), true);
    let segm2 = MPSegment::new(name.to_string(), text.to_string(), true);
    assert!(segm1 == segm2);
    assert!(calculate_hash(&segm1) == calculate_hash(&segm2));
}

#[test]
fn segment_segment_eq2() {
    let name = "rule-name";
    let text = "some text";
    let segm1 = MPSegment::new(name.to_string(), text.to_string(), true);
    let segm2 = MPSegment::new(name.to_string(), text.to_string(), true);
    assert!(segm1 == segm2);
    assert!(calculate_hash(&segm1) == calculate_hash(&segm2));
}

#[test]
fn segment_segment_noteq1() {
    let name1 = "rule-name1";
    let name2 = "rule-name2";
    let text = "some text";
    let segm1 = MPSegment::new(name1.to_string(), text.to_string(), true);
    let segm2 = MPSegment::new(name2.to_string(), text.to_string(), true);
    assert!(segm1 != segm2);
    assert!(calculate_hash(&segm1) != calculate_hash(&segm2));
}

#[test]
fn segment_segment_noteq2() {
    let name = "rule-name".to_string();
    let text1 = "some text 1";
    let text2 = "some text 2";
    let segm1 = MPSegment::new(name.to_string(), text1.to_string(), true);
    let segm2 = MPSegment::new(name.to_string(), text2.to_string(), true);
    assert!(segm1 != segm2);
    assert!(calculate_hash(&segm1) != calculate_hash(&segm2));
}

#[test]
fn segment_in_var_range() {
    let name = "v_rule-name".to_string();
    let text = "some text".to_string();
    let segm = MPSegment::new(name, text, true);
    assert!(segm.in_var_range);
}

#[test]
fn segment_not_in_var_range() {
    let name = "rule-name".to_string();
    let text = "some text".to_string();
    let segm = MPSegment::new(name, text, true);
    assert!(!segm.in_var_range);
}
