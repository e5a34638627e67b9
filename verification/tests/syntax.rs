use std::collections::hash_map::DefaultHasher;
use std::hash::{Hash, Hasher};

use modus_ponens::constants;
use modus_ponens::syntax::Segment;

fn calculate_hash<T: Hash>(t: &T) -> u64 {
    let mut s = DefaultHasher::new();
    t.hash(&mut s);
    s.finish()
}

#[test]
fn syntax_make_segment() {
    let name = "rule-name".to_string();
    let text = "some text".to_string();
    let segm = Segment::make_segment(&name, &text, 0, true);
    assert_eq!(segm.name, name);
    assert_eq!(segm.text, text);
    assert_eq!(segm.start, 0);
    assert_eq!(segm.end, 9);
    assert_eq!(segm.is_leaf, true);
    assert_eq!(segm.is_var, false);
}

#[test]
fn syntax_make_var() {
    let var = Segment::make_var(0);
    assert_eq!(var.name, constants::VAR_RULE_NAME);
    assert_eq!(var.text, "<__X0>");
    assert_eq!(var.start, 0);
    assert_eq!(var.end, 6);
    assert_eq!(var.is_leaf, true);
    assert_eq!(var.is_var, true);
}

#[test]
fn syntax_segment_eq1() {
    let name = "rule-name".to_string();
    let text = "some text".to_string();
    let segm1 = Segment::make_segment(&name, &text, 0, true);
    let segm2 = Segment::make_segment(&name, &text, 0, true);
    assert!(segm1 == segm2);
    assert!(calculate_hash(&segm1) == calculate_hash(&segm2));
}

#[test]
fn syntax_segment_eq2() {
    let name = "rule-name".to_string();
    let text = "some text".to_string();
    let segm1 = Segment::make_segment(&name, &text, 2, true);
    let segm2 = Segment::make_segment(&name, &text, 0, true);
    assert!(segm1 == segm2);
    assert!(calculate_hash(&segm1) == calculate_hash(&segm2));
}

#[test]
fn syntax_segment_noteq1() {
    let name1 = "rule-name1".to_string();
    let name2 = "rule-name2".to_string();
    let text = "some text".to_string();
    let segm1 = Segment::make_segment(&name1, &text, 0, true);
    let segm2 = Segment::make_segment(&name2, &text, 0, true);
    assert!(segm1 != segm2);
    assert!(calculate_hash(&segm1) != calculate_hash(&segm2));
}

#[test]
fn syntax_segment_noteq2() {
    let name = "rule-name".to_string();
    let text1 = "some text 1".to_string();
    let text2 = "some text 2".to_string();
    let segm1 = Segment::make_segment(&name, &text1, 0, true);
    let segm2 = Segment::make_segment(&name, &text2, 0, true);
    assert!(segm1 != segm2);
    assert!(calculate_hash(&segm1) != calculate_hash(&segm2));
}
