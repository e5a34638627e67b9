use modus_ponens::lexicon::Lexicon;
use modus_ponens::matching::{invert, MPMatching};

#[test]
fn inverting_twice_gives_the_matching_back() {
    let mut lexicon = Lexicon::new();
    let x1 = lexicon.intern("var", "<X1>", true);
    let x2 = lexicon.intern("var", "<X2>", true);
    let a = lexicon.intern("v_name", "a", true);
    let b = lexicon.intern("v_name", "b", true);
    let mut m = MPMatching::new();
    m.insert(x1, a);
    m.insert(x2, b);
    let inv = invert(&m);
    assert_eq!(inv.len(), 2);
    assert_eq!(inv.get(a).map(|s| s.text.clone()), Some("<X1>".to_string()));
    assert_eq!(inv.get(b).map(|s| s.text.clone()), Some("<X2>".to_string()));
    let back = invert(&inv);
    assert_eq!(back.len(), 2);
    assert_eq!(back.get(x1).map(|s| s.text.clone()), Some("a".to_string()));
    assert_eq!(back.get(x2).map(|s| s.text.clone()), Some("b".to_string()));
}

#[test]
fn inverting_keeps_the_later_of_two_keys_with_one_value() {
    let mut lexicon = Lexicon::new();
    let x1 = lexicon.intern("var", "<X1>", true);
    let x2 = lexicon.intern("var", "<X2>", true);
    let a = lexicon.intern("v_name", "a", true);
    let mut m = MPMatching::new();
    m.insert(x1, a);
    m.insert(x2, a);
    let inv = invert(&m);
    assert_eq!(inv.len(), 1);
    assert_eq!(inv.get(a).map(|s| s.text.clone()), Some("<X2>".to_string()));
}
