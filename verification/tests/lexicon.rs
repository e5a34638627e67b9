use modus_ponens::lexicon::Lexicon;

#[test]
fn lexicon_test_1() {
    let mut lexicon = Lexicon::new();
    let lex1 = lexicon.intern("name1", "text1", true);
    let _ = lexicon.intern("name2", "text2", true);
    let lex3 = lexicon.intern("name1", "text1", true);
    assert_eq!(lex1.name.as_ptr(), lex3.name.as_ptr());
}

#[test]
fn make_var_writes_its_number() {
    let mut lexicon = Lexicon::new();
    let var = lexicon.make_var(12);
    assert_eq!(var.text, "<__X12>");
    assert!(var.is_var);
    let again = lexicon.make_var(12);
    assert_eq!(var.text.as_ptr(), again.text.as_ptr());
}

#[test]
fn interning_tells_leaves_apart() {
    let mut lexicon = Lexicon::new();
    let a = lexicon.intern("name1", "text1", true);
    let b = lexicon.intern("name1", "text1", false);
    assert_ne!(a.name.as_ptr(), b.name.as_ptr());
    assert!(a.is_leaf);
    assert!(!b.is_leaf);
}

#[test]
fn empty_path_is_the_fact_root() {
    let mut lexicon = Lexicon::new();
    let p = lexicon.empty_path();
    assert_eq!(p.len(), 1);
    assert_eq!(p.value.name, "fact");
    assert_eq!(p.value.text, "0");
    assert!(!p.value.is_leaf);
}

#[test]
fn trim_drops_surrounding_white_space() {
    assert_eq!(modus_ponens::text::trim("  a b \n"), "a b");
    assert_eq!(modus_ponens::text::trim(" \t "), "");
}
