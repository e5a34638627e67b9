use modus_ponens::fact::Fact;
use modus_ponens::facttree::FactSet;
use modus_ponens::lexicon::Lexicon;
use modus_ponens::path::MPPath;
use modus_ponens::segment::MPSegment;

fn fact<'a>(root: &'a MPSegment, leaves: &[&'a MPSegment]) -> Fact<'a> {
    let paths: Vec<MPPath<'a>> = leaves.iter().map(|l| MPPath::new(vec![root, *l])).collect();
    let text: String = leaves.iter().map(|l| l.text.clone()).collect();
    Fact::new(text, paths)
}

#[test]
fn added_fact_is_found() {
    let mut lexicon = Lexicon::new();
    let root = lexicon.intern("fact", "0", false);
    let susan = lexicon.intern("v_name", "susan", true);
    let john = lexicon.intern("v_name", "john", true);
    let isa = lexicon.intern("pred", "∈", true);
    let human = lexicon.intern("v_name", "human", true);
    let f1 = fact(root, &[susan, isa, human]);
    let f2 = fact(root, &[john, isa, human]);
    let mut set = FactSet::new();
    assert!(!set.ask_fact_bool(&f1));
    set.add_fact(&f1);
    assert!(set.ask_fact_bool(&f1));
    assert!(!set.ask_fact_bool(&f2));
    set.add_fact(&f2);
    assert!(set.ask_fact_bool(&f1));
    assert!(set.ask_fact_bool(&f2));
}

#[test]
fn query_with_variable_finds_every_answer() {
    let mut lexicon = Lexicon::new();
    let root = lexicon.intern("fact", "0", false);
    let susan = lexicon.intern("v_name", "susan", true);
    let john = lexicon.intern("v_name", "john", true);
    let isa = lexicon.intern("pred", "∈", true);
    let human = lexicon.intern("v_name", "human", true);
    let x = lexicon.intern("var", "<X0>", true);
    let mut set = FactSet::new();
    set.add_fact(&fact(root, &[susan, isa, human]));
    set.add_fact(&fact(root, &[john, isa, human]));
    let answers = set.ask_fact(&fact(root, &[x, isa, human]));
    assert_eq!(answers.len(), 2);
    let texts: Vec<String> = answers.iter().map(|m| m.get(x).expect("bound").text.clone()).collect();
    assert_eq!(texts, vec!["susan".to_string(), "john".to_string()]);
}

#[test]
fn adding_a_fact_twice_changes_nothing() {
    let mut lexicon = Lexicon::new();
    let root = lexicon.intern("fact", "0", false);
    let susan = lexicon.intern("v_name", "susan", true);
    let isa = lexicon.intern("pred", "∈", true);
    let human = lexicon.intern("v_name", "human", true);
    let f1 = fact(root, &[susan, isa, human]);
    let mut set = FactSet::new();
    set.add_fact(&f1);
    set.add_fact(&f1);
    assert_eq!(set.ask_fact(&f1).len(), 1);
}
