use std::collections::VecDeque;

use modus_ponens::knowledge::{KBError, Queues, KB};
use modus_ponens::lexicon::Lexicon;
use modus_ponens::matching::MPMatching;
use modus_ponens::parser::{FactParser, MPParser, StringCache};
use modus_ponens::parsetree::ParseNode;
use modus_ponens::ruletree::{Antecedents, MPRule};

/// A hand-written reader of the taxonomy grammar of the README:
/// facts `name pred name`, with `∈` or `⊆` as predicates, names `v_name` (alphanumeric)
/// or `var` (`<X0>`), and rules `fact ∧ ... → ... → fact ∧ ...`, sentences ending in `.`.
struct Taxonomy;

fn node(name: &str, text: &str, children: Vec<ParseNode>) -> ParseNode {
    ParseNode { name: name.to_string(), text: text.to_string(), children }
}

fn skip_ws(cs: &[char], mut i: usize) -> usize {
    while i < cs.len() && cs[i].is_whitespace() {
        i += 1;
    }
    i
}

fn name_at(cs: &[char], i: usize) -> Option<(ParseNode, usize)> {
    if i < cs.len() && cs[i] == '<' {
        let mut j = i + 1;
        while j < cs.len() && cs[j] != '>' {
            j += 1;
        }
        if j >= cs.len() {
            return None;
        }
        let text: String = cs[i..j + 1].iter().collect();
        return Some((node("var", &text, vec![]), j + 1));
    }
    let mut j = i;
    while j < cs.len() && cs[j].is_ascii_alphanumeric() {
        j += 1;
    }
    if j == i {
        return None;
    }
    let text: String = cs[i..j].iter().collect();
    Some((node("v_name", &text, vec![]), j))
}

fn fact_at(cs: &[char], i: usize) -> Option<(ParseNode, usize)> {
    let start = skip_ws(cs, i);
    let (n1, i1) = name_at(cs, start)?;
    let i2 = skip_ws(cs, i1);
    if i2 >= cs.len() || (cs[i2] != '∈' && cs[i2] != '⊆') {
        return None;
    }
    let pred = node("pred", &cs[i2].to_string(), vec![]);
    let i3 = skip_ws(cs, i2 + 1);
    let (n2, end) = name_at(cs, i3)?;
    let text: String = cs[start..end].iter().collect();
    Some((node("fact", &text, vec![n1, pred, n2]), end))
}

fn factset_at(cs: &[char], i: usize) -> Option<(Vec<ParseNode>, usize)> {
    let (f, mut j) = fact_at(cs, i)?;
    let mut facts = vec![f];
    loop {
        let k = skip_ws(cs, j);
        if k < cs.len() && cs[k] == '∧' {
            let (f, e) = fact_at(cs, k + 1)?;
            facts.push(f);
            j = e;
        } else {
            return Some((facts, j));
        }
    }
}

impl FactParser for Taxonomy {
    fn parse_knowledge(&self, text: &str) -> Result<ParseNode, String> {
        let cs: Vec<char> = text.chars().collect();
        let mut i = 0;
        let mut sentences = vec![];
        loop {
            let start = skip_ws(&cs, i);
            if start >= cs.len() {
                break;
            }
            let mut groups = vec![];
            let mut j = start;
            loop {
                let (facts, e) = factset_at(&cs, j).ok_or("expected a fact".to_string())?;
                let k = skip_ws(&cs, e);
                let text: String = cs[skip_ws(&cs, j)..e].iter().collect();
                if k < cs.len() && cs[k] == '→' {
                    groups.push(node("antecedents", &text, facts));
                    j = k + 1;
                } else {
                    groups.push(node("consequents", &text, facts));
                    j = k;
                    break;
                }
            }
            if j >= cs.len() || cs[j] != '.' {
                return Err("expected a full stop".to_string());
            }
            let text: String = cs[start..j].iter().collect();
            if groups.len() == 1 {
                let facts = match groups.pop() {
                    Some(g) => g.children,
                    None => vec![],
                };
                if facts.len() != 1 {
                    return Err("a sentence holds one fact".to_string());
                }
                sentences.extend(facts);
            } else {
                sentences.push(node("rule", &text, groups));
            }
            i = j + 1;
        }
        if sentences.is_empty() {
            return Err("no sentence".to_string());
        }
        Ok(node("knowledge", text, sentences))
    }

    fn parse_fact(&self, text: &str) -> Option<ParseNode> {
        let cs: Vec<char> = text.chars().collect();
        fact_at(&cs, 0).map(|(f, _)| f)
    }

    fn parse_var_range(&self, text: &str) -> Option<ParseNode> {
        let cs: Vec<char> = text.chars().collect();
        name_at(&cs, skip_ws(&cs, 0)).map(|(n, _)| n)
    }



    fn eval_num(&self, _expr: &str, _matching: &MPMatching) -> Option<String> {
        None
    }

    fn check_conditions(&self, _source: &str, _matching: &MPMatching) -> Option<bool> {
        None
    }
}

#[test]
fn readme_taxonomy() {
    let mut kb = KB::new(Taxonomy);
    let told = kb.tell(
        "<X0> ⊆ <X1> ∧ <X1> ⊆ <X2> → <X0> ⊆ <X2>.\
         <X0> ∈ <X1> ∧ <X1> ⊆ <X2> → <X0> ∈ <X2>.\
         human ⊆ primate.\
         primate ⊆ animal.\
         susan ∈ human.",
    );
    assert!(matches!(told, Ok(true)));
    assert!(matches!(kb.ask("susan ∈ animal."), Ok(true)));
    assert!(matches!(kb.ask("susan ⊆ animal."), Ok(false)));
    assert!(matches!(kb.ask("primate ∈ animal."), Ok(false)));
    assert!(matches!(kb.ask("human ⊆ animal."), Ok(true)));
    assert!(matches!(kb.ask("susan ∈ primate."), Ok(true)));
}

#[test]
fn told_fact_is_known() {
    let mut kb = KB::new(Taxonomy);
    assert!(matches!(kb.ask("susan ∈ human."), Ok(false)));
    assert!(matches!(kb.tell("susan ∈ human."), Ok(true)));
    assert!(matches!(kb.ask("susan ∈ human."), Ok(true)));
    assert!(matches!(kb.ask("john ∈ human."), Ok(false)));
}

#[test]
fn later_stages_see_facts_told_before() {
    let mut kb = KB::new(Taxonomy);
    assert!(matches!(kb.tell("human ⊆ primate. primate ⊆ animal."), Ok(true)));
    assert!(matches!(kb.tell("<X0> ∈ <X1> ∧ <X1> ⊆ <X2> → <X0> ∈ <X2>."), Ok(true)));
    assert!(matches!(kb.ask("susan ∈ primate."), Ok(false)));
    assert!(matches!(kb.tell("susan ∈ human."), Ok(true)));
    assert!(matches!(kb.ask("susan ∈ primate."), Ok(true)));
    assert!(matches!(kb.ask("susan ∈ animal."), Ok(true)));
    assert!(matches!(kb.ask("human ∈ animal."), Ok(false)));
}

#[test]
fn first_antecedent_waits_for_new_facts() {
    let mut kb = KB::new(Taxonomy);
    assert!(matches!(kb.tell("susan ∈ human. human ⊆ primate."), Ok(true)));
    assert!(matches!(kb.tell("<X0> ∈ <X1> ∧ <X1> ⊆ <X2> → <X0> ∈ <X2>."), Ok(true)));
    assert!(matches!(kb.ask("susan ∈ primate."), Ok(false)));
    assert!(matches!(kb.tell("john ∈ human."), Ok(true)));
    assert!(matches!(kb.ask("john ∈ primate."), Ok(true)));
}

#[test]
fn query_with_variable() {
    let mut kb = KB::new(Taxonomy);
    assert!(matches!(kb.tell("susan ∈ human. john ∈ human. pepe ∈ dog."), Ok(true)));
    let answers = kb.ask_matchings("<X0> ∈ human.").ok().expect("answers");
    assert_eq!(answers.len(), 2);
    assert!(matches!(kb.ask("<X0> ∈ cat."), Ok(false)));
}

#[test]
fn not_knowledge_is_an_error() {
    let mut kb = KB::new(Taxonomy);
    assert!(matches!(kb.tell("susan is human"), Err(KBError::Knowledge(_))));
    assert!(matches!(kb.ask("susan is human"), Err(KBError::Knowledge(_))));
}

#[test]
fn knowledge_without_fact_cannot_be_asked() {
    let mut kb = KB::new(Taxonomy);
    assert!(matches!(kb.ask("<X0> ∈ <X1> → <X0> ⊆ <X1>."), Err(KBError::NoFact)));
}

/// A reader that reads knowledge as the taxonomy grammar does, but no fact on its own.
struct NoFacts;

impl FactParser for NoFacts {
    fn parse_knowledge(&self, text: &str) -> Result<ParseNode, String> {
        Taxonomy.parse_knowledge(text)
    }

    fn parse_fact(&self, _text: &str) -> Option<ParseNode> {
        None
    }

    fn parse_var_range(&self, _text: &str) -> Option<ParseNode> {
        None
    }



    fn eval_num(&self, _expr: &str, _matching: &MPMatching) -> Option<String> {
        None
    }

    fn check_conditions(&self, _source: &str, _matching: &MPMatching) -> Option<bool> {
        None
    }
}

#[test]
fn unreadable_fact_is_an_error() {
    let mut kb = KB::new(NoFacts);
    assert!(matches!(kb.ask("susan ∈ human."), Err(KBError::Fact(_))));
    assert!(matches!(kb.tell("susan ∈ human."), Err(KBError::Fact(_))));
}

fn bare_rule(transforms: &'static str, conditions: &'static str) -> MPRule<'static> {
    MPRule {
        antecedents: Antecedents { fact: None, transforms, conditions },
        more_antecedents: VecDeque::new(),
        consequents: vec!["susan ∈ human"],
        matched: MPMatching::new(),
        output: None,
    }
}

#[test]
fn unreadable_transforms_are_an_error() {
    let mut kb = KB::new(Taxonomy);
    let mut queues = Queues::new();
    let r = kb.process_match(bare_rule("<X0> = 1", ""), None, false, &mut queues);
    assert!(matches!(r, Err(KBError::Transforms(ref t)) if t == "<X0> = 1"));
}

#[test]
fn unreadable_conditions_are_an_error() {
    let mut kb = KB::new(Taxonomy);
    let mut queues = Queues::new();
    let r = kb.process_match(bare_rule("", "<X0> < 1"), None, false, &mut queues);
    assert!(matches!(r, Err(KBError::Conditions(ref c)) if c == "<X0> < 1"));
}

#[test]
fn rule_without_stage_left_queues_its_consequents() {
    let mut kb = KB::new(Taxonomy);
    let mut queues = Queues::new();
    let r = kb.process_match(bare_rule("", ""), None, false, &mut queues);
    assert!(r.is_ok());
    assert_eq!(queues.fact_queue.len(), 1);
    assert_eq!(queues.rule_queue.len(), 0);
    assert_eq!(queues.match_queue.len(), 0);
}

#[test]
fn output_of_a_rule_is_recorded() {
    let mut kb = KB::new(Taxonomy);
    let mut rule = bare_rule("", "");
    rule.output = Some("<X0> ∈ human");
    let mut queues = Queues::new();
    let mut matched = MPMatching::new();
    let mut lexicon = Lexicon::new();
    let var = lexicon.intern("var", "<X0>", true);
    let susan = lexicon.intern("v_name", "susan", true);
    matched.insert(var, susan);
    let r = kb.process_match(rule, Some(&matched), false, &mut queues);
    assert!(r.is_ok());
    assert_eq!(kb.printed().len(), 1);
    assert_eq!(kb.printed()[0], "susan∈human");
}

#[test]
fn parse_fact_gives_the_leaf_paths() {
    let mut p = MPParser::new(Taxonomy);
    let f = p.parse_fact("susan ∈ human", None).expect("a fact");
    assert_eq!(f.text, "susan∈human");
    assert_eq!(f.paths.len(), 3);
    assert_eq!(f.paths[0].value.name, "v_name");
    assert_eq!(f.paths[0].value.text, "susan");
    assert_eq!(f.paths[0].segments[0].name, "fact");
    assert_eq!(f.paths[0].segments[0].text, "0");
    assert_eq!(f.paths[1].value.name, "pred");
    assert_eq!(f.paths[2].value.text, "human");
    assert!(p.parse_fact("susan is human", None).is_none());
}

#[test]
fn parse_fact_replaces_bound_variables() {
    let mut p = MPParser::new(Taxonomy);
    let var = p.lexicon.intern("var", "<X0>", true);
    let susan = p.lexicon.intern("v_name", "susan", true);
    let mut m = MPMatching::new();
    m.insert(var, susan);
    let f = p.parse_fact("<X0> ∈ human", Some(&m)).expect("a fact");
    assert_eq!(f.text, "susan∈human");
    let g = p.parse_fact("<X1> ∈ human", Some(&m)).expect("a fact");
    assert_eq!(g.text, "<X1>∈human");
}

#[test]
fn normalize_numbers_variables_in_order() {
    let mut p = MPParser::new(Taxonomy);
    let f = p.parse_fact("<X3> ⊆ <X7>", None).expect("a fact");
    let (inv, nf) = p.normalize_fact(f);
    assert_eq!(nf.text, "<__X1>⊆<__X2>");
    assert_eq!(inv.len(), 2);
    let (k0, v0) = inv.entry(0);
    assert_eq!(k0.text, "<__X1>");
    assert_eq!(v0.text, "<X3>");
    let (k1, v1) = inv.entry(1);
    assert_eq!(k1.text, "<__X2>");
    assert_eq!(v1.text, "<X7>");
    let g = p.parse_fact("<X5> ⊆ <X5>", None).expect("a fact");
    let (inv2, ng) = p.normalize_fact(g);
    assert_eq!(ng.text, "<__X1>⊆<__X1>");
    assert_eq!(inv2.len(), 1);
}

#[test]
fn substitute_fact_both_ways() {
    let mut p = MPParser::new(Taxonomy);
    let f = p.parse_fact("<X0> ∈ human", None).expect("a fact");
    let var = p.lexicon.intern("var", "<X0>", true);
    let susan = p.lexicon.intern("v_name", "susan", true);
    let mut m = MPMatching::new();
    m.insert(var, susan);
    let slow = p.substitute_fact(f, &m).expect("a fact");
    assert_eq!(slow.text, "susan∈human");
    let fast = p.substitute_fact_fast(f, m);
    assert_eq!(fast.text, "susan∈human");
}

#[test]
fn read_knowledge_splits_rules_into_stages() {
    let mut p = MPParser::new(Taxonomy);
    let pr = p.parse_text("a ∈ b ∧ b ⊆ c → a ∈ c. d ∈ e.").ok().expect("knowledge");
    assert_eq!(pr.facts, vec!["d ∈ e"]);
    assert_eq!(pr.rules.len(), 1);
    let rule = &pr.rules[0];
    assert_eq!(rule.antecedents.fact, Some("a ∈ b"));
    assert_eq!(rule.more_antecedents.len(), 1);
    assert_eq!(rule.more_antecedents[0].fact, Some("b ⊆ c"));
    assert_eq!(rule.consequents, vec!["a ∈ c"]);
    assert_eq!(rule.output, None);
}

#[test]
fn string_cache_keeps_one_copy() {
    let mut cache = StringCache::new();
    let a = cache.intern("text");
    let b = cache.intern("text");
    let c = cache.intern("other");
    assert_eq!(a.as_ptr(), b.as_ptr());
    assert_eq!(a, "text");
    assert_eq!(c, "other");
}

#[test]
fn rule_display() {
    let rule = MPRule {
        antecedents: Antecedents { fact: Some("a ∈ b"), transforms: "", conditions: "" },
        more_antecedents: VecDeque::from(vec![Antecedents { fact: Some("c"), transforms: "t", conditions: "k" }]),
        consequents: vec!["d"],
        matched: MPMatching::new(),
        output: Some("o"),
    };
    assert_eq!(
        rule.to_display_string(),
        "rule\n\na ∈ b\n{={\n}=}\n{?{\n\n}?}\n->\nc{={\nt}=}\n{?{\nk}?}\n->\nd ;\n {!{ o }!}\n<>\n\nmatching:\n{}"
    );
}

#[test]
fn matching_display() {
    let mut lexicon = Lexicon::new();
    let var = lexicon.intern("var", "<X0>", true);
    let susan = lexicon.intern("v_name", "susan", true);
    let mut m = MPMatching::new();
    m.insert(var, susan);
    assert_eq!(m.to_display_string(), "{var: <X0> -> v_name: susan}");
}

#[test]
fn telling_more_forgets_nothing() {
    let mut kb = KB::new(Taxonomy);
    assert!(matches!(kb.tell("susan ∈ human. human ⊆ primate."), Ok(true)));
    assert!(matches!(kb.tell("<X0> ∈ <X1> ∧ <X1> ⊆ <X2> → <X0> ∈ <X2>."), Ok(true)));
    assert!(matches!(kb.tell("john ∈ human. primate ⊆ animal."), Ok(true)));
    assert!(matches!(kb.tell("nothing but words"), Err(KBError::Knowledge(_))));
    assert!(matches!(kb.ask("susan ∈ human."), Ok(true)));
    assert!(matches!(kb.ask("human ⊆ primate."), Ok(true)));
    assert!(matches!(kb.ask("john ∈ human."), Ok(true)));
    assert!(matches!(kb.ask("john ∈ primate."), Ok(true)));
    assert!(matches!(kb.ask("primate ⊆ animal."), Ok(true)));
}

#[test]
fn a_stored_rule_fires_on_its_fact() {
    let mut kb = KB::new(Taxonomy);
    assert!(matches!(kb.tell("bobby ∈ dog → bobby ∈ mammal."), Ok(true)));
    assert!(matches!(kb.ask("bobby ∈ mammal."), Ok(false)));
    assert!(matches!(kb.tell("rex ∈ dog → rex ∈ mammal."), Ok(true)));
    assert!(matches!(kb.tell("bobby ∈ dog."), Ok(true)));
    assert!(matches!(kb.ask("bobby ∈ mammal."), Ok(true)));
    assert!(matches!(kb.ask("rex ∈ mammal."), Ok(false)));
    assert!(matches!(kb.tell("rex ∈ dog."), Ok(true)));
    assert!(matches!(kb.ask("rex ∈ mammal."), Ok(true)));
}

#[test]
fn a_tree_without_facts_cannot_be_asked() {
    let mut kb = KB::new(Taxonomy);
    assert!(matches!(kb.ask_tree(&node("knowledge", "", vec![])), Err(KBError::NoFact)));
}

#[test]
fn a_fact_told_as_a_tree_is_answered() {
    let mut kb = KB::new(Taxonomy);
    let told = Taxonomy.parse_knowledge("susan ∈ human. john ∈ human.").expect("knowledge");
    assert!(matches!(kb.tell_tree(&told), Ok(true)));
    let asked = Taxonomy.parse_knowledge("susan ∈ human.").expect("knowledge");
    match kb.ask_tree(&asked) {
        Ok(v) => assert_eq!(v.len(), 1),
        Err(_) => panic!("the fact was told"),
    }
    let other = Taxonomy.parse_knowledge("pepe ∈ human.").expect("knowledge");
    match kb.ask_tree(&other) {
        Ok(v) => assert_eq!(v.len(), 0),
        Err(_) => panic!("the fact reads"),
    }
}
