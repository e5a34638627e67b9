use std::collections::VecDeque;

use modus_ponens::matching::MPMatching;
use modus_ponens::path::MPPath;
use modus_ponens::ruletree::{Antecedents, MPRule, RuleRef, RuleSet};
use modus_ponens::segment::MPSegment;

fn seg(name: &str, text: &str, leaf: bool) -> &'static MPSegment {
    Box::leak(Box::new(MPSegment::new(name.to_string(), text.to_string(), leaf)))
}

fn rule_ref(consequent: &'static str) -> RuleRef<'static> {
    RuleRef {
        rule: MPRule {
            antecedents: Antecedents { fact: None, transforms: "", conditions: "" },
            more_antecedents: VecDeque::new(),
            consequents: vec![consequent],
            matched: MPMatching::new(),
            output: None,
        },
        varmap: MPMatching::new(),
    }
}

#[test]
fn a_first_variable_hangs_on_the_unbound_variable_edge() {
    let r = seg("fact", "0", false);
    let s = seg("v_name", "susan", true);
    let x = seg("var", "<__X1>", true);
    let ps = MPPath::new(vec![r, s]);
    let px = MPPath::new(vec![r, x]);
    let mut rs = RuleSet::new(MPPath::new(vec![r]));
    rs.follow_and_create_paths(vec![ps.duplicate()], rule_ref("one"), 1);
    rs.follow_and_create_paths(vec![px.duplicate()], rule_ref("two"), 1);
    let root = rs.node(0);
    let n = root.get_var_child().expect("an unbound variable edge");
    assert!(root.get_vchild(&px).is_none());
    assert!(root.get_child(&px).is_none());
    assert_eq!(rs.node(n).rule_refs().len(), 1);
    assert_eq!(rs.node(n).rule_refs()[0].rule.consequents, vec!["two"]);
    let (resp, _) = rs.query_paths(vec![ps.duplicate()]);
    assert_eq!(resp.len(), 2);
    assert_eq!(rs.node(resp[0].0).rule_refs()[0].rule.consequents, vec!["one"]);
    assert_eq!(resp[0].1.len(), 0);
    assert_eq!(rs.node(resp[1].0).rule_refs()[0].rule.consequents, vec!["two"]);
    assert_eq!(resp[1].1.len(), 1);
    assert_eq!(resp[1].1.get(x).map(|v| v.text.clone()), Some("susan".to_string()));
}

#[test]
fn the_same_paths_share_their_end_node() {
    let r = seg("fact", "0", false);
    let x = seg("var", "<__X1>", true);
    let px = MPPath::new(vec![r, x]);
    let mut rs = RuleSet::new(MPPath::new(vec![r]));
    rs.follow_and_create_paths(vec![px.duplicate()], rule_ref("one"), 1);
    let nodes = rs.len();
    rs.follow_and_create_paths(vec![px.duplicate()], rule_ref("two"), 1);
    assert_eq!(rs.len(), nodes);
    let n = rs.node(0).get_var_child().expect("an unbound variable edge");
    assert_eq!(rs.node(n).rule_refs().len(), 2);
}
