//! What the knowledge base has yet to do: rules, facts and matches waiting in its queues,
//! and what a text of knowledge reads as.
use vstd::prelude::*;

use crate::matching::MPMatching;
use crate::ruletree::MPRule;

verus! {

/// The facts and rules that a text of knowledge holds, in the order they come.
pub struct ParseResult<'a> {
    pub facts: Vec<&'a str>,
    pub rules: Vec<MPRule<'a>>,
}

/// A piece of work for the knowledge base: a rule to add, a fact to add (with the matching
/// it was derived under, if any), or a rule whose current antecedent was matched.
#[derive(Debug)]
pub enum Activation<'a> {
    MPRule { rule: MPRule<'a>, query_rules: bool },
    Fact { fact: &'a str, matched: Option<MPMatching<'a>>, query_rules: bool },
    Match { rule: MPRule<'a>, matched: Option<MPMatching<'a>>, query_rules: bool },
}

impl<'a> Activation<'a> {
    /// The work of adding a fact.
    pub fn from_fact(fact: &'a str, matched: Option<MPMatching<'a>>, query_rules: bool) -> (r: Activation<'a>)
        ensures
            r == (Activation::Fact { fact, matched, query_rules }),
    {
        Activation::Fact { fact, matched, query_rules }
    }

    /// The work of adding a rule.
    pub fn from_rule(rule: MPRule<'a>, query_rules: bool) -> (r: Activation<'a>)
        ensures
            r == (Activation::MPRule { rule, query_rules }),
    {
        Activation::MPRule { rule, query_rules }
    }

    /// The work of going on with a rule whose current antecedent was matched.
    pub fn from_matching(rule: MPRule<'a>, matched: Option<MPMatching<'a>>, query_rules: bool) -> (r: Activation<'a>)
        ensures
            r == (Activation::Match { rule, matched, query_rules }),
    {
        Activation::Match { rule, matched, query_rules }
    }
}

} // verus!
