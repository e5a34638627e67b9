//! The knowledge base: the facts and rules told, and the forward chaining that draws their
//! consequences, through queues of rules to add, matches to go on with and facts to add.
use std::collections::VecDeque;
use vstd::prelude::*;

use crate::activation::{Activation, ParseResult};
use crate::fact::Fact;
use crate::kbase::KBase;
use crate::facttree::{extends, leaf_ids, leaves_only, lemma_extends_refl, lemma_extends_trans, lemma_found_stays_found, query_spec, var_free, FactSet};
use crate::matching::{get_real_matching, keys_covered, MPMatching, SegKey};
use crate::parser::{named_texts, rules_read, texts_view, FactParser, MPParser};
use crate::parsetree::ParseNode;
use crate::path::{all_wf, paths_view, MPPath};
use crate::ruletree::{climb_spec, lemma_rs_extends_refl, lemma_rs_extends_trans, lemma_walk_climbs, rs_extends, rs_walk, Antecedents, MPRule, RuleRef, RuleSet};
use crate::segment::SegView;
use crate::text::{str_eq, trim, trimmed};
use crate::transform::TParser;

verus! {

/// What can stop the knowledge base from telling or asking.
#[derive(Debug)]
pub enum KBError {
    /// The grammar does not read the text as knowledge: the parser's message.
    Knowledge(String),
    /// The grammar does not read this text as a fact, or a value bound in it back.
    Fact(String),
    /// The transforms of a rule could not be applied.
    Transforms(String),
    /// The conditions of a rule could not be checked.
    Conditions(String),
    /// A fact matched a rule under a variable that the rule does not have.
    Unbound,
    /// The text asked holds no fact.
    NoFact,
    /// A fact with more paths than can be counted.
    TooLarge,
}

/// The matchings that an activation holds are well formed.
pub open spec fn act_wf(a: Activation) -> bool {
    match a {
        Activation::MPRule { rule, .. } => rule.matched.wf(),
        Activation::Fact { matched, .. } => matched matches Some(m) ==> m.wf(),
        Activation::Match { rule, matched, .. } => rule.matched.wf() && (matched matches Some(m) ==> m.wf()),
    }
}

/// Every activation of the list is well formed.
pub open spec fn acts_wf(q: Seq<Activation>) -> bool {
    forall|i: int| 0 <= i < q.len() ==> act_wf(#[trigger] q[i])
}

/// The work waiting: rules to add, matches to go on with, and facts to add; they are taken
/// in that order of precedence, each queue first in, first out.
pub struct Queues<'a> {
    pub rule_queue: VecDeque<Activation<'a>>,
    pub match_queue: VecDeque<Activation<'a>>,
    pub fact_queue: VecDeque<Activation<'a>>,
}

impl<'a> Queues<'a> {
    /// The activations waiting are well formed.
    pub open spec fn wf(&self) -> bool {
        &&& acts_wf(self.rule_queue@)
        &&& acts_wf(self.match_queue@)
        &&& acts_wf(self.fact_queue@)
    }

    /// Empty queues.
    pub fn new() -> (r: Queues<'a>)
        ensures
            r.wf(),
            r.rule_queue@.len() == 0,
            r.match_queue@.len() == 0,
            r.fact_queue@.len() == 0,
    {
        Queues { rule_queue: VecDeque::new(), match_queue: VecDeque::new(), fact_queue: VecDeque::new() }
    }
}

/// Queues an activation at the back.
fn push_act(q: &mut VecDeque<Activation<'static>>, a: Activation<'static>)
    requires
        acts_wf(old(q)@),
        act_wf(a),
    ensures
        acts_wf(final(q)@),
        final(q)@ == old(q)@.push(a),
{
    q.push_back(a);
    assert forall|k: int| 0 <= k < q@.len() implies act_wf(#[trigger] q@[k]) by {
        if k < q@.len() - 1 {
            assert(q@[k] == old(q)@[k]);
        }
    }
}

/// The activation is a match, with rules to be queried, of a copy of `rule` whose current
/// stage is `stage`, under the bindings `m` where there are any.
pub open spec fn is_rule_match(a: Activation, rule: MPRule, stage: Antecedents, m: Option<Map<SegKey, SegView>>) -> bool {
    match a {
        Activation::Match { rule: nr, matched, query_rules } => {
            &&& query_rules
            &&& match (matched, m) {
                (Some(mm), Some(v)) => mm@ == v,
                (None, None) => true,
                _ => false,
            }
            &&& nr.antecedents == stage
            &&& nr.more_antecedents@ == rule.more_antecedents@
            &&& nr.consequents@ == rule.consequents@
            &&& nr.matched@ == rule.matched@
            &&& nr.output == rule.output
        },
        _ => false,
    }
}

/// The queue holds, from position `start` on, one match of a copy of `rule` without its
/// current fact for each of the answers, in order, and nothing more.
pub open spec fn answers_queued(q: Seq<Activation>, start: int, rule: MPRule, answers: Seq<Map<SegKey, SegView>>) -> bool {
    &&& q.len() == start + answers.len()
    &&& forall|i: int| 0 <= i < answers.len() ==> is_rule_match(#[trigger] q[start + i], rule, Antecedents { fact: None, ..rule.antecedents }, Some(answers[i]))
}

/// The bindings of a rule once the bindings of a match, if any, are added to them.
pub open spec fn merged(m0: Map<SegKey, SegView>, matching: Option<&MPMatching>) -> Map<SegKey, SegView> {
    match matching {
        Some(m) => m0.union_prefer_right(m@),
        None => m0,
    }
}

/// The activation adds `rule` again with its next stage made current, with rules to be
/// queried.
pub open spec fn is_advanced(a: Activation, rule: MPRule) -> bool {
    match a {
        Activation::MPRule { rule: nr, query_rules } => {
            &&& query_rules
            &&& rule.more_antecedents@.len() > 0
            &&& nr.antecedents == rule.more_antecedents@[0]
            &&& nr.more_antecedents@ == rule.more_antecedents@.drop_first()
            &&& nr.consequents == rule.consequents
            &&& nr.output == rule.output
        },
        _ => false,
    }
}

/// The queue holds, from position `start` on, the consequents `cons` in order, each to be
/// added with the bindings `mv`, and nothing more.
pub open spec fn facts_queued(q: Seq<Activation>, start: int, cons: Seq<&str>, mv: Map<SegKey, SegView>, query_rules: bool) -> bool {
    &&& q.len() == start + cons.len()
    &&& forall|i: int| 0 <= i < cons.len() ==> (match #[trigger] q[start + i] {
        Activation::Fact { fact, matched: Some(mm), query_rules: qr } => fact == cons[i] && mm@ == mv && qr == query_rules,
        _ => false,
    })
}

/// The rules stored at the nodes of a response, node after node, each node's rules in order.
pub open spec fn rules_reached(rs: RuleSet, resp: Seq<(usize, Map<SegKey, SegView>)>) -> Seq<RuleRef>
    decreases resp.len(),
{
    if resp.len() == 0 {
        Seq::empty()
    } else {
        rules_reached(rs, resp.drop_last()) + rs.rules_before(resp.last().0 as int)
    }
}

/// Every variable that `m` binds is one that `varmap` renames.
pub open spec fn covers(varmap: Map<SegKey, SegView>, m: Map<SegKey, SegView>) -> bool {
    forall|k: SegKey| #[trigger] m.contains_key(k) ==> varmap.contains_key(k)
}

/// Every rule stored at a node of the response renames every variable of that node's
/// matching.
pub open spec fn all_covered(rs: RuleSet, resp: Seq<(usize, Map<SegKey, SegView>)>) -> bool {
    forall|i: int, j: int|
        0 <= i < resp.len() && 0 <= j < rs.rules_before(resp[i].0 as int).len() ==> covers(
            (#[trigger] rs.rules_before(resp[i].0 as int)[j]).varmap@,
            resp[i].1,
        )
}

/// The rules stored at a node of a response are among the rules reached through it.
proof fn lemma_reached_contains(rs: RuleSet, resp: Seq<(usize, Map<SegKey, SegView>)>, j: int, i: int)
    requires
        0 <= j < resp.len(),
        0 <= i < rs.rules_before(resp[j].0 as int).len(),
    ensures
        rules_reached(rs, resp).contains(rs.rules_before(resp[j].0 as int)[i]),
    decreases resp.len(),
{
    let pre = rules_reached(rs, resp.drop_last());
    let here = rs.rules_before(resp.last().0 as int);
    assert(rules_reached(rs, resp) == pre + here);
    if j == resp.len() - 1 {
        assert((pre + here)[pre.len() + i] == here[i]);
    } else {
        assert(resp.drop_last()[j] == resp[j]);
        lemma_reached_contains(rs, resp.drop_last(), j, i);
        let k = choose|k: int| 0 <= k < pre.len() && pre[k] == rs.rules_before(resp[j].0 as int)[i];
        assert((pre + here)[k] == pre[k]);
    }
}

/// A rule stored at the node of the rule set where the leaf paths of a fact lead, through
/// edges of values that are not variables, is among the rules that the fact reaches: adding
/// the fact queues a match of it.
pub proof fn lemma_stored_rule_reached(rs: RuleSet, ps: Seq<Seq<SegView>>, e: usize, i: int)
    requires
        rs_walk(rs@, 0, ps) == Some(e as int),
        rs@[e as int].end_node,
        0 <= i < rs.rules_before(e as int).len(),
    ensures
        rules_reached(rs, climb_spec(rs@, 0, ps, Map::empty())).contains(rs.rules_before(e as int)[i]),
{
    let resp = climb_spec(rs@, 0, ps, Map::empty());
    lemma_walk_climbs(rs@, 0, ps, Map::empty());
    let j = choose|j: int| 0 <= j < resp.len() && resp[j] == (e, Map::<SegKey, SegView>::empty());
    assert(resp[j].0 as int == e as int);
    lemma_reached_contains(rs, resp, j, i);
}

/// The activation is a match of a copy of the stored rule `rr`, under some bindings.
pub open spec fn is_copy_match(a: Activation, rr: RuleRef, query_rules: bool) -> bool {
    match a {
        Activation::Match { rule: nr, matched: Some(mm), query_rules: qr } => {
            &&& qr == query_rules
            &&& nr.antecedents == rr.rule.antecedents
            &&& nr.more_antecedents@ == rr.rule.more_antecedents@
            &&& nr.consequents@ == rr.rule.consequents@
            &&& nr.matched@ == rr.rule.matched@
            &&& nr.output == rr.rule.output
        },
        _ => false,
    }
}

/// The queue holds, from position `start` on, one match for each of the stored rules `rrs`,
/// in order, and nothing more.
pub open spec fn rules_queued(q: Seq<Activation>, start: int, rrs: Seq<RuleRef>, query_rules: bool) -> bool {
    &&& q.len() == start + rrs.len()
    &&& forall|k: int| 0 <= k < rrs.len() ==> is_copy_match(#[trigger] q[start + k], rrs[k], query_rules)
}

/// Every rule stored in the rule set holds well formed matchings.
pub open spec fn refs_wf(rs: RuleSet) -> bool {
    forall|n: int, i: int|
        0 <= n < rs@.len() && 0 <= i < rs.rules_at(n).len() ==> (#[trigger] rs.rules_at(n)[i]).rule.matched.wf()
            && rs.rules_at(n)[i].varmap.wf()
}

/// Every rule stored in `before`, node by node, is still stored in `later`, in the same
/// place of its node's list.
pub open spec fn keeps_rules(before: RuleSet, later: RuleSet) -> bool {
    forall|n: int| before.rules_before(n).is_prefix_of(#[trigger] later.rules_before(n))
}

/// Being a prefix is transitive.
proof fn lemma_prefix_trans<T>(a: Seq<T>, b: Seq<T>, c: Seq<T>)
    requires
        a.is_prefix_of(b),
        b.is_prefix_of(c),
    ensures
        a.is_prefix_of(c),
{
    assert forall|i: int| 0 <= i < a.len() implies a[i] == c.subrange(0, a.len() as int)[i] by {
        assert(a[i] == b.subrange(0, a.len() as int)[i]);
        assert(b[i] == c.subrange(0, b.len() as int)[i]);
    }
}

/// A knowledge base over the grammar `G`: the reader of facts, the facts and rules told or
/// drawn, and the outputs of the rules that fired, in order; and whether every fact stored
/// so far had only leaf values where a variable can stand.
pub struct KB<G> {
    mpparser: MPParser<G>,
    facts: FactSet<'static>,
    rules: RuleSet<'static>,
    printed: Vec<String>,
    leafy: Ghost<bool>,
    reads: Vec<(String, Option<&'static Fact<'static>>)>,
    done: Ghost<nat>,
}

/// What a list of texts read before holds for `t`: the reading of its first entry for `t`,
/// `None` where it has none.
pub open spec fn cache_lookup(c: Seq<(Seq<char>, Option<&'static Fact<'static>>)>, t: Seq<char>) -> Option<Option<&'static Fact<'static>>>
    decreases c.len(),
{
    if c.len() == 0 {
        None
    } else if c[0].0 == t {
        Some(c[0].1)
    } else {
        cache_lookup(c.drop_first(), t)
    }
}

/// An entry added at the end changes the reading of no text read before.
proof fn lemma_cache_push(c: Seq<(Seq<char>, Option<&'static Fact<'static>>)>, e: (Seq<char>, Option<&'static Fact<'static>>), t: Seq<char>)
    ensures
        cache_lookup(c.push(e), t) == (if cache_lookup(c, t) is Some {
            cache_lookup(c, t)
        } else if e.0 == t {
            Some(e.1)
        } else {
            None
        }),
    decreases c.len(),
{
    if c.len() > 0 {
        assert(c.push(e)[0] == c[0]);
        assert(c.push(e).drop_first() =~= c.drop_first().push(e));
        lemma_cache_push(c.drop_first(), e, t);
        if c[0].0 != t {
            assert(cache_lookup(c, t) == cache_lookup(c.drop_first(), t));
            assert(cache_lookup(c.push(e), t) == cache_lookup(c.drop_first().push(e), t));
        }
    } else {
        assert(c.push(e)[0] == e);
        assert(c.push(e).drop_first() =~= Seq::<(Seq<char>, Option<&'static Fact<'static>>)>::empty());
        assert(cache_lookup(c.push(e).drop_first(), t) is None);
        assert(cache_lookup(c, t) is None);
    }
}

/// Every text read in `a` has the same reading in `b`.
pub open spec fn keeps_readings(a: Seq<(Seq<char>, Option<&'static Fact<'static>>)>, b: Seq<(Seq<char>, Option<&'static Fact<'static>>)>) -> bool {
    forall|t: Seq<char>| #[trigger] cache_lookup(a, t) is Some ==> cache_lookup(b, t) == cache_lookup(a, t)
}

/// Keeping the readings is transitive.
proof fn lemma_keeps_trans(a: Seq<(Seq<char>, Option<&'static Fact<'static>>)>, b: Seq<(Seq<char>, Option<&'static Fact<'static>>)>, c: Seq<(Seq<char>, Option<&'static Fact<'static>>)>)
    requires
        keeps_readings(a, b),
        keeps_readings(b, c),
    ensures
        keeps_readings(a, c),
{
    assert forall|t: Seq<char>| #[trigger] cache_lookup(a, t) is Some implies cache_lookup(c, t) == cache_lookup(a, t) by {
        assert(cache_lookup(b, t) == cache_lookup(a, t));
    }
}

/// The reading of a text is that of its first entry.
proof fn lemma_cache_first(c: Seq<(Seq<char>, Option<&'static Fact<'static>>)>, t: Seq<char>, i: int)
    requires
        0 <= i <= c.len(),
        forall|j: int| 0 <= j < i ==> (#[trigger] c[j]).0 != t,
    ensures
        i < c.len() && c[i].0 == t ==> cache_lookup(c, t) == Some(c[i].1),
        i == c.len() ==> cache_lookup(c, t) is None,
    decreases i,
{
    if i > 0 {
        assert forall|j: int| 0 <= j < i - 1 implies (#[trigger] c.drop_first()[j]).0 != t by {
            assert(c.drop_first()[j] == c[j + 1]);
        }
        assert(c[0].0 != t);
        lemma_cache_first(c.drop_first(), t, i - 1);
        if i < c.len() {
            assert(c.drop_first()[i - 1] == c[i]);
        }
    }
}

/// Every fact that the list holds is well formed.
pub open spec fn cache_wf(c: Seq<(Seq<char>, Option<&'static Fact<'static>>)>) -> bool {
    forall|i: int| 0 <= i < c.len() ==> ((#[trigger] c[i]).1 matches Some(f) ==> f.wf())
}

/// A reading found in a list is one of its entries.
proof fn lemma_cache_lookup_in(c: Seq<(Seq<char>, Option<&'static Fact<'static>>)>, t: Seq<char>)
    requires
        cache_wf(c),
    ensures
        cache_lookup(c, t) matches Some(Some(f)) ==> f.wf(),
    decreases c.len(),
{
    if c.len() > 0 && c[0].0 != t {
        assert forall|i: int| 0 <= i < c.drop_first().len() implies ((#[trigger] c.drop_first()[i]).1 matches Some(f) ==> f.wf()) by {
            assert(c.drop_first()[i] == c[i + 1]);
        }
        lemma_cache_push(Seq::empty(), c[0], t);
        lemma_cache_lookup_in(c.drop_first(), t);
    }
}

/// Facts read without bindings: the fact, and whether it is of leaf values and without
/// variables, as those whose finding the knowledge base promises.
pub open spec fn ground_leafy(f: &Fact) -> bool {
    leaves_only(paths_view(f.paths@)) && var_free(paths_view(f.paths@))
}

/// None of the nodes `cs` is a rule.
pub open spec fn no_rules(cs: Seq<ParseNode>) -> bool {
    forall|i: int| 0 <= i < cs.len() ==> (#[trigger] cs[i]).name@ != "rule"@
}

proof fn lemma_no_rules_read(rs: Seq<MPRule>, cs: Seq<ParseNode>)
    requires
        no_rules(cs),
        rules_read(rs, cs),
    ensures
        rs.len() == 0,
    decreases cs.len(),
{
    if cs.len() > 0 {
        assert(cs.last() == cs[cs.len() - 1]);
        assert(no_rules(cs.drop_last())) by {
            assert forall|i: int| 0 <= i < cs.drop_last().len() implies (#[trigger] cs.drop_last()[i]).name@ != "rule"@ by {
                assert(cs.drop_last()[i] == cs[i]);
            }
        }
        lemma_no_rules_read(rs, cs.drop_last());
    }
}

/// A copy of a list of paths.
fn copy_paths(paths: &Vec<MPPath<'static>>) -> (r: Vec<MPPath<'static>>)
    requires
        all_wf(paths@),
    ensures
        all_wf(r@),
        paths_view(r@) == paths_view(paths@),
{
    let mut r: Vec<MPPath<'static>> = Vec::new();
    let mut i: usize = 0;
    while i < paths.len()
        invariant
            0 <= i <= paths.len(),
            all_wf(paths@),
            all_wf(r@),
            paths_view(r@) == paths_view(paths@).take(i as int),
        decreases paths.len() - i,
    {
        assert(paths@[i as int].wf());
        let p = paths[i].duplicate();
        let ghost before = paths_view(r@);
        r.push(p);
        assert(paths_view(r@) =~= before.push(p@));
        assert(paths_view(paths@).take(i + 1) =~= paths_view(paths@).take(i as int).push(paths@[i as int]@));
        i = i + 1;
    }
    assert(paths_view(paths@).take(paths@.len() as int) =~= paths_view(paths@));
    r
}

impl<G: FactParser> KB<G> {
    /// The reader, the fact set and the rule set are well formed, as are the rules stored.
    pub closed spec fn wf(&self) -> bool {
        &&& self.mpparser.wf()
        &&& self.facts.wf()
        &&& self.leafy@ ==> self.facts.leaf_facts_only()
        &&& self.rules.wf()
        &&& refs_wf(self.rules)
        &&& cache_wf(self.read_cache())
    }

    /// The texts read as facts without bindings so far, each with what it was read as.
    pub closed spec fn read_cache(&self) -> Seq<(Seq<char>, Option<&'static Fact<'static>>)> {
        self.reads@.map_values(|e: (String, Option<&'static Fact<'static>>)| (e.0@, e.1))
    }

    /// What the knowledge base read `t` as, without bindings, if it read it: the fact, or
    /// `None` where the grammar did not read it as a fact. Once read, a text keeps its
    /// reading.
    pub open spec fn reading(&self, t: Seq<char>) -> Option<Option<&'static Fact<'static>>> {
        cache_lookup(self.read_cache(), t)
    }

    /// The text `t` was read as a fact, and where that fact is of leaf values and without
    /// variables and every fact stored so far is of leaf values, the fact set finds it.
    pub open spec fn told_found(&self, t: Seq<char>) -> bool {
        match self.reading(t) {
            Some(Some(f)) => self.leaf_valued() && ground_leafy(f) ==> query_spec(
                self.fact_set(),
                self.fact_set()[0],
                paths_view(f.paths@),
                Map::empty(),
            ).len() > 0,
            _ => false,
        }
    }

    /// The facts told or drawn, as the fact set holds them.
    pub closed spec fn fact_set(&self) -> Seq<crate::facttree::FSNodeView> {
        self.facts@
    }

    /// The number of activations processed so far.
    pub closed spec fn activations(&self) -> nat {
        self.done@
    }

    /// The grammar that reads the texts told and asked.
    pub closed spec fn grammar(&self) -> G {
        self.mpparser.grammar
    }

    /// The facts stored in the fact set, each as the identities of its leaf paths.
    pub closed spec fn stored(&self) -> Set<Seq<Seq<char>>> {
        self.facts.added()
    }

    /// Where every fact stored is of leaf values, a query without variables that the fact
    /// set finds begins, by the identities of its leaf paths, a fact stored: a fact that was
    /// neither told nor drawn, and that begins none of those, is not found.
    pub proof fn lemma_found_was_stored(&self, ps: Seq<Seq<SegView>>)
        requires
            self.wf(),
            self.leaf_valued(),
            var_free(ps),
            query_spec(self.fact_set(), self.fact_set()[0], ps, Map::empty()).len() > 0,
        ensures
            leaf_ids(ps).len() == 0 || exists|t: Seq<Seq<char>>| self.stored().contains(t) && leaf_ids(ps).is_prefix_of(t),
    {
        self.facts.lemma_found_was_added(ps);
    }

    /// The outputs of the rules that fired, in order.
    pub closed spec fn outputs(&self) -> Seq<Seq<char>> {
        self.printed@.map_values(|s: String| s@)
    }

    /// Every fact stored so far had only leaf values where a variable can stand, as the
    /// facts of a grammar whose logical productions are terminals have.
    pub closed spec fn leaf_valued(&self) -> bool {
        self.leafy@
    }

    /// What the fact set finds without variables it still finds in `later`.
    pub open spec fn keeps_found(before: Seq<crate::facttree::FSNodeView>, later: Seq<crate::facttree::FSNodeView>) -> bool {
        forall|ps: Seq<Seq<SegView>>|
            var_free(ps) && query_spec(before, before[0], ps, Map::empty()).len() > 0 ==> #[trigger] query_spec(
                later,
                later[0],
                ps,
                Map::empty(),
            ).len() > 0
    }

    /// An empty knowledge base over the grammar read by `grammar`.
    pub fn new(grammar: G) -> (r: KB<G>)
        ensures
            r.wf(),
            r.fact_set().len() == 1,
            r.outputs() == Seq::<Seq<char>>::empty(),
            r.leaf_valued(),
            r.activations() == 0,
            r.grammar() == grammar,
    {
        let mut mpparser = MPParser::new(grammar);
        let root_path = mpparser.lexicon.empty_path();
        let facts = FactSet::new();
        let rules = RuleSet::new(root_path);
        let printed: Vec<String> = Vec::new();
        let reads: Vec<(String, Option<&'static Fact<'static>>)> = Vec::new();
        let ghost d0: nat = 0;
        let r = KB { mpparser, facts, rules, printed, leafy: Ghost(true), reads, done: Ghost(d0) };
        assert(r.read_cache() =~= Seq::<(Seq<char>, Option<&'static Fact<'static>>)>::empty());
        assert(r.outputs() =~= Seq::<Seq<char>>::empty());
        r
    }

    /// The outputs of the rules that fired, in order.
    pub fn printed(&self) -> (r: &Vec<String>)
        ensures
            r@.map_values(|s: String| s@) == self.outputs(),
    {
        &self.printed
    }

    /// The fact that `text` reads as, with the variables bound in `matched` replaced by
    /// their values.
    fn read_fact(&mut self, text: &str, matched: Option<&MPMatching<'static>>) -> (r: Result<&'static Fact<'static>, KBError>)
        requires
            old(self).wf(),
            matched matches Some(m) ==> m.wf(),
        ensures
            !(r matches Err(KBError::Knowledge(_))),
            r matches Err(e) ==> e is Fact,
            final(self).wf(),
            final(self).grammar() == old(self).grammar(),
            final(self).activations() == old(self).activations(),
            final(self).rules == old(self).rules,
            final(self).rule_base() == old(self).rule_base(),
            final(self).facts == old(self).facts,
            final(self).printed == old(self).printed,
            final(self).leaf_valued() == old(self).leaf_valued(),
            final(self).mpparser.grammar == old(self).mpparser.grammar,
            r matches Ok(f) ==> f.wf(),
            keeps_readings(old(self).read_cache(), final(self).read_cache()),
            matched is None ==> (final(self).reading(text@) matches Some(o) && match r {
                Ok(f) => o == Some(f),
                Err(_) => o is None,
            }),
    {
        if matched.is_none() {
            let ghost c = self.read_cache();
            let mut i: usize = 0;
            while i < self.reads.len()
                invariant
                    0 <= i <= self.reads@.len(),
                    *self == *old(self),
                    self.wf(),
                    cache_wf(c),
                    c == self.read_cache(),
                    c.len() == self.reads@.len(),
                    forall|j: int| 0 <= j < i ==> (#[trigger] c[j]).0 != text@,
                decreases self.reads@.len() - i,
            {
                assert(c[i as int] == (self.reads@[i as int].0@, self.reads@[i as int].1));
                if str_eq(self.reads[i].0.as_str(), text) {
                    proof {
                        lemma_cache_first(c, text@, i as int);
                        lemma_cache_lookup_in(c, text@);
                    }
                    return match self.reads[i].1 {
                        Some(f) => Ok(f),
                        None => Err(KBError::Fact(text.to_string())),
                    };
                }
                i = i + 1;
            }
            proof {
                lemma_cache_first(c, text@, c.len() as int);
            }
            let res = self.mpparser.parse_fact(text, None);
            let key = text.to_string();
            self.reads.push((key, res));
            proof {
                assert(self.read_cache() =~= c.push((text@, res)));
                assert forall|t: Seq<char>| #[trigger] cache_lookup(c, t) is Some implies cache_lookup(self.read_cache(), t) == cache_lookup(c, t) by {
                    lemma_cache_push(c, (text@, res), t);
                }
                lemma_cache_push(c, (text@, res), text@);
                assert forall|j: int| 0 <= j < self.read_cache().len() implies ((#[trigger] self.read_cache()[j]).1 matches Some(f) ==> f.wf()) by {
                    if j < c.len() {
                        assert(self.read_cache()[j] == c[j]);
                    }
                }
            }
            match res {
                Some(f) => Ok(f),
                None => Err(KBError::Fact(text.to_string())),
            }
        } else {
            match self.mpparser.parse_fact(text, matched) {
                Some(f) => Ok(f),
                None => Err(KBError::Fact(text.to_string())),
            }
        }
    }

    /// Adds a fact: every rule whose current antecedent it matches goes on, under the
    /// matching of the rule's own variables, and then the fact is stored.
    pub fn process_fact(&mut self, fact: &'static Fact<'static>, query_rules: bool, queues: &mut Queues<'static>) -> (r: Result<(), KBError>)
        requires
            old(self).wf(),
            old(queues).wf(),
            fact.wf(),
        ensures
            final(self).read_cache() == old(self).read_cache(),
            !(r matches Err(KBError::Knowledge(_))),
            final(self).wf(),
            final(self).grammar() == old(self).grammar(),
            final(self).activations() == old(self).activations(),
            final(queues).wf(),
            final(self).outputs() == old(self).outputs(),
            final(self).rule_base() == old(self).rule_base(),
            final(queues).rule_queue@ == old(queues).rule_queue@,
            final(queues).fact_queue@ == old(queues).fact_queue@,
            old(queues).match_queue@.len() <= final(queues).match_queue@.len(),
            final(queues).match_queue@.take(old(queues).match_queue@.len() as int) == old(queues).match_queue@,
            r is Ok ==> rules_queued(
                final(queues).match_queue@,
                old(queues).match_queue@.len() as int,
                rules_reached(
                    old(self).rule_base(),
                    climb_spec(old(self).rule_base()@, 0, paths_view(fact.paths@), Map::empty()),
                ),
                query_rules,
            ),
            r is Ok ==> old(self).fact_set().len() <= final(self).fact_set().len(),
            r is Ok && leaves_only(paths_view(fact.paths@)) ==> extends(old(self).fact_set(), final(self).fact_set()),
            r is Ok && leaves_only(paths_view(fact.paths@)) && var_free(paths_view(fact.paths@)) ==> query_spec(
                final(self).fact_set(),
                final(self).fact_set()[0],
                paths_view(fact.paths@),
                Map::empty(),
            ).len() > 0,
            r is Err ==> final(self).fact_set() == old(self).fact_set(),
            r is Err ==> final(self).stored() == old(self).stored(),
            r is Ok ==> final(self).stored() == old(self).stored().insert(leaf_ids(paths_view(fact.paths@))),
            final(self).leaf_valued() ==> old(self).leaf_valued() && extends(old(self).fact_set(), final(self).fact_set()),
            r is Ok && old(self).leaf_valued() && leaves_only(paths_view(fact.paths@)) ==> final(self).leaf_valued(),
            r is Err ==> final(self).leaf_valued() == old(self).leaf_valued(),
            (r matches Err(KBError::Unbound)) <==> !all_covered(
                old(self).rule_base(),
                climb_spec(old(self).rule_base()@, 0, paths_view(fact.paths@), Map::empty()),
            ),
            (r matches Err(KBError::TooLarge)) <==> all_covered(
                old(self).rule_base(),
                climb_spec(old(self).rule_base()@, 0, paths_view(fact.paths@), Map::empty()),
            ) && fact.paths@.len() > usize::MAX - 2,
            r is Ok <==> all_covered(
                old(self).rule_base(),
                climb_spec(old(self).rule_base()@, 0, paths_view(fact.paths@), Map::empty()),
            ) && fact.paths@.len() <= usize::MAX - 2,
    {
        proof {
            lemma_extends_refl(self.fact_set());
        }
        let paths = copy_paths(&fact.paths);
        let (response, _) = self.rules.query_paths(paths);
        let ghost resp = crate::ruletree::response_view(response@);
        let ghost rs = self.rules;
        let ghost start = queues.match_queue@.len() as int;
        let mut i: usize = 0;
        assert(resp.take(0) =~= Seq::<(usize, Map<SegKey, SegView>)>::empty());
        assert(queues.match_queue@.take(start) =~= queues.match_queue@);
        while i < response.len()
            invariant
                0 <= i <= response@.len(),
                self.wf(),
                self.fact_set() == old(self).fact_set(),
                self.outputs() == old(self).outputs(),
                self.rules == rs,
                rs == old(self).rules,
                resp == crate::ruletree::response_view(response@),
                crate::ruletree::response_wf(response@),
                queues.wf(),
                queues.rule_queue@ == old(queues).rule_queue@,
                queues.fact_queue@ == old(queues).fact_queue@,
                start == old(queues).match_queue@.len(),
                queues.match_queue@.take(start) == old(queues).match_queue@,
                rules_queued(queues.match_queue@, start, rules_reached(rs, resp.take(i as int)), query_rules),
                resp == climb_spec(old(self).rule_base()@, 0, paths_view(fact.paths@), Map::empty()),
                rs == old(self).rule_base(),
                forall|a: int, b: int|
                    0 <= a < i && 0 <= b < rs.rules_before(resp[a].0 as int).len() ==> covers(
                        (#[trigger] rs.rules_before(resp[a].0 as int)[b]).varmap@,
                        resp[a].1,
                    ),
            decreases response@.len() - i,
        {
            let n = response[i].0;
            let matching = &response[i].1;
            assert(response@[i as int].1.wf());
            assert(resp[i as int].0 == n);
            proof {
                assert(resp.take(i + 1).drop_last() =~= resp.take(i as int));
                assert(resp.take(i + 1).last() == resp[i as int]);
            }
            let ghost done = rules_reached(rs, resp.take(i as int));
            if n < self.rules.len() {
                let node = self.rules.node(n);
                let refs = node.rule_refs();
                let mut j: usize = 0;
                assert(refs@.take(0) =~= Seq::<RuleRef<'static>>::empty());
                assert(done + refs@.take(0) =~= done);
                while j < refs.len()
                    invariant
                        0 <= j <= refs@.len(),
                        n < self.rules@.len(),
                        refs@ == self.rules.rules_at(n as int),
                        refs@ == rs.rules_before(n as int),
                        self.wf(),
                        self.rules == rs,
                        self.fact_set() == old(self).fact_set(),
                        self.outputs() == old(self).outputs(),
                        matching.wf(),
                        queues.wf(),
                        queues.rule_queue@ == old(queues).rule_queue@,
                        queues.fact_queue@ == old(queues).fact_queue@,
                        start == old(queues).match_queue@.len(),
                        queues.match_queue@.take(start) == old(queues).match_queue@,
                        rules_queued(queues.match_queue@, start, done + refs@.take(j as int), query_rules),
                        resp == crate::ruletree::response_view(response@),
                        resp == climb_spec(old(self).rule_base()@, 0, paths_view(fact.paths@), Map::empty()),
                        rs == old(self).rule_base(),
                        0 <= i < resp.len(),
                        n == resp[i as int].0,
                        matching@ == resp[i as int].1,
                        forall|b: int| 0 <= b < j ==> covers((#[trigger] refs@[b]).varmap@, resp[i as int].1),
                        forall|a: int, b: int|
                            0 <= a < i && 0 <= b < rs.rules_before(resp[a].0 as int).len() ==> covers(
                                (#[trigger] rs.rules_before(resp[a].0 as int)[b]).varmap@,
                                resp[a].1,
                            ),
                    decreases refs@.len() - j,
                {
                    let rr = &refs[j];
                    assert(rr.rule.matched.wf() && rr.varmap.wf());
                    if !keys_covered(matching, &rr.varmap) {
                        proof {
                            assert(rs.rules_before(resp[i as int].0 as int)[j as int] == *rr);
                            assert(!covers(rs.rules_before(resp[i as int].0 as int)[j as int].varmap@, resp[i as int].1));
                        }
                        return Err(KBError::Unbound);
                    }
                    let real_matching = get_real_matching(matching, &rr.varmap);
                    let act = Activation::from_matching(rr.rule.duplicate(), Some(real_matching), query_rules);
                    let ghost q0 = queues.match_queue@;
                    push_act(&mut queues.match_queue, act);
                    proof {
                        let rrs = done + refs@.take(j + 1);
                        assert(rrs =~= (done + refs@.take(j as int)).push(refs@[j as int]));
                        assert(queues.match_queue@.take(start) =~= q0.take(start));
                        assert forall|k: int| 0 <= k < rrs.len() implies is_copy_match(#[trigger] queues.match_queue@[start + k], rrs[k], query_rules) by {
                            if k < rrs.len() - 1 {
                                assert(queues.match_queue@[start + k] == q0[start + k]);
                                assert(rrs[k] == (done + refs@.take(j as int))[k]);
                            }
                        }
                    }
                    j = j + 1;
                }
                assert(refs@.take(refs@.len() as int) =~= refs@);
                assert(rules_reached(rs, resp.take(i + 1)) == done + rs.rules_before(n as int));
                assert forall|a: int, b: int|
                    0 <= a < i + 1 && 0 <= b < rs.rules_before(resp[a].0 as int).len() implies covers(
                        (#[trigger] rs.rules_before(resp[a].0 as int)[b]).varmap@,
                        resp[a].1,
                    ) by {
                    if a == i {
                        assert(refs@[b] == rs.rules_before(resp[a].0 as int)[b]);
                    }
                }
            } else {
                assert(rs.rules_before(n as int) =~= Seq::<RuleRef<'static>>::empty());
                assert(rules_reached(rs, resp.take(i + 1)) =~= done);
                assert forall|a: int, b: int|
                    0 <= a < i + 1 && 0 <= b < rs.rules_before(resp[a].0 as int).len() implies covers(
                        (#[trigger] rs.rules_before(resp[a].0 as int)[b]).varmap@,
                        resp[a].1,
                    ) by {
                }
            }
            i = i + 1;
        }
        assert(resp.take(resp.len() as int) =~= resp);
        if fact.paths.len() > usize::MAX - 2 {
            return Err(KBError::TooLarge);
        }
        self.facts.add_fact(fact);
        proof {
            self.leafy@ = self.leafy@ && leaves_only(paths_view(fact.paths@));
        }
        Ok(())
    }
}

impl<G: FactParser> KB<G> {
    /// The rule set.
    pub closed spec fn rule_base(&self) -> RuleSet<'static> {
        self.rules
    }

    /// The rules stored at node `n` of the rule set, none where there is no such node.
    pub closed spec fn stored_rules(&self, n: int) -> Seq<RuleRef<'static>> {
        self.rules.rules_before(n)
    }

    /// Adds a rule: where it waits for a fact, it is stored in the rule set under the
    /// normalized paths of that fact, read with the rule's bindings, and without the fact;
    /// otherwise it goes on at once, as a match with no new bindings.
    pub fn process_rule(&mut self, rule: MPRule<'static>, query_rules: bool, queues: &mut Queues<'static>) -> (r: Result<(), KBError>)
        requires
            old(self).wf(),
            old(queues).wf(),
            rule.matched.wf(),
        ensures
            keeps_readings(old(self).read_cache(), final(self).read_cache()),
            !(r matches Err(KBError::Knowledge(_))),
            final(self).wf(),
            final(self).grammar() == old(self).grammar(),
            final(self).activations() == old(self).activations(),
            final(queues).wf(),
            final(self).fact_set() == old(self).fact_set(),
            final(self).outputs() == old(self).outputs(),
            final(self).leaf_valued() == old(self).leaf_valued(),
            final(queues).rule_queue@ == old(queues).rule_queue@,
            final(queues).fact_queue@ == old(queues).fact_queue@,
            rule.antecedents.fact is None ==> r is Ok && final(queues).match_queue@ == old(queues).match_queue@.push(
                Activation::Match { rule, matched: None, query_rules },
            ),
            rule.antecedents.fact is Some ==> final(queues).match_queue@ == old(queues).match_queue@,
            r is Err ==> final(self).rule_base() == old(self).rule_base(),
            rule.antecedents.fact is None ==> final(self).rule_base() == old(self).rule_base(),
            rs_extends(old(self).rule_base()@, final(self).rule_base()@),
            rule.antecedents.fact is Some && r is Ok ==> exists|n: int, rr: RuleRef<'static>|
                #![trigger final(self).stored_rules(n), rr.rule]
                final(self).stored_rules(n) == old(self).stored_rules(n).push(rr)
                && rr.rule.antecedents == (Antecedents { fact: None, ..rule.antecedents })
                && rr.rule.more_antecedents == rule.more_antecedents
                && rr.rule.consequents == rule.consequents && rr.rule.matched == rule.matched
                && rr.rule.output == rule.output && forall|i: int|
                    i != n ==> #[trigger] final(self).stored_rules(i) == old(self).stored_rules(i),
    {
        proof {
            lemma_rs_extends_refl(self.rule_base()@);
        }
        match rule.antecedents.fact {
            Some(text) => {
                let ant = self.read_fact(text, Some(&rule.matched))?;
                if ant.paths.len() >= usize::MAX {
                    return Err(KBError::TooLarge);
                }
                let (varmap, normal) = self.mpparser.normalize_fact(ant);
                let MPRule { antecedents, more_antecedents, consequents, matched, output } = rule;
                let new_rule = MPRule {
                    antecedents: Antecedents {
                        fact: None,
                        transforms: antecedents.transforms,
                        conditions: antecedents.conditions,
                    },
                    more_antecedents,
                    consequents,
                    matched,
                    output,
                };
                let rule_ref = RuleRef { rule: new_rule, varmap };
                let paths = copy_paths(&normal.paths);
                let ghost old_rules = self.rules;
                self.rules.follow_and_create_paths(paths, rule_ref, 1);
                proof {
                    let n = choose|n: int|
                        0 <= n < self.rules@.len() && self.rules@[n].end_node && self.rules.rules_at(n)
                            == old_rules.rules_before(n).push(rule_ref) && forall|i: int|
                            0 <= i < self.rules@.len() && i != n ==> self.rules.rules_at(i) == old_rules.rules_before(i);
                    assert forall|m: int, i: int|
                        0 <= m < self.rules@.len() && 0 <= i < self.rules.rules_at(m).len() implies (#[trigger] self.rules.rules_at(m)[i]).rule.matched.wf()
                            && self.rules.rules_at(m)[i].varmap.wf() by {
                        if m != n {
                            assert(self.rules.rules_at(m) == old_rules.rules_before(m));
                        } else if i < old_rules.rules_before(m).len() {
                            assert(self.rules.rules_at(m)[i] == old_rules.rules_before(m)[i]);
                        }
                    }
                    assert forall|i: int| i != n implies #[trigger] self.stored_rules(i) == old(self).stored_rules(i) by {
                        if 0 <= i < self.rules@.len() {
                            assert(self.rules.rules_at(i) == old_rules.rules_before(i));
                        } else {
                            assert(old_rules.rules_before(i) == Seq::<RuleRef<'static>>::empty());
                        }
                    }
                    assert(self.stored_rules(n) == old(self).stored_rules(n).push(rule_ref));
                    assert(rule_ref.rule.antecedents == (Antecedents { fact: None, ..rule.antecedents }));
                    assert(rule_ref.rule.more_antecedents == rule.more_antecedents
                        && rule_ref.rule.consequents == rule.consequents && rule_ref.rule.matched == rule.matched
                        && rule_ref.rule.output == rule.output);
                }
                Ok(())
            },
            None => {
                let act = Activation::from_matching(rule, None, query_rules);
                push_act(&mut queues.match_queue, act);
                Ok(())
            },
        }
    }
}

impl<G: FactParser> KB<G> {
    /// Matches a rule's current antecedent against the facts already told: for every
    /// answer, a copy of the rule without that fact goes on under the answer's bindings;
    /// where the rule waits for no fact, a copy goes on with no new bindings.
    pub fn query_rule(&mut self, rule: &MPRule<'static>, query_rules: bool, queues: &mut Queues<'static>) -> (r: Result<(), KBError>)
        requires
            old(self).wf(),
            old(queues).wf(),
            rule.matched.wf(),
        ensures
            keeps_readings(old(self).read_cache(), final(self).read_cache()),
            !(r matches Err(KBError::Knowledge(_))),
            final(self).wf(),
            final(self).grammar() == old(self).grammar(),
            final(self).activations() == old(self).activations(),
            final(queues).wf(),
            final(self).fact_set() == old(self).fact_set(),
            final(self).outputs() == old(self).outputs(),
            final(self).rule_base() == old(self).rule_base(),
            final(self).leaf_valued() == old(self).leaf_valued(),
            final(queues).rule_queue@ == old(queues).rule_queue@,
            final(queues).fact_queue@ == old(queues).fact_queue@,
            old(queues).match_queue@.len() <= final(queues).match_queue@.len(),
            final(queues).match_queue@.take(old(queues).match_queue@.len() as int) == old(queues).match_queue@,
            rule.antecedents.fact is None ==> r is Ok && final(queues).match_queue@.len() == old(queues).match_queue@.len() + 1
                && is_rule_match(final(queues).match_queue@.last(), *rule, rule.antecedents, None),
            rule.antecedents.fact is Some && r is Ok ==> exists|f: &Fact| #![trigger f.paths] f.wf() && answers_queued(
                final(queues).match_queue@,
                old(queues).match_queue@.len() as int,
                *rule,
                query_spec(old(self).fact_set(), old(self).fact_set()[0], paths_view(f.paths@), Map::empty()),
            ),
    {
        match rule.antecedents.fact {
            Some(text) => {
                let fact = self.read_fact(text, Some(&rule.matched))?;
                let mut resps = self.facts.ask_fact(fact);
                let ghost answers = crate::facttree::matchings_view(resps@);
                let ghost start = queues.match_queue@.len() as int;
                let ghost stripped = Antecedents { fact: None, ..rule.antecedents };
                let ghost mut done: int = 0;
                assert(answers.skip(0) =~= answers);
                while resps.len() > 0
                    invariant
                        self.wf(),
                        self.fact_set() == old(self).fact_set(),
                        self.outputs() == old(self).outputs(),
                        self.rules == old(self).rules,
                        rule.matched.wf(),
                        crate::facttree::matchings_wf(resps@),
                        queues.wf(),
                        queues.rule_queue@ == old(queues).rule_queue@,
                        queues.fact_queue@ == old(queues).fact_queue@,
                        start == old(queues).match_queue@.len(),
                        queues.match_queue@.take(start) == old(queues).match_queue@,
                        queues.match_queue@.len() == start + done,
                        0 <= done <= answers.len(),
                        answers.len() == done + resps@.len(),
                        crate::facttree::matchings_view(resps@) == answers.skip(done),
                        stripped == (Antecedents { fact: None, ..rule.antecedents }),
                        forall|i: int| 0 <= i < done ==> is_rule_match(#[trigger] queues.match_queue@[start + i], *rule, stripped, Some(answers[i])),
                    decreases resps@.len(),
                {
                    let ghost before = resps@;
                    let ghost q0 = queues.match_queue@;
                    let resp = resps.remove(0);
                    assert(before[0].wf());
                    assert(resp == before[0]);
                    assert(crate::facttree::matchings_view(before)[0] == before[0]@);
                    assert(answers.skip(done)[0] == answers[done]);
                    assert(resp@ == answers[done]);
                    assert forall|i: int| 0 <= i < resps@.len() implies (#[trigger] resps@[i]).wf() by {
                        assert(resps@[i] == before[i + 1]);
                        assert(before[i + 1].wf());
                    }
                    assert forall|i: int| 0 <= i < resps@.len() implies #[trigger] crate::facttree::matchings_view(resps@)[i] == answers.skip(done + 1)[i] by {
                        assert(resps@[i] == before[i + 1]);
                        assert(crate::facttree::matchings_view(before)[i + 1] == answers.skip(done)[i + 1]);
                    }
                    assert(crate::facttree::matchings_view(resps@) =~= answers.skip(done + 1));
                    let mut new_rule = rule.duplicate();
                    new_rule.antecedents.fact = None;
                    let act = Activation::from_matching(new_rule, Some(resp), true);
                    push_act(&mut queues.match_queue, act);
                    proof {
                        assert(queues.match_queue@.take(start) =~= q0.take(start));
                        assert forall|i: int| 0 <= i < done + 1 implies is_rule_match(#[trigger] queues.match_queue@[start + i], *rule, stripped, Some(answers[i])) by {
                            if i < done {
                                assert(queues.match_queue@[start + i] == q0[start + i]);
                            }
                        }
                    }
                    proof {
                        done = done + 1;
                    }
                }
                assert(answers_queued(queues.match_queue@, start, *rule, answers));
                Ok(())
            },
            None => {
                let act = Activation::from_matching(rule.duplicate(), None, true);
                let ghost q0 = queues.match_queue@;
                push_act(&mut queues.match_queue, act);
                assert(queues.match_queue@.take(q0.len() as int) =~= q0);
                Ok(())
            },
        }
    }

    /// Applies to a rule whose current antecedent was matched the bindings of the match, then
    /// its transforms, then checks its conditions; where they pass, the next stage becomes
    /// current. Gives back the rule, whether it has a new stage, and whether its conditions
    /// passed.
    pub fn preprocess_matched_rule(&mut self, matching: Option<&MPMatching<'static>>, rule: MPRule<'static>) -> (r: Result<(MPRule<'static>, bool, bool), KBError>)
        requires
            old(self).wf(),
            rule.matched.wf(),
            matching matches Some(m) ==> m.wf(),
        ensures
            final(self).read_cache() == old(self).read_cache(),
            !(r matches Err(KBError::Knowledge(_))),
            final(self).wf(),
            final(self).grammar() == old(self).grammar(),
            final(self).activations() == old(self).activations(),
            final(self).fact_set() == old(self).fact_set(),
            final(self).outputs() == old(self).outputs(),
            final(self).rule_base() == old(self).rule_base(),
            final(self).leaf_valued() == old(self).leaf_valued(),
            r matches Ok((nr, new, passed)) ==> {
                &&& nr.matched.wf()
                &&& nr.consequents == rule.consequents
                &&& nr.output == rule.output
                &&& forall|k: SegKey| #[trigger] rule.matched@.contains_key(k) ==> nr.matched@.contains_key(k)
                &&& (matching matches Some(m) ==> forall|k: SegKey| #[trigger] m@.contains_key(k) ==> nr.matched@.contains_key(k))
                &&& (rule.antecedents.transforms@.len() == 0 ==> nr.matched@ == match matching {
                    Some(m) => rule.matched@.union_prefer_right(m@),
                    None => rule.matched@,
                })
                &&& (new ==> passed && rule.more_antecedents@.len() > 0 && nr.antecedents == rule.more_antecedents@[0]
                    && nr.more_antecedents@ == rule.more_antecedents@.drop_first())
                &&& (!new ==> nr.antecedents == rule.antecedents && nr.more_antecedents == rule.more_antecedents)
                &&& (passed && !new ==> rule.more_antecedents@.len() == 0)
                &&& (!passed ==> rule.antecedents.conditions@.len() > 0)
            },
    {
        let MPRule { antecedents, mut more_antecedents, consequents, mut matched, output } = rule;
        let ghost m0 = matched@;
        match matching {
            Some(m) => {
                matched.extend(m);
                assert(forall|k: SegKey| #[trigger] m@.contains_key(k) ==> matched@.contains_key(k));
            },
            None => {},
        }
        assert(forall|k: SegKey| #[trigger] m0.contains_key(k) ==> matched@.contains_key(k));
        let Antecedents { fact, transforms, conditions } = antecedents;
        if !transforms.is_empty() {
            let parser = TParser::new();
            let ghost m1 = matched@;
            matched = match parser.process_transforms(&mut self.mpparser, transforms, matched) {
                Some(m) => m,
                None => {
                    return Err(KBError::Transforms(transforms.to_string()));
                },
            };
            assert(forall|k: SegKey| #[trigger] m1.contains_key(k) ==> matched@.contains_key(k));
            assert(forall|k: SegKey| #[trigger] m0.contains_key(k) ==> matched@.contains_key(k)) by {
                assert forall|k: SegKey| #[trigger] m0.contains_key(k) implies matched@.contains_key(k) by {
                    assert(m1.contains_key(k));
                }
            }
            assert(matching matches Some(m) ==> forall|k: SegKey| #[trigger] m@.contains_key(k) ==> matched@.contains_key(k)) by {
                if let Some(m) = matching {
                    assert forall|k: SegKey| #[trigger] m@.contains_key(k) implies matched@.contains_key(k) by {
                        assert(m1.contains_key(k));
                    }
                }
            }
        }
        if !conditions.is_empty() {
            match self.mpparser.grammar.check_conditions(conditions, &matched) {
                Some(true) => {},
                Some(false) => {
                    let nr = MPRule {
                        antecedents: Antecedents { fact, transforms, conditions },
                        more_antecedents,
                        consequents,
                        matched,
                        output,
                    };
                    return Ok((nr, false, false));
                },
                None => {
                    return Err(KBError::Conditions(conditions.to_string()));
                },
            }
        }
        if more_antecedents.len() == 0 {
            let nr = MPRule {
                antecedents: Antecedents { fact, transforms, conditions },
                more_antecedents,
                consequents,
                matched,
                output,
            };
            return Ok((nr, false, true));
        }
        let ghost before = more_antecedents@;
        let next = more_antecedents.pop_front().unwrap();
        let nr = MPRule { antecedents: next, more_antecedents, consequents, matched, output };
        Ok((nr, true, true))
    }
}

/// The queue without its front, which was well formed, is well formed.
proof fn lemma_acts_drop_first(q: Seq<Activation>)
    requires
        acts_wf(q),
        q.len() > 0,
    ensures
        acts_wf(q.drop_first()),
        act_wf(q[0]),
{
    assert forall|i: int| 0 <= i < q.drop_first().len() implies act_wf(#[trigger] q.drop_first()[i]) by {
        assert(q.drop_first()[i] == q[i + 1]);
    }
}

/// The front of a queue of activations, taken out.
fn pop_act(q: &mut VecDeque<Activation<'static>>) -> (r: Option<Activation<'static>>)
    requires
        acts_wf(old(q)@),
    ensures
        acts_wf(final(q)@),
        match r {
            Some(a) => old(q)@.len() > 0 && a == old(q)@[0] && final(q)@ == old(q)@.drop_first() && act_wf(a),
            None => old(q)@.len() == 0 && final(q)@ == old(q)@,
        },
{
    proof {
        if old(q)@.len() > 0 {
            lemma_acts_drop_first(old(q)@);
        }
    }
    q.pop_front()
}

/// The text of a fact to add without bindings, as the facts told are queued.
pub open spec fn told_text(a: Activation) -> Option<Seq<char>> {
    match a {
        Activation::Fact { fact, matched: None, .. } => Some(fact@),
        _ => None,
    }
}

impl<G: FactParser> KB<G> {
    /// A text found as told stays so while the readings are kept and, where every fact
    /// stored is of leaf values, the fact set is extended.
    pub proof fn lemma_told_kept(a: &Self, b: &Self, t: Seq<char>)
        requires
            a.wf(),
            a.told_found(t),
            keeps_readings(a.read_cache(), b.read_cache()),
            b.leaf_valued() ==> a.leaf_valued() && extends(a.fact_set(), b.fact_set()),
        ensures
            b.told_found(t),
    {
        let f = a.reading(t)->0->0;
        assert(b.reading(t) == a.reading(t));
        if b.leaf_valued() && ground_leafy(f) {
            a.facts.lemma_has_root();
            lemma_found_stays_found(a.fact_set(), b.fact_set(), paths_view(f.paths@));
        }
    }
}

impl<G: FactParser> KB<G> {
    /// Goes on with a rule whose current antecedent was matched: once its bindings,
    /// transforms and conditions are applied, a rule with a new stage is queried against
    /// the facts and queued to be added again; a rule with no stage left fires, queueing
    /// its consequents with its bindings and recording its output.
    pub fn process_match(&mut self, rule: MPRule<'static>, matching: Option<&MPMatching<'static>>, query_rules: bool, queues: &mut Queues<'static>) -> (r: Result<(), KBError>)
        requires
            old(self).wf(),
            old(queues).wf(),
            rule.matched.wf(),
            matching matches Some(m) ==> m.wf(),
        ensures
            keeps_readings(old(self).read_cache(), final(self).read_cache()),
            !(r matches Err(KBError::Knowledge(_))),
            final(self).wf(),
            final(self).grammar() == old(self).grammar(),
            final(self).activations() == old(self).activations(),
            final(queues).wf(),
            final(self).fact_set() == old(self).fact_set(),
            final(self).rule_base() == old(self).rule_base(),
            final(self).leaf_valued() == old(self).leaf_valued(),
            old(queues).rule_queue@.len() <= final(queues).rule_queue@.len(),
            old(queues).match_queue@.len() <= final(queues).match_queue@.len(),
            old(queues).fact_queue@.len() <= final(queues).fact_queue@.len(),
            final(self).outputs() == old(self).outputs() || exists|o: Seq<char>| final(self).outputs() == old(self).outputs().push(o),
            r is Ok ==> {
                ||| {
                    &&& rule.antecedents.conditions@.len() > 0
                    &&& final(queues).rule_queue@ == old(queues).rule_queue@
                    &&& final(queues).match_queue@ == old(queues).match_queue@
                    &&& final(queues).fact_queue@ == old(queues).fact_queue@
                    &&& final(self).outputs() == old(self).outputs()
                }
                ||| {
                    &&& rule.more_antecedents@.len() > 0
                    &&& final(queues).rule_queue@.len() == old(queues).rule_queue@.len() + 1
                    &&& final(queues).rule_queue@.take(old(queues).rule_queue@.len() as int) == old(queues).rule_queue@
                    &&& is_advanced(final(queues).rule_queue@.last(), rule)
                    &&& final(queues).match_queue@.take(old(queues).match_queue@.len() as int) == old(queues).match_queue@
                    &&& final(queues).fact_queue@ == old(queues).fact_queue@
                    &&& final(self).outputs() == old(self).outputs()
                }
                ||| {
                    &&& rule.more_antecedents@.len() == 0
                    &&& final(queues).rule_queue@ == old(queues).rule_queue@
                    &&& final(queues).match_queue@ == old(queues).match_queue@
                    &&& final(queues).fact_queue@.take(old(queues).fact_queue@.len() as int) == old(queues).fact_queue@
                    &&& exists|mv: Map<SegKey, SegView>| #![trigger facts_queued(final(queues).fact_queue@, old(queues).fact_queue@.len() as int, rule.consequents@, mv, query_rules)]
                        facts_queued(final(queues).fact_queue@, old(queues).fact_queue@.len() as int, rule.consequents@, mv, query_rules)
                        && (rule.antecedents.transforms@.len() == 0 ==> mv == merged(rule.matched@, matching))
                    &&& rule.output is None ==> final(self).outputs() == old(self).outputs()
                }
            },
    {
        let old_len = rule.more_antecedents.len();
        let ghost rule0 = rule;
        let (nrule, new, passed) = self.preprocess_matched_rule(matching, rule)?;
        if !passed {
            return Ok(());
        }
        let mut query_rules = query_rules;
        if new {
            if nrule.more_antecedents.len() < old_len {
                query_rules = true;
            }
            let ghost mq0 = queues.match_queue@;
            if query_rules {
                self.query_rule(&nrule, query_rules, queues)?;
            }
            assert(queues.match_queue@.take(mq0.len() as int) =~= mq0);
            let act = Activation::from_rule(nrule, query_rules);
            let ghost rq0 = queues.rule_queue@;
            push_act(&mut queues.rule_queue, act);
            assert(queues.rule_queue@.take(rq0.len() as int) =~= rq0);
            Ok(())
        } else {
            let MPRule { antecedents, more_antecedents, consequents, matched, output } = nrule;
            let ghost fq0 = queues.fact_queue@;
            let ghost mv = matched@;
            let mut i: usize = 0;
            while i < consequents.len()
                invariant
                    0 <= i <= consequents@.len(),
                    matched.wf(),
                    mv == matched@,
                    self.wf(),
                    self.fact_set() == old(self).fact_set(),
                    self.outputs() == old(self).outputs(),
                    self.rule_base() == old(self).rule_base(),
                    queues.wf(),
                    queues.rule_queue@ == old(queues).rule_queue@,
                    queues.match_queue@ == old(queues).match_queue@,
                    fq0 == old(queues).fact_queue@,
                    queues.fact_queue@.take(fq0.len() as int) == fq0,
                    facts_queued(queues.fact_queue@, fq0.len() as int, consequents@.take(i as int), mv, query_rules),
                decreases consequents@.len() - i,
            {
                let ghost q0 = queues.fact_queue@;
                let act = Activation::from_fact(consequents[i], Some(matched.duplicate()), query_rules);
                push_act(&mut queues.fact_queue, act);
                proof {
                    assert(queues.fact_queue@.take(fq0.len() as int) =~= q0.take(fq0.len() as int));
                    assert forall|j: int| 0 <= j < i + 1 implies (match #[trigger] queues.fact_queue@[fq0.len() + j] {
                        Activation::Fact { fact, matched: Some(mm), query_rules: qr } => fact == consequents@.take(i + 1)[j] && mm@ == mv && qr == query_rules,
                        _ => false,
                    }) by {
                        if j < i {
                            assert(queues.fact_queue@[fq0.len() + j] == q0[fq0.len() + j]);
                            assert(consequents@.take(i + 1)[j] == consequents@.take(i as int)[j]);
                        }
                    }
                }
                i = i + 1;
            }
            assert(consequents@.take(consequents@.len() as int) =~= consequents@);
            assert(facts_queued(queues.fact_queue@, fq0.len() as int, rule0.consequents@, mv, query_rules));
            match output {
                Some(o) => {
                    let f = self.read_fact(o, Some(&matched))?;
                    let ghost before = self.printed@;
                    self.printed.push(f.text.clone());
                    assert(self.outputs() =~= old(self).outputs().push(f.text@));
                    Ok(())
                },
                None => Ok(()),
            }
        }
    }

    /// Does the work waiting in the queues, one activation at a time, taking rules first,
    /// then matches, then facts, until none is left or `budget` activations were done.
    /// Says whether the queues were emptied.
    pub fn process_activations(&mut self, queues: &mut Queues<'static>, budget: usize) -> (r: Result<bool, KBError>)
        requires
            old(self).wf(),
            old(queues).wf(),
        ensures
            keeps_readings(old(self).read_cache(), final(self).read_cache()),
            old(queues).rule_queue@.len() == 0 && old(queues).match_queue@.len() == 0
                && old(queues).fact_queue@.len() == 0 ==> r == Ok::<bool, KBError>(true),
            r == Ok::<bool, KBError>(true) ==> forall|i: int|
                0 <= i < old(queues).fact_queue@.len() && #[trigger] told_text(old(queues).fact_queue@[i]) is Some
                    ==> final(self).told_found(told_text(old(queues).fact_queue@[i])->0),
            !(r matches Err(KBError::Knowledge(_))),
            final(self).wf(),
            final(self).grammar() == old(self).grammar(),
            r is Ok ==> old(self).activations() <= final(self).activations() <= old(self).activations() + budget,
            r == Ok::<bool, KBError>(false) ==> final(self).activations() == old(self).activations() + budget,
            final(queues).wf(),
            r matches Ok(done) ==> done == (final(queues).rule_queue@.len() == 0
                && final(queues).match_queue@.len() == 0 && final(queues).fact_queue@.len() == 0),
            final(self).leaf_valued() ==> old(self).leaf_valued() && extends(old(self).fact_set(), final(self).fact_set()),
            old(self).outputs().is_prefix_of(final(self).outputs()),
            keeps_rules(old(self).rule_base(), final(self).rule_base()),
            rs_extends(old(self).rule_base()@, final(self).rule_base()@),
    {
        proof {
            lemma_extends_refl(self.fact_set());
            lemma_rs_extends_refl(self.rule_base()@);
            assert(self.outputs().is_prefix_of(self.outputs())) by {
                assert(self.outputs() =~= self.outputs().subrange(0, self.outputs().len() as int));
            }
            assert forall|n: int| self.rule_base().rules_before(n).is_prefix_of(#[trigger] self.rule_base().rules_before(n)) by {
                let x = self.rule_base().rules_before(n);
                assert(x =~= x.subrange(0, x.len() as int));
            }
        }
        let ghost init = queues.fact_queue@;
        let ghost n = init.len() as int;
        let ghost mut popped: int = 0;
        proof {
            assert(queues.fact_queue@.subrange(0, n - popped) =~= init.skip(popped));
        }
        let mut steps: usize = 0;
        while steps < budget
            invariant
                self.wf(),
                queues.wf(),
                self.grammar() == old(self).grammar(),
                self.activations() == old(self).activations() + steps,
                steps <= budget,
                steps == 0 ==> *queues == *old(queues),
                old(queues).rule_queue@.len() == 0 && old(queues).match_queue@.len() == 0
                    && old(queues).fact_queue@.len() == 0 ==> steps == 0,
                init == old(queues).fact_queue@,
                n == init.len(),
                0 <= popped,
                popped <= n ==> queues.fact_queue@.len() >= n - popped
                    && queues.fact_queue@.subrange(0, n - popped) == init.skip(popped),
                forall|i: int| 0 <= i < n && i < popped && #[trigger] told_text(init[i]) is Some
                    ==> self.told_found(told_text(init[i])->0),
                keeps_readings(old(self).read_cache(), self.read_cache()),
                self.leaf_valued() ==> old(self).leaf_valued() && extends(old(self).fact_set(), self.fact_set()),
                old(self).outputs().is_prefix_of(self.outputs()),
                keeps_rules(old(self).rule_base(), self.rule_base()),
                rs_extends(old(self).rule_base()@, self.rule_base()@),
            decreases budget - steps,
        {
            let ghost fs0 = self.fact_set();
            let ghost out0 = self.outputs();
            let ghost rb0 = self.rule_base();
            let ghost kb0 = *self;
            let ghost fq0 = queues.fact_queue@;
            let ghost from_facts = false;
            let act = match pop_act(&mut queues.rule_queue) {
                Some(a) => a,
                None => match pop_act(&mut queues.match_queue) {
                    Some(a) => a,
                    None => match pop_act(&mut queues.fact_queue) {
                        Some(a) => {
                            proof {
                                from_facts = true;
                            }
                            a
                        },
                        None => {
                            return Ok(true);
                        },
                    },
                },
            };
            let ghost fq1 = queues.fact_queue@;
            proof {
                if from_facts && popped < n {
                    assert(fq0.subrange(0, n - popped)[0] == fq0[0]);
                    assert(init.skip(popped)[0] == init[popped]);
                    assert(fq1.subrange(0, n - popped - 1) =~= init.skip(popped + 1)) by {
                        assert forall|j: int| 0 <= j < n - popped - 1 implies #[trigger] fq1.subrange(0, n - popped - 1)[j] == init.skip(popped + 1)[j] by {
                            assert(fq1[j] == fq0[j + 1]);
                            assert(fq0.subrange(0, n - popped)[j + 1] == init.skip(popped)[j + 1]);
                        }
                    }
                }
            }
            let ghost cur = popped;
            proof {
                if from_facts {
                    popped = popped + 1;
                }
            }
            match act {
                Activation::Fact { fact, matched, query_rules } => {
                    let f = match &matched {
                        Some(m) => self.read_fact(fact, Some(m))?,
                        None => self.read_fact(fact, None)?,
                    };
                    let ghost kb1 = *self;
                    let known = self.facts.ask_fact_bool(f);
                    if !known {
                        let res = self.process_fact(f, query_rules, queues);
                        proof {
                            if self.leaf_valued() {
                                lemma_extends_trans(old(self).fact_set(), fs0, self.fact_set());
                            }
                        }
                        res?;
                    }
                    proof {
                        lemma_keeps_trans(old(self).read_cache(), kb0.read_cache(), kb1.read_cache());
                        lemma_keeps_trans(old(self).read_cache(), kb1.read_cache(), self.read_cache());
                        lemma_extends_refl(kb0.fact_set());
                        lemma_extends_refl(kb1.fact_set());
                        assert forall|i: int| 0 <= i < n && i < popped && #[trigger] told_text(init[i]) is Some
                            implies self.told_found(told_text(init[i])->0) by {
                            if i < cur {
                                Self::lemma_told_kept(&kb0, &kb1, told_text(init[i])->0);
                                Self::lemma_told_kept(&kb1, self, told_text(init[i])->0);
                            } else {
                                assert(i == cur && from_facts);
                                assert(act == init[i]);
                                assert(matched is None);
                                assert(told_text(init[i])->0 == fact@);
                                if known {
                                    assert(self.told_found(fact@));
                                }
                            }
                        }
                    }
                },
                Activation::MPRule { rule, query_rules } => {
                    let res = self.process_rule(rule, query_rules, queues);
                    proof {
                        lemma_rs_extends_trans(old(self).rule_base()@, rb0@, self.rule_base()@);
                        assert forall|n: int| old(self).rule_base().rules_before(n).is_prefix_of(#[trigger] self.rule_base().rules_before(n)) by {
                            assert(old(self).rule_base().rules_before(n).is_prefix_of(rb0.rules_before(n)));
                            if res is Ok && rule.antecedents.fact is Some {
                                let (k, rr) = choose|k: int, rr: RuleRef<'static>|
                                    #![trigger self.stored_rules(k), rr.rule]
                                    self.stored_rules(k) == rb0.rules_before(k).push(rr)
                                    && rr.rule.antecedents == (Antecedents { fact: None, ..rule.antecedents })
                                    && rr.rule.more_antecedents == rule.more_antecedents
                                    && rr.rule.consequents == rule.consequents && rr.rule.matched == rule.matched
                                    && rr.rule.output == rule.output && forall|i: int|
                                        i != k ==> #[trigger] self.stored_rules(i) == rb0.rules_before(i);
                                if n == k {
                                    assert(self.stored_rules(n) == rb0.rules_before(n).push(rr));
                                    let x = rb0.rules_before(n);
                                    assert(x.is_prefix_of(x.push(rr))) by {
                                        assert(x =~= x.push(rr).subrange(0, x.len() as int));
                                    }
                                    lemma_prefix_trans(old(self).rule_base().rules_before(n), x, self.rule_base().rules_before(n));
                                } else {
                                    assert(self.stored_rules(n) == rb0.rules_before(n));
                                }
                            } else {
                                assert(self.rule_base() == rb0);
                            }
                        }
                    }
                    res?;
                },
                Activation::Match { rule, matched, query_rules } => {
                    let res = match &matched {
                        Some(m) => self.process_match(rule, Some(m), query_rules, queues),
                        None => self.process_match(rule, None, query_rules, queues),
                    };
                    proof {
                        if self.outputs() != out0 {
                            let o = choose|o: Seq<char>| self.outputs() == out0.push(o);
                            assert(out0.is_prefix_of(self.outputs())) by {
                                assert(out0 =~= out0.push(o).subrange(0, out0.len() as int));
                            }
                            lemma_prefix_trans(old(self).outputs(), out0, self.outputs());
                        }
                    }
                    res?;
                },
            }
            let ghost d1: nat = self.done@ + 1;
            self.done = Ghost(d1);
            steps = steps + 1;
        }
        Ok(queues.rule_queue.len() == 0 && queues.match_queue.len() == 0 && queues.fact_queue.len() == 0)
    }

    /// Tells a text of knowledge, without the white space around it: the grammar reads it,
    /// and what it reads is told as `tell_tree` tells it. Says whether the work ran out.
    pub fn tell(&mut self, knowledge: &str) -> (r: Result<bool, KBError>)
        requires
            old(self).wf(),
        ensures
            final(self).wf(),
            final(self).grammar() == old(self).grammar(),
            r matches Err(KBError::Knowledge(_)) ==> final(self).fact_set() == old(self).fact_set()
                && final(self).outputs() == old(self).outputs() && final(self).rule_base() == old(self).rule_base()
                && final(self).leaf_valued() == old(self).leaf_valued(),
            final(self).leaf_valued() ==> old(self).leaf_valued() && extends(old(self).fact_set(), final(self).fact_set()),
            final(self).leaf_valued() ==> Self::keeps_found(old(self).fact_set(), final(self).fact_set()),
            old(self).outputs().is_prefix_of(final(self).outputs()),
            keeps_rules(old(self).rule_base(), final(self).rule_base()),
            rs_extends(old(self).rule_base()@, final(self).rule_base()@),
            keeps_readings(old(self).read_cache(), final(self).read_cache()),
            forall|t: Seq<char>| #[trigger] old(self).told_found(t) ==> final(self).told_found(t),
            match old(self).grammar().knowledge_tree(trimmed(knowledge@)) {
                Ok(tree) => {
                    &&& !(r matches Err(KBError::Knowledge(_)))
                    &&& r == Ok::<bool, KBError>(true) ==> forall|i: int|
                        0 <= i < named_texts(tree.children@, "fact"@).len() ==> final(self).told_found(
                            #[trigger] named_texts(tree.children@, "fact"@)[i],
                        )
                    &&& r == Ok::<bool, KBError>(false) ==> final(self).activations() == old(self).activations() + usize::MAX
                    &&& named_texts(tree.children@, "fact"@).len() == 0 && no_rules(tree.children@) ==> r == Ok::<bool, KBError>(true)
                },
                Err(e) => r == Err::<bool, KBError>(KBError::Knowledge(e)),
            },
    {
        proof {
            lemma_rs_extends_refl(self.rule_base()@);
            lemma_extends_refl(self.fact_set());
            assert(self.outputs() =~= self.outputs().subrange(0, self.outputs().len() as int));
            assert forall|n: int| self.rule_base().rules_before(n).is_prefix_of(#[trigger] self.rule_base().rules_before(n)) by {
                let x = self.rule_base().rules_before(n);
                assert(x =~= x.subrange(0, x.len() as int));
            }
            old(self).facts.lemma_has_root();
        }
        let text = trim(knowledge);
        match self.mpparser.grammar.parse_knowledge(text.as_str()) {
            Ok(tree) => self.tell_tree(&tree),
            Err(e) => Err(KBError::Knowledge(e)),
        }
    }

    /// Tells what a text of knowledge was read as: its rules, then its facts, each fact read
    /// without bindings, are added, and every consequence drawn, until the work runs out or
    /// a `usize` worth of activations is done. Says whether the work ran out; where it did,
    /// every fact of the text was read, and the fact set finds it where it is of leaf values
    /// and without variables and every fact stored is of leaf values.
    pub fn tell_tree(&mut self, tree: &ParseNode) -> (r: Result<bool, KBError>)
        requires
            old(self).wf(),
        ensures
            final(self).wf(),
            final(self).grammar() == old(self).grammar(),
            !(r matches Err(KBError::Knowledge(_))),
            r == Ok::<bool, KBError>(true) ==> forall|i: int|
                0 <= i < named_texts(tree.children@, "fact"@).len() ==> final(self).told_found(
                    #[trigger] named_texts(tree.children@, "fact"@)[i],
                ),
            forall|t: Seq<char>| #[trigger] old(self).told_found(t) ==> final(self).told_found(t),
            final(self).leaf_valued() ==> old(self).leaf_valued() && extends(old(self).fact_set(), final(self).fact_set()),
            final(self).leaf_valued() ==> Self::keeps_found(old(self).fact_set(), final(self).fact_set()),
            old(self).outputs().is_prefix_of(final(self).outputs()),
            keeps_rules(old(self).rule_base(), final(self).rule_base()),
            rs_extends(old(self).rule_base()@, final(self).rule_base()@),
            keeps_readings(old(self).read_cache(), final(self).read_cache()),
            r == Ok::<bool, KBError>(false) ==> final(self).activations() == old(self).activations() + usize::MAX,
            r is Ok ==> old(self).activations() <= final(self).activations() <= old(self).activations() + usize::MAX,
            named_texts(tree.children@, "fact"@).len() == 0 && no_rules(tree.children@) ==> r == Ok::<bool, KBError>(true),
    {
        let pr = self.mpparser.read_knowledge(tree);
        proof {
            if no_rules(tree.children@) {
                lemma_no_rules_read(pr.rules@, tree.children@);
            }
        }
        let ParseResult { facts, mut rules } = pr;
        let ghost ts = named_texts(tree.children@, "fact"@);
        let ghost nr = rules@.len();
        let mut queues = Queues::new();
        while rules.len() > 0
            invariant
                queues.wf(),
                queues.fact_queue@.len() == 0,
                queues.match_queue@.len() == 0,
                queues.rule_queue@.len() + rules@.len() == nr,
                forall|i: int| 0 <= i < rules@.len() ==> (#[trigger] rules@[i]).matched.wf(),
            decreases rules@.len(),
        {
            let ghost before = rules@;
            let rule = rules.remove(0);
            assert(before[0].matched.wf());
            assert forall|i: int| 0 <= i < rules@.len() implies (#[trigger] rules@[i]).matched.wf() by {
                assert(rules@[i] == before[i + 1]);
                assert(before[i + 1].matched.wf());
            }
            push_act(&mut queues.rule_queue, Activation::from_rule(rule, true));
        }
        let mut j: usize = 0;
        while j < facts.len()
            invariant
                0 <= j <= facts@.len(),
                queues.wf(),
                queues.match_queue@.len() == 0,
                queues.rule_queue@.len() == nr,
                texts_view(facts@) == ts,
                queues.fact_queue@.len() == j,
                forall|i: int| 0 <= i < j ==> #[trigger] told_text(queues.fact_queue@[i]) == Some(ts[i]),
            decreases facts@.len() - j,
        {
            let ghost q0 = queues.fact_queue@;
            let act = Activation::from_fact(facts[j], None, false);
            push_act(&mut queues.fact_queue, act);
            proof {
                assert(ts[j as int] == facts@[j as int]@);
                assert forall|i: int| 0 <= i < j + 1 implies #[trigger] told_text(queues.fact_queue@[i]) == Some(ts[i]) by {
                    if i < j {
                        assert(queues.fact_queue@[i] == q0[i]);
                    }
                }
            }
            j = j + 1;
        }
        let ghost fq = queues.fact_queue@;
        let r = self.process_activations(&mut queues, usize::MAX);
        proof {
            assert forall|t: Seq<char>| #[trigger] old(self).told_found(t) implies self.told_found(t) by {
                Self::lemma_told_kept(&*old(self), &*self, t);
            }
            assert(texts_view(facts@).len() == facts@.len());
            if r == Ok::<bool, KBError>(true) {
                assert forall|i: int| 0 <= i < ts.len() implies self.told_found(#[trigger] ts[i]) by {
                    assert(told_text(fq[i]) == Some(ts[i]));
                }
            }
            if self.leaf_valued() {
                old(self).facts.lemma_has_root();
                assert forall|ps: Seq<Seq<SegView>>|
                    var_free(ps) && query_spec(old(self).fact_set(), old(self).fact_set()[0], ps, Map::empty()).len() > 0 implies #[trigger] query_spec(
                        self.fact_set(),
                        self.fact_set()[0],
                        ps,
                        Map::empty(),
                    ).len() > 0 by {
                    lemma_found_stays_found(old(self).fact_set(), self.fact_set(), ps);
                }
            }
        }
        r
    }

    /// The answers to the last fact of a text, used as a query against the facts told or
    /// drawn: every matching of its variables under which it is there.
    pub fn ask_matchings(&mut self, knowledge: &str) -> (r: Result<Vec<MPMatching<'static>>, KBError>)
        requires
            old(self).wf(),
        ensures
            keeps_readings(old(self).read_cache(), final(self).read_cache()),
            final(self).wf(),
            final(self).grammar() == old(self).grammar(),
            final(self).activations() == old(self).activations(),
            final(self).fact_set() == old(self).fact_set(),
            final(self).outputs() == old(self).outputs(),
            final(self).leaf_valued() == old(self).leaf_valued(),
            final(self).rule_base() == old(self).rule_base(),
            final(self).stored() == old(self).stored(),
            r matches Err(e) ==> e is Knowledge || e is NoFact || e is Fact,
            r matches Ok(v) ==> exists|t: Seq<char>| #![trigger final(self).reading(t)]
                final(self).reading(t) matches Some(Some(f)) && crate::facttree::matchings_view(v@) == query_spec(
                    old(self).fact_set(),
                    old(self).fact_set()[0],
                    paths_view(f.paths@),
                    Map::empty(),
                ),
            match old(self).grammar().knowledge_tree(knowledge@) {
                Ok(tree) => {
                    &&& !(r matches Err(KBError::Knowledge(_)))
                    &&& (r matches Err(KBError::NoFact)) <==> named_texts(tree.children@, "fact"@).len() == 0
                    &&& named_texts(tree.children@, "fact"@).len() > 0 ==> (final(self).reading(named_texts(tree.children@, "fact"@).last()) matches Some(o)
                        && match r {
                            Ok(v) => o matches Some(f) && crate::facttree::matchings_view(v@) == query_spec(
                                old(self).fact_set(),
                                old(self).fact_set()[0],
                                paths_view(f.paths@),
                                Map::empty(),
                            ),
                            Err(e) => o is None && e is Fact,
                        })
                    &&& named_texts(tree.children@, "fact"@).len() > 0 && old(self).told_found(named_texts(tree.children@, "fact"@).last()) && old(self).leaf_valued()
                        && ground_leafy(old(self).reading(named_texts(tree.children@, "fact"@).last())->0->0) ==> (r matches Ok(v) && v@.len() > 0)
                },
                Err(e) => r == Err::<Vec<MPMatching<'static>>, KBError>(KBError::Knowledge(e)),
            },
    {
        match self.mpparser.grammar.parse_knowledge(knowledge) {
            Ok(tree) => {
                let r = self.ask_tree(&tree);
                proof {
                    if r is Ok {
                        let t = named_texts(tree.children@, "fact"@).last();
                        assert(self.reading(t) is Some);
                    }
                }
                r
            },
            Err(e) => Err(KBError::Knowledge(e)),
        }
    }

    /// The answers to the last fact of what a text of knowledge was read as, used as a query
    /// against the facts told or drawn: that fact's text is read without bindings (or its
    /// reading so far taken again), and the answers are every matching of its variables
    /// under which the fact set finds it. A fact told before, found as told, is answered.
    pub fn ask_tree(&mut self, tree: &ParseNode) -> (r: Result<Vec<MPMatching<'static>>, KBError>)
        requires
            old(self).wf(),
        ensures
            keeps_readings(old(self).read_cache(), final(self).read_cache()),
            final(self).wf(),
            final(self).grammar() == old(self).grammar(),
            final(self).activations() == old(self).activations(),
            final(self).fact_set() == old(self).fact_set(),
            final(self).outputs() == old(self).outputs(),
            final(self).leaf_valued() == old(self).leaf_valued(),
            final(self).rule_base() == old(self).rule_base(),
            final(self).stored() == old(self).stored(),
            (r matches Err(KBError::NoFact)) <==> named_texts(tree.children@, "fact"@).len() == 0,
            named_texts(tree.children@, "fact"@).len() > 0 ==> (final(self).reading(
                named_texts(tree.children@, "fact"@).last(),
            ) matches Some(o) && match r {
                Ok(v) => o matches Some(f) && crate::facttree::matchings_view(v@) == query_spec(
                    old(self).fact_set(),
                    old(self).fact_set()[0],
                    paths_view(f.paths@),
                    Map::empty(),
                ),
                Err(e) => o is None && e is Fact,
            }),
            named_texts(tree.children@, "fact"@).len() > 0 && old(self).told_found(named_texts(tree.children@, "fact"@).last())
                && old(self).leaf_valued() && ground_leafy(old(self).reading(named_texts(tree.children@, "fact"@).last())->0->0)
                ==> (r matches Ok(v) && v@.len() > 0),
    {
        let ghost ts = named_texts(tree.children@, "fact"@);
        let pr = self.mpparser.read_knowledge(tree);
        let ParseResult { mut facts, rules } = pr;
        let ghost fs = facts@;
        assert(texts_view(fs) == ts);
        assert(texts_view(fs).len() == fs.len());
        let text = match facts.pop() {
            Some(t) => t,
            None => {
                return Err(KBError::NoFact);
            },
        };
        assert(text@ == ts.last());
        let ghost kb0 = *self;
        let res = self.read_fact(text, None);
        let f = match res {
            Ok(f) => f,
            Err(e) => {
                return Err(e);
            },
        };
        proof {
            if kb0.reading(text@) is Some {
                assert(self.reading(text@) == kb0.reading(text@));
            }
        }
        let v = self.facts.ask_fact(f);
        Ok(v)
    }

    /// Whether the last fact of a text, used as a query, has an answer among the facts told
    /// or drawn.
    pub fn ask(&mut self, knowledge: &str) -> (r: Result<bool, KBError>)
        requires
            old(self).wf(),
        ensures
            keeps_readings(old(self).read_cache(), final(self).read_cache()),
            final(self).wf(),
            final(self).grammar() == old(self).grammar(),
            final(self).activations() == old(self).activations(),
            final(self).fact_set() == old(self).fact_set(),
            final(self).outputs() == old(self).outputs(),
            final(self).leaf_valued() == old(self).leaf_valued(),
            final(self).rule_base() == old(self).rule_base(),
            final(self).stored() == old(self).stored(),
            r matches Err(e) ==> e is Knowledge || e is NoFact || e is Fact,
            r matches Ok(b) ==> exists|t: Seq<char>| #![trigger final(self).reading(t)]
                final(self).reading(t) matches Some(Some(f)) && b == (query_spec(
                    old(self).fact_set(),
                    old(self).fact_set()[0],
                    paths_view(f.paths@),
                    Map::empty(),
                ).len() > 0),
            match old(self).grammar().knowledge_tree(knowledge@) {
                Ok(tree) => {
                    &&& !(r matches Err(KBError::Knowledge(_)))
                    &&& (r matches Err(KBError::NoFact)) <==> named_texts(tree.children@, "fact"@).len() == 0
                    &&& named_texts(tree.children@, "fact"@).len() > 0 ==> (final(self).reading(named_texts(tree.children@, "fact"@).last()) matches Some(o)
                        && match r {
                            Ok(b) => o matches Some(f) && b == (query_spec(
                                old(self).fact_set(),
                                old(self).fact_set()[0],
                                paths_view(f.paths@),
                                Map::empty(),
                            ).len() > 0),
                            Err(e) => o is None && e is Fact,
                        })
                    &&& named_texts(tree.children@, "fact"@).len() > 0 && old(self).told_found(named_texts(tree.children@, "fact"@).last()) && old(self).leaf_valued()
                        && ground_leafy(old(self).reading(named_texts(tree.children@, "fact"@).last())->0->0) ==> r == Ok::<bool, KBError>(true)
                },
                Err(e) => r == Err::<bool, KBError>(KBError::Knowledge(e)),
            },
    {
        let v = self.ask_matchings(knowledge)?;
        Ok(v.len() > 0)
    }
}

impl<G: FactParser> KBase for KB<G> {
    open spec fn kb_wf(&self) -> bool {
        self.wf()
    }

    open spec fn kb_facts_of(&self, knowledge: Seq<char>) -> Option<Seq<Seq<char>>> {
        match self.grammar().knowledge_tree(knowledge) {
            Ok(tree) => Some(named_texts(tree.children@, "fact"@)),
            Err(_) => None,
        }
    }

    open spec fn kb_told_found(&self, t: Seq<char>) -> bool {
        self.told_found(t)
    }

    open spec fn kb_ground(&self, t: Seq<char>) -> bool {
        self.reading(t) matches Some(Some(f)) && self.leaf_valued() && ground_leafy(f)
    }

    open spec fn kb_answered(&self, t: Seq<char>) -> bool {
        self.reading(t) matches Some(Some(f)) && query_spec(
            self.fact_set(),
            self.fact_set()[0],
            paths_view(f.paths@),
            Map::empty(),
        ).len() > 0
    }

    fn tell(&mut self, knowledge: &str) -> (r: Result<bool, KBError>)
        ensures
            r matches Err(KBError::Knowledge(_)) ==> final(self).fact_set() == old(self).fact_set()
                && final(self).outputs() == old(self).outputs() && final(self).rule_base() == old(self).rule_base()
                && final(self).leaf_valued() == old(self).leaf_valued(),
            final(self).leaf_valued() ==> old(self).leaf_valued() && extends(old(self).fact_set(), final(self).fact_set()),
            final(self).leaf_valued() ==> Self::keeps_found(old(self).fact_set(), final(self).fact_set()),
            old(self).outputs().is_prefix_of(final(self).outputs()),
            keeps_rules(old(self).rule_base(), final(self).rule_base()),
            rs_extends(old(self).rule_base()@, final(self).rule_base()@),
            r == Ok::<bool, KBError>(false) ==> final(self).activations() == old(self).activations() + usize::MAX,
    {
        KB::tell(self, knowledge)
    }

    fn ask(&mut self, knowledge: &str) -> (r: Result<bool, KBError>)
        ensures
            final(self).fact_set() == old(self).fact_set(),
            final(self).outputs() == old(self).outputs(),
            final(self).leaf_valued() == old(self).leaf_valued(),
            final(self).rule_base() == old(self).rule_base(),
            final(self).stored() == old(self).stored(),
    {
        let ghost kb0 = *self;
        let r = KB::ask(self, knowledge);
        proof {
            assert forall|t: Seq<char>| #[trigger] kb0.told_found(t) implies self.told_found(t) by {
                lemma_extends_refl(kb0.fact_set());
                Self::lemma_told_kept(&kb0, self, t);
            }
        }
        r
    }
}

} // verus!
