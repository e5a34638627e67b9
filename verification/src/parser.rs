//! Reading facts: from the parse trees that the grammar's parser hands over to facts held as
//! the list of the paths of their trees.
use vstd::prelude::*;

use crate::constants::{var_range_prefix, var_range_prefix_str, var_rule_name};
use crate::fact::{leaf_text, FLexicon, Fact};
use crate::lexicon::{leak, var_text, Lexicon};
use crate::matching::{inverted, lemma_inverted_push, lemma_last_value_index, MPMatching, SegKey};
use crate::parsetree::ParseNode;
use crate::activation::ParseResult;
use crate::ruletree::{Antecedents, MPRule};
use std::collections::VecDeque;
use crate::path::{all_wf, paths_view, segs_view, substituted_paths, MPPath};
use crate::segment::{make_seg, seg_key, MPSegment, SegView};
use crate::text::{decimal, has_prefix, lemma_decimal_injective, str_eq, str_starts_with, usize_decimal};

verus! {

/// The parsers that pest derives from the grammars: the user's grammar of facts and
/// knowledge, and the grammars of numeric expressions and conditions, which compute in
/// floating point. Each hands back the parse tree of a text read from one start production,
/// or `None` (or the parser's message) where the text does not match it. Of what they hand
/// back, only this is assumed: the trees that `parse_knowledge` and `parse_var_range` read
/// are functions of the text, `knowledge_tree` and `var_range_tree`, which say nothing of
/// what those trees are.
pub trait FactParser {
    /// The tree that `parse_knowledge` reads from a text, or the parser's message: a function
    /// of the text, whatever it is for a given grammar.
    closed spec fn knowledge_tree(&self, text: Seq<char>) -> Result<ParseNode, String> {
        arbitrary()
    }

    /// The tree of a whole text of knowledge, read from the production `knowledge`.
    fn parse_knowledge(&self, text: &str) -> (r: Result<ParseNode, String>)
        ensures
            r == self.knowledge_tree(text@),
    ;

    /// The tree of a fact, read from the production `fact`.
    fn parse_fact(&self, text: &str) -> Option<ParseNode>;

    /// The tree that `parse_var_range` reads from a text: a function of the text, whatever
    /// it is for a given grammar.
    closed spec fn var_range_tree(&self, text: Seq<char>) -> Option<ParseNode> {
        arbitrary()
    }

    /// The tree of a value bound to a variable, read from the production `var_range`.
    fn parse_var_range(&self, text: &str) -> (r: Option<ParseNode>)
        ensures
            r == self.var_range_tree(text@),
    ;

    /// The value of a numeric expression under a matching, rendered as decimal text.
    fn eval_num(&self, expr: &str, matching: &MPMatching) -> Option<String>;

    /// Whether the numeric conditions hold under a matching.
    fn check_conditions(&self, source: &str, matching: &MPMatching) -> Option<bool>;
}

/// A store of strings, each kept once and for the rest of the program.
pub struct StringCache {
    strings: Vec<&'static str>,
}

impl View for StringCache {
    type V = Seq<Seq<char>>;

    closed spec fn view(&self) -> Seq<Seq<char>> {
        self.strings@.map_values(|s: &'static str| s@)
    }
}

impl StringCache {
    /// No string is kept twice.
    pub closed spec fn wf(&self) -> bool {
        forall|i: int, j: int|
            0 <= i < self@.len() && 0 <= j < self@.len() && i != j ==> #[trigger] self@[i]
                != #[trigger] self@[j]
    }

    /// An empty store.
    pub fn new() -> (r: StringCache)
        ensures
            r.wf(),
            r@ == Seq::<Seq<char>>::empty(),
    {
        let r = StringCache { strings: Vec::new() };
        assert(r@ =~= Seq::<Seq<char>>::empty());
        r
    }

    /// The kept string equal to `s`: the one kept before where there is one, else a new one.
    pub fn intern(&mut self, s: &str) -> (r: &'static str)
        requires
            old(self).wf(),
        ensures
            final(self).wf(),
            r@ == s@,
            old(self)@.contains(s@) ==> final(self)@ == old(self)@,
            !old(self)@.contains(s@) ==> final(self)@ == old(self)@.push(s@),
    {
        let mut i: usize = 0;
        while i < self.strings.len()
            invariant
                0 <= i <= self.strings.len(),
                self.wf(),
                forall|j: int| 0 <= j < i ==> #[trigger] self@[j] != s@,
            decreases self.strings.len() - i,
        {
            let t = self.strings[i];
            assert(self@[i as int] == t@);
            if str_eq(t, s) {
                return t;
            }
            i = i + 1;
        }
        let kept: &'static String = leak(Box::new(s.to_string()));
        let r: &'static str = kept.as_str();
        let ghost before = self@;
        self.strings.push(r);
        proof {
            assert(self@ =~= before.push(s@));
        }
        r
    }
}

/// A production whose name marks it as logical: variables can stand for what it matches.
pub open spec fn can_be_var(name: Seq<char>) -> bool {
    has_prefix(name, var_range_prefix())
}

/// The segment of a parse node that is the `index`-th child of its parent: it keeps the text
/// the node matched where it is logical or a leaf, and its position otherwise.
pub open spec fn node_seg(t: ParseNode, index: nat) -> SegView {
    let is_leaf = t.children@.len() == 0;
    let text = if can_be_var(t.name@) || is_leaf {
        t.text@
    } else {
        decimal(index)
    };
    make_seg(t.name@, text, is_leaf)
}

/// Variables bound to the trees of their values, as plain values.
pub open spec fn bindings_view(vs: Seq<(&MPSegment, Option<ParseNode>)>) -> Seq<(SegView, Option<ParseNode>)> {
    vs.map_values(|e: (&MPSegment, Option<ParseNode>)| (e.0@, e.1))
}

/// Each key of the entries `es`, with the tree that the grammar `g` reads back from the text
/// of its value by the production `var_range`, whatever the value is, leaf or not.
pub open spec fn values_read<G: FactParser>(g: G, es: Seq<(SegView, SegView)>) -> Seq<(SegView, Option<ParseNode>)> {
    es.map_values(|e: (SegView, SegView)| (e.0, g.var_range_tree(e.1.text)))
}

/// The tree bound to the variable of identity `k` by the first binding for it, if any: an
/// inner `None` where its value could not be read back.
pub open spec fn bound_tree(vs: Seq<(SegView, Option<ParseNode>)>, k: SegKey) -> Option<Option<ParseNode>>
    decreases vs.len(),
{
    if vs.len() == 0 {
        None
    } else if seg_key(vs[0].0) == k {
        Some(vs[0].1)
    } else {
        bound_tree(vs.drop_first(), k)
    }
}

/// `d` in front of the paths of `o`, where there are any.
pub open spec fn opt_prepend(d: Seq<Seq<SegView>>, o: Option<Seq<Seq<SegView>>>) -> Option<Seq<Seq<SegView>>> {
    match o {
        Some(p) => Some(d + p),
        None => None,
    }
}

/// The paths of the tree `t`, standing as the `index`-th child below the segments `roots`:
/// the path to the node where it is logical or a leaf, then the paths of its children. A
/// bound variable is replaced by the tree of its value, read without bindings. `None` where
/// the value of a variable met could not be read back.
pub open spec fn node_paths(
    t: ParseNode,
    roots: Seq<SegView>,
    index: nat,
    vs: Seq<(SegView, Option<ParseNode>)>,
) -> Option<Seq<Seq<SegView>>>
    decreases vs.len(), t, 0nat,
{
    let s = node_seg(t, index);
    let here = roots.push(s);
    let bound = if s.is_var {
        bound_tree(vs, seg_key(s))
    } else {
        None
    };
    match bound {
        Some(Some(v)) => {
            if vs.len() > 0 {
                node_paths(v, roots, 0, Seq::empty())
            } else {
                None
            }
        },
        Some(None) => None,
        None => {
            let own = if can_be_var(t.name@) || s.is_leaf {
                seq![here]
            } else {
                Seq::empty()
            };
            opt_prepend(own, forest_paths(t.children@, here, 0, vs))
        },
    }
}

/// The paths of the trees `cs` from position `i` on, each standing at its position below
/// the segments `roots`.
pub open spec fn forest_paths(
    cs: Seq<ParseNode>,
    roots: Seq<SegView>,
    i: int,
    vs: Seq<(SegView, Option<ParseNode>)>,
) -> Option<Seq<Seq<SegView>>>
    decreases vs.len(), cs, cs.len() - i,
{
    if i < 0 || i >= cs.len() {
        Some(Seq::empty())
    } else {
        match node_paths(cs[i], roots, i as nat, vs) {
            Some(a) => opt_prepend(a, forest_paths(cs, roots, i + 1, vs)),
            None => None,
        }
    }
}

/// In the bindings read back from a matching whose keys are distinct, the tree that stands
/// for a bound variable is the grammar's `var_range` reading of the text of its value,
/// whether that value is a leaf or a compound; an unbound variable has none.
pub proof fn lemma_bound_value_read_back<G: FactParser>(g: G, es: Seq<(SegView, SegView)>, i: int)
    requires
        crate::matching::keys_distinct(es),
        0 <= i < es.len(),
    ensures
        bound_tree(values_read(g, es), seg_key(es[i].0)) == Some(g.var_range_tree(es[i].1.text)),
    decreases es.len(),
{
    let vs = values_read(g, es);
    assert(vs[0] == (es[0].0, g.var_range_tree(es[0].1.text)));
    if i > 0 {
        let rest = es.drop_first();
        assert(seg_key(es[0].0) != seg_key(es[i].0));
        assert(crate::matching::keys_distinct(rest)) by {
            assert forall|a: int, b: int| 0 <= a < rest.len() && 0 <= b < rest.len() && a != b implies seg_key(#[trigger] rest[a].0) != seg_key(#[trigger] rest[b].0) by {
                assert(rest[a] == es[a + 1]);
                assert(rest[b] == es[b + 1]);
            }
        }
        assert(vs.drop_first() =~= values_read(g, rest));
        assert(rest[i - 1] == es[i]);
        lemma_bound_value_read_back(g, rest, i - 1);
    }
}

/// A variable bound by none of the entries `es` has no tree among the bindings read back.
pub proof fn lemma_unbound_not_read_back<G: FactParser>(g: G, es: Seq<(SegView, SegView)>, k: SegKey)
    requires
        forall|i: int| 0 <= i < es.len() ==> seg_key(#[trigger] es[i].0) != k,
    ensures
        bound_tree(values_read(g, es), k) is None,
    decreases es.len(),
{
    if es.len() > 0 {
        let rest = es.drop_first();
        assert(values_read(g, es).drop_first() =~= values_read(g, rest));
        assert(seg_key(es[0].0) != k);
        assert forall|i: int| 0 <= i < rest.len() implies seg_key(#[trigger] rest[i].0) != k by {
            assert(rest[i] == es[i + 1]);
        }
        lemma_unbound_not_read_back(g, rest, k);
    }
}

proof fn lemma_bound_tree_some(vs: Seq<(SegView, Option<ParseNode>)>, k: SegKey)
    requires
        bound_tree(vs, k) is Some,
    ensures
        vs.len() > 0,
{
}

proof fn lemma_opt_prepend_assoc(d: Seq<Seq<SegView>>, a: Seq<Seq<SegView>>, o: Option<Seq<Seq<SegView>>>)
    ensures
        opt_prepend(d, opt_prepend(a, o)) == opt_prepend(d + a, o),
{
    match o {
        Some(p) => {
            assert(d + (a + p) =~= (d + a) + p);
        },
        None => {},
    }
}

/// The segment that stands for a parse node at position `index`, as the lexicon keeps it.
fn intern_node<'b>(lexicon: &mut Lexicon, node: &ParseNode, index: usize) -> (r: &'static MPSegment)
    requires
        old(lexicon).wf(),
    ensures
        final(lexicon).wf(),
        r@ == node_seg(*node, index as nat),
{
    let is_leaf = node.children.len() == 0;
    let logical = str_starts_with(node.name.as_str(), var_range_prefix_str());
    if logical || is_leaf {
        lexicon.intern(node.name.as_str(), node.text.as_str(), is_leaf)
    } else {
        let text = usize_decimal(index);
        lexicon.intern(node.name.as_str(), text.as_str(), is_leaf)
    }
}

/// The tree bound to the variable `key` by the first binding for it, if any.
fn find_binding<'b>(vs: &'b Vec<(&'static MPSegment, Option<ParseNode>)>, key: &MPSegment) -> (r: Option<&'b Option<ParseNode>>)
    ensures
        match r {
            Some(t) => bound_tree(bindings_view(vs@), seg_key(key@)) == Some(*t),
            None => bound_tree(bindings_view(vs@), seg_key(key@)) is None,
        },
{
    let ghost bv = bindings_view(vs@);
    assert(bv.subrange(0, bv.len() as int) =~= bv);
    let mut i: usize = 0;
    while i < vs.len()
        invariant
            0 <= i <= vs.len(),
            bv == bindings_view(vs@),
            bound_tree(bv, seg_key(key@)) == bound_tree(bv.subrange(i as int, bv.len() as int), seg_key(key@)),
        decreases vs.len() - i,
    {
        let ghost rest = bv.subrange(i as int, bv.len() as int);
        assert(rest[0] == bv[i as int]);
        assert(rest.drop_first() =~= bv.subrange(i + 1, bv.len() as int));
        if vs[i].0.same(key) {
            return Some(&vs[i].1);
        }
        i = i + 1;
    }
    assert(bv.subrange(i as int, bv.len() as int).len() == 0);
    None
}


/// A copy of a list of segments.
fn copy_segments(v: &Vec<&'static MPSegment>) -> (r: Vec<&'static MPSegment>)
    ensures
        r@ == v@,
{
    let mut r: Vec<&'static MPSegment> = Vec::with_capacity(v.len());
    let mut i: usize = 0;
    while i < v.len()
        invariant
            0 <= i <= v.len(),
            r@ == v@.take(i as int),
        decreases v.len() - i,
    {
        r.push(v[i]);
        i = i + 1;
        assert(r@ =~= v@.take(i as int));
    }
    assert(r@ =~= v@);
    r
}

/// The reader of facts: the grammar's parser, the lexicon where segments are interned, the
/// store of facts, and the stores of the texts of transforms and conditions and of facts.
pub struct MPParser<G> {
    pub grammar: G,
    pub lexicon: Lexicon,
    pub flexicon: FLexicon<'static>,
    pub math: StringCache,
    pub factstr: StringCache,
}

impl<G: FactParser> MPParser<G> {
    /// Its stores are well formed.
    pub open spec fn wf(&self) -> bool {
        &&& self.lexicon.wf()
        &&& self.flexicon.wf()
        &&& self.math.wf()
        &&& self.factstr.wf()
    }

    /// A reader with empty stores, reading with `grammar`.
    pub fn new(grammar: G) -> (r: MPParser<G>)
        ensures
            r.wf(),
            r.grammar == grammar,
            r.lexicon@ == Seq::<SegView>::empty(),
    {
        MPParser {
            grammar,
            lexicon: Lexicon::new(),
            flexicon: FLexicon::new(),
            math: StringCache::new(),
            factstr: StringCache::new(),
        }
    }

    /// Adds to `all_paths` the paths of the tree `node`, standing as the `index`-th child
    /// below the segments `roots`, with the variables bound in `vs` replaced by the trees of
    /// their values; fails where the value of a variable met could not be read back.
    pub fn visit_parse_node(
        &mut self,
        node: &ParseNode,
        roots: &Vec<&'static MPSegment>,
        all_paths: &mut Vec<MPPath<'static>>,
        index: usize,
        vs: &Vec<(&'static MPSegment, Option<ParseNode>)>,
    ) -> (ok: bool)
        requires
            old(self).wf(),
            all_wf(old(all_paths)@),
        ensures
            final(self).wf(),
            final(self).grammar == old(self).grammar,
            final(self).flexicon == old(self).flexicon,
            all_wf(final(all_paths)@),
            ok == (node_paths(*node, segs_view(roots@), index as nat, bindings_view(vs@)) is Some),
            ok ==> paths_view(final(all_paths)@) == paths_view(old(all_paths)@) + node_paths(
                *node,
                segs_view(roots@),
                index as nat,
                bindings_view(vs@),
            )->0,
        decreases vs@.len(), *node, 0nat,
    {
        let ghost rv = segs_view(roots@);
        let ghost bv = bindings_view(vs@);
        let segment = intern_node(&mut self.lexicon, node, index);
        if segment.is_var {
            match find_binding(vs, segment) {
                Some(Some(tree)) => {
                    proof {
                        lemma_bound_tree_some(bv, seg_key(segment@));
                    }
                    let empty: Vec<(&'static MPSegment, Option<ParseNode>)> = Vec::new();
                    assert(bindings_view(empty@) =~= Seq::<(SegView, Option<ParseNode>)>::empty());
                    return self.visit_parse_node(tree, roots, all_paths, 0, &empty);
                },
                Some(None) => {
                    return false;
                },
                None => {},
            }
        }
        let mut new_roots = copy_segments(roots);
        new_roots.push(segment);
        let ghost here = rv.push(segment@);
        assert(segs_view(new_roots@) =~= here);
        let ghost start = paths_view(all_paths@);
        if segment.in_var_range || segment.is_leaf {
            let path = MPPath::new(copy_segments(&new_roots));
            all_paths.push(path);
            assert(paths_view(all_paths@) =~= start + seq![here]);
        } else {
            assert(paths_view(all_paths@) =~= start + Seq::<Seq<SegView>>::empty());
        }
        let ghost own = paths_view(all_paths@).subrange(start.len() as int, paths_view(all_paths@).len() as int);
        assert(paths_view(all_paths@) =~= start + own);
        let ghost cs = node.children@;
        proof {
            let f0 = forest_paths(cs, here, 0, bv);
            assert(paths_view(all_paths@) =~= start + own + Seq::<Seq<SegView>>::empty());
            if let Some(p) = f0 {
                assert(Seq::<Seq<SegView>>::empty() + p =~= p);
            }
            assert(opt_prepend(Seq::<Seq<SegView>>::empty(), f0) == f0);
        }
        let mut i: usize = 0;
        while i < node.children.len()
            invariant
                0 <= i <= node.children.len(),
                cs == node.children@,
                self.wf(),
                self.grammar == old(self).grammar,
                self.flexicon == old(self).flexicon,
                all_wf(all_paths@),
                segs_view(new_roots@) == here,
                rv == segs_view(roots@),
                bv == bindings_view(vs@),
                node_paths(*node, rv, index as nat, bv) == opt_prepend(own, forest_paths(cs, here, 0, bv)),
                exists|done: Seq<Seq<SegView>>|
                    paths_view(all_paths@) == start + own + done
                    && #[trigger] forest_paths(cs, here, 0, bv) == opt_prepend(done, forest_paths(cs, here, i as int, bv)),
            decreases node.children.len() - i,
        {
            let ghost done = choose|done: Seq<Seq<SegView>>|
                paths_view(all_paths@) == start + own + done
                && #[trigger] forest_paths(cs, here, 0, bv) == opt_prepend(done, forest_paths(cs, here, i as int, bv));
            let child = &node.children[i];
            assert(*child == cs[i as int]);
            let ok = self.visit_parse_node(child, &new_roots, all_paths, i, vs);
            if !ok {
                assert(forest_paths(cs, here, i as int, bv) is None);
                assert(forest_paths(cs, here, 0, bv) is None);
                assert(node_paths(*node, rv, index as nat, bv) is None);
                return false;
            }
            proof {
                let a = node_paths(cs[i as int], here, i as nat, bv)->0;
                lemma_opt_prepend_assoc(done, a, forest_paths(cs, here, i + 1, bv));
                assert(paths_view(all_paths@) =~= start + own + (done + a));
            }
            i = i + 1;
        }
        proof {
            assert(forest_paths(cs, here, i as int, bv) == Some(Seq::<Seq<SegView>>::empty()));
            let done = choose|done: Seq<Seq<SegView>>|
                paths_view(all_paths@) == start + own + done
                && #[trigger] forest_paths(cs, here, 0, bv) == opt_prepend(done, forest_paths(cs, here, i as int, bv));
            assert(done + Seq::<Seq<SegView>>::empty() =~= done);
            assert(start + own + done =~= start + (own + done));
        }
        true
    }
}

/// The texts of the values of the paths, one after the other.
pub open spec fn values_text(ps: Seq<Seq<SegView>>) -> Seq<char>
    decreases ps.len(),
{
    if ps.len() == 0 {
        Seq::empty()
    } else {
        values_text(ps.drop_last()) + ps.last().last().text
    }
}

/// Every binding of `vs` is for the key of the entry of `es` at the same position.
pub open spec fn binds_keys(vs: Seq<(SegView, Option<ParseNode>)>, es: Seq<(SegView, SegView)>) -> bool {
    &&& vs.len() == es.len()
    &&& forall|i: int| 0 <= i < vs.len() ==> (#[trigger] vs[i]).0 == es[i].0
}

/// The variables of the paths of `ps` whose value is a non-empty leaf, each once, in the
/// order they first appear.
pub open spec fn first_vars(ps: Seq<Seq<SegView>>) -> Seq<SegView>
    decreases ps.len(),
{
    if ps.len() == 0 {
        Seq::empty()
    } else {
        let prev = first_vars(ps.drop_last());
        let v = ps.last().last();
        if !v.is_empty && v.is_leaf && v.is_var && !(exists|j: int|
            0 <= j < prev.len() && seg_key(#[trigger] prev[j]) == seg_key(v)) {
            prev.push(v)
        } else {
            prev
        }
    }
}

/// The normalized variable numbered `n`.
pub open spec fn normal_var(n: nat) -> SegView {
    make_seg(var_rule_name(), var_text(n), true)
}

/// Each variable of `vars` paired with the normalized variable of its position, counted
/// from 1.
pub open spec fn numbered(vars: Seq<SegView>) -> Seq<(SegView, SegView)> {
    Seq::new(vars.len(), |i: int| (vars[i], normal_var((i + 1) as nat)))
}

/// The matching that renames each variable of `vars` to its normalized variable.
pub open spec fn normalizing(vars: Seq<SegView>) -> Map<SegKey, SegView> {
    inverted(numbered(vars).map_values(|e: (SegView, SegView)| (e.1, e.0)))
}

/// The matching that renames each normalized variable back to the variable of `vars` at its
/// position.
pub open spec fn denormalizing(vars: Seq<SegView>) -> Map<SegKey, SegView> {
    inverted(numbered(vars))
}

proof fn lemma_first_vars_len(ps: Seq<Seq<SegView>>)
    ensures
        first_vars(ps).len() <= ps.len(),
    decreases ps.len(),
{
    if ps.len() > 0 {
        lemma_first_vars_len(ps.drop_last());
    }
}

proof fn lemma_first_vars_distinct(ps: Seq<Seq<SegView>>)
    ensures
        forall|i: int, j: int|
            0 <= i < j < first_vars(ps).len() ==> seg_key(#[trigger] first_vars(ps)[i]) != seg_key(
                #[trigger] first_vars(ps)[j],
            ),
    decreases ps.len(),
{
    if ps.len() > 0 {
        lemma_first_vars_distinct(ps.drop_last());
        let prev = first_vars(ps.drop_last());
        let fv = first_vars(ps);
        assert forall|i: int, j: int| 0 <= i < j < fv.len() implies seg_key(#[trigger] fv[i]) != seg_key(#[trigger] fv[j]) by {
            if j < prev.len() {
                assert(fv[i] == prev[i] && fv[j] == prev[j]);
            } else {
                assert(fv[i] == prev[i]);
            }
        }
    }
}

proof fn lemma_normal_var_injective(a: nat, b: nat)
    requires
        seg_key(normal_var(a)) == seg_key(normal_var(b)),
    ensures
        a == b,
{
    let ta = var_text(a);
    let tb = var_text(b);
    assert(ta.subrange(4, ta.len() - 1) =~= decimal(a));
    assert(tb.subrange(4, tb.len() - 1) =~= decimal(b));
    lemma_decimal_injective(a, b);
}

/// Renaming a fact's variables to the normalized ones and back gives each variable back: the
/// normalizing matching renames the `i`-th variable of the fact to a normalized variable
/// that the denormalizing matching renames back to it.
pub proof fn lemma_normalize_round_trip(ps: Seq<Seq<SegView>>, i: int)
    requires
        0 <= i < first_vars(ps).len(),
    ensures
        normalizing(first_vars(ps)).contains_key(seg_key(first_vars(ps)[i])),
        denormalizing(first_vars(ps)).contains_key(seg_key(normalizing(first_vars(ps))[seg_key(first_vars(ps)[i])])),
        denormalizing(first_vars(ps))[seg_key(normalizing(first_vars(ps))[seg_key(first_vars(ps)[i])])] == first_vars(ps)[i],
{
    let vars = first_vars(ps);
    lemma_first_vars_distinct(ps);
    let nb = numbered(vars);
    let sw = nb.map_values(|e: (SegView, SegView)| (e.1, e.0));
    assert(sw[i] == (normal_var((i + 1) as nat), vars[i]));
    assert forall|j: int| i < j < sw.len() implies seg_key(#[trigger] sw[j].1) != seg_key(sw[i].1) by {
        assert(sw[j].1 == vars[j]);
    }
    lemma_last_value_index(sw, i);
    assert(normalizing(vars)[seg_key(vars[i])] == normal_var((i + 1) as nat));
    assert(nb[i] == (vars[i], normal_var((i + 1) as nat)));
    assert forall|j: int| i < j < nb.len() implies seg_key(#[trigger] nb[j].1) != seg_key(nb[i].1) by {
        assert(nb[j].1 == normal_var((j + 1) as nat));
        if seg_key(nb[j].1) == seg_key(nb[i].1) {
            lemma_normal_var_injective((j + 1) as nat, (i + 1) as nat);
        }
    }
    lemma_last_value_index(nb, i);
}

impl<G: FactParser> MPParser<G> {
    /// Each variable bound in `matched`, with the tree of its value read back by the
    /// grammar from the production `var_range`.
    pub fn reparse_bindings(&self, matched: &MPMatching<'static>) -> (r: Vec<(&'static MPSegment, Option<ParseNode>)>)
        requires
            matched.wf(),
        ensures
            binds_keys(bindings_view(r@), matched.entries()),
            bindings_view(r@) == values_read(self.grammar, matched.entries()),
    {
        let mut r: Vec<(&'static MPSegment, Option<ParseNode>)> = Vec::new();
        let n = matched.len();
        let mut i: usize = 0;
        while i < n
            invariant
                0 <= i <= n,
                n == matched.entries().len(),
                matched.wf(),
                r@.len() == i,
                forall|j: int| 0 <= j < i ==> (#[trigger] r@[j]).0@ == matched.entries()[j].0,
                bindings_view(r@) == values_read(self.grammar, matched.entries()).take(i as int),
            decreases n - i,
        {
            let (key, value) = matched.entry(i);
            let tree = self.grammar.parse_var_range(value.text.as_str());
            r.push((key, tree));
            proof {
                assert(bindings_view(r@) =~= values_read(self.grammar, matched.entries()).take(i + 1));
            }
            i = i + 1;
        }
        assert(values_read(self.grammar, matched.entries()).take(n as int) =~= values_read(self.grammar, matched.entries()));
        r
    }

    /// The fact whose paths are those of the tree, with the variables bound in `vs` replaced
    /// by the trees of their values; `None` where such a value could not be read back.
    pub fn build_fact(&mut self, tree: &ParseNode, vs: &Vec<(&'static MPSegment, Option<ParseNode>)>) -> (r: Option<&'static Fact<'static>>)
        requires
            old(self).wf(),
        ensures
            final(self).wf(),
            final(self).grammar == old(self).grammar,
            r is Some == (node_paths(*tree, Seq::empty(), 0, bindings_view(vs@)) is Some),
            r matches Some(f) ==> f.wf() && f.text@ == leaf_text(
                node_paths(*tree, Seq::empty(), 0, bindings_view(vs@))->0,
            ),
            r matches Some(f) ==> !old(self).flexicon.texts().contains(f.text@) ==> paths_view(f.paths@)
                == node_paths(*tree, Seq::empty(), 0, bindings_view(vs@))->0,
    {
        let roots: Vec<&'static MPSegment> = Vec::new();
        let mut all_paths: Vec<MPPath<'static>> = Vec::new();
        assert(segs_view(roots@) =~= Seq::<SegView>::empty());
        assert(paths_view(all_paths@) =~= Seq::<Seq<SegView>>::empty());
        let ok = self.visit_parse_node(tree, &roots, &mut all_paths, 0, vs);
        if ok {
            proof {
                let p = node_paths(*tree, Seq::empty(), 0, bindings_view(vs@))->0;
                assert(Seq::<Seq<SegView>>::empty() + p =~= p);
            }
            Some(self.flexicon.from_paths(all_paths))
        } else {
            None
        }
    }

    /// The fact read from `text` by the grammar, with the variables bound in `matched`
    /// replaced by their values read back; `None` where the grammar does not read the text
    /// as a fact or such a value back.
    pub fn parse_fact(&mut self, text: &str, matched: Option<&MPMatching<'static>>) -> (r: Option<&'static Fact<'static>>)
        requires
            old(self).wf(),
            matched matches Some(m) ==> m.wf(),
        ensures
            final(self).wf(),
            final(self).grammar == old(self).grammar,
            r matches Some(f) ==> f.wf() && exists|t: ParseNode, vs: Seq<(SegView, Option<ParseNode>)>|
                (match matched {
                    Some(m) => binds_keys(vs, m.entries()) && vs == values_read(old(self).grammar, m.entries()),
                    None => vs.len() == 0,
                }) && #[trigger] node_paths(t, Seq::empty(), 0, vs) is Some && f.text@ == leaf_text(
                    node_paths(t, Seq::empty(), 0, vs)->0,
                ),
    {
        let tree = match self.grammar.parse_fact(text) {
            Some(t) => t,
            None => {
                return None;
            },
        };
        let vs: Vec<(&'static MPSegment, Option<ParseNode>)> = match matched {
            Some(m) => self.reparse_bindings(m),
            None => Vec::new(),
        };
        assert(matched is None ==> bindings_view(vs@).len() == 0);
        let r = self.build_fact(&tree, &vs);
        proof {
            if r is Some {
                assert(node_paths(tree, Seq::empty(), 0, bindings_view(vs@)) is Some);
            }
        }
        r
    }

    /// The fact that a matching makes of `fact`, read again: the texts of the values of its
    /// substituted paths, one after the other, read by the grammar as a fact. `None` where
    /// the grammar does not read that text as a fact.
    pub fn substitute_fact(&mut self, fact: &'static Fact<'static>, matching: &MPMatching<'static>) -> (r: Option<&'static Fact<'static>>)
        requires
            old(self).wf(),
            fact.wf(),
            matching.wf(),
        ensures
            final(self).wf(),
            final(self).grammar == old(self).grammar,
            r matches Some(f) ==> f.wf() && f.text@ == values_text(
                substituted_paths(matching@, paths_view(fact.paths@), 0, Seq::empty()),
            ),
    {
        let new_paths = MPPath::substitute_paths(fact.paths.as_slice(), matching);
        let ghost nps = paths_view(new_paths@);
        let mut text = String::new();
        let mut i: usize = 0;
        assert(nps.take(0) =~= Seq::<Seq<SegView>>::empty());
        while i < new_paths.len()
            invariant
                0 <= i <= new_paths@.len(),
                nps == paths_view(new_paths@),
                all_wf(new_paths@),
                text@ == values_text(nps.take(i as int)),
            decreases new_paths@.len() - i,
        {
            let p = &new_paths[i];
            assert(p.wf());
            assert(nps.take(i + 1).drop_last() =~= nps.take(i as int));
            assert(nps.take(i + 1).last() == p@);
            text.append(p.value().text.as_str());
            i = i + 1;
        }
        assert(nps.take(nps.len() as int) =~= nps);
        let tree = match self.grammar.parse_fact(text.as_str()) {
            Some(t) => t,
            None => {
                return None;
            },
        };
        let roots: Vec<&'static MPSegment> = Vec::new();
        let mut all_paths: Vec<MPPath<'static>> = Vec::new();
        let empty: Vec<(&'static MPSegment, Option<ParseNode>)> = Vec::new();
        if self.visit_parse_node(&tree, &roots, &mut all_paths, 0, &empty) {
            Some(self.flexicon.from_paths_and_string(text, all_paths))
        } else {
            None
        }
    }

    /// The fact that a matching makes of `fact`, by substituting its paths: the fact made of
    /// the substituted paths.
    pub fn substitute_fact_fast(&mut self, fact: &'static Fact<'static>, matching: MPMatching<'static>) -> (r: &'static Fact<'static>)
        requires
            old(self).wf(),
            fact.wf(),
            matching.wf(),
        ensures
            final(self).wf(),
            final(self).grammar == old(self).grammar,
            r.wf(),
            r.text@ == leaf_text(substituted_paths(matching@, paths_view(fact.paths@), 0, Seq::empty())),
            !old(self).flexicon.texts().contains(r.text@) ==> paths_view(r.paths@) == substituted_paths(
                matching@,
                paths_view(fact.paths@),
                0,
                Seq::empty(),
            ),
    {
        let new_paths = MPPath::substitute_paths_owning(fact.paths.as_slice(), matching);
        self.flexicon.from_paths(new_paths)
    }

    /// The fact with its variables renamed to the normalized ones, numbered from 1 in the
    /// order they first appear, and the matching that renames them back.
    pub fn normalize_fact(&mut self, fact: &'static Fact<'static>) -> (r: (MPMatching<'static>, &'static Fact<'static>))
        requires
            old(self).wf(),
            fact.wf(),
            fact.paths@.len() < usize::MAX,
        ensures
            final(self).wf(),
            final(self).grammar == old(self).grammar,
            r.0.wf(),
            r.0@ == denormalizing(first_vars(paths_view(fact.paths@))),
            r.1.wf(),
            r.1.text@ == leaf_text(
                substituted_paths(
                    normalizing(first_vars(paths_view(fact.paths@))),
                    paths_view(fact.paths@),
                    0,
                    Seq::empty(),
                ),
            ),
            !old(self).flexicon.texts().contains(r.1.text@) ==> paths_view(r.1.paths@) == substituted_paths(
                normalizing(first_vars(paths_view(fact.paths@))),
                paths_view(fact.paths@),
                0,
                Seq::empty(),
            ),
    {
        let ghost ps = paths_view(fact.paths@);
        let mut varmap: MPMatching<'static> = MPMatching::new();
        let mut invarmap: MPMatching<'static> = MPMatching::new();
        let mut counter: usize = 1;
        let mut i: usize = 0;
        proof {
            assert(ps.take(0) =~= Seq::<Seq<SegView>>::empty());
            assert(numbered(first_vars(ps.take(0))) =~= Seq::<(SegView, SegView)>::empty());
            assert(numbered(first_vars(ps.take(0))).map_values(|e: (SegView, SegView)| (e.1, e.0)) =~= Seq::<(SegView, SegView)>::empty());
            assert(inverted(Seq::<(SegView, SegView)>::empty()) =~= Map::<SegKey, SegView>::empty());
        }
        while i < fact.paths.len()
            invariant
                0 <= i <= fact.paths.len(),
                fact.paths@.len() < usize::MAX,
                ps == paths_view(fact.paths@),
                fact.wf(),
                self.wf(),
                self.flexicon == old(self).flexicon,
                self.grammar == old(self).grammar,
                varmap.wf(),
                invarmap.wf(),
                counter == first_vars(ps.take(i as int)).len() + 1,
                varmap@ == normalizing(first_vars(ps.take(i as int))),
                invarmap@ == denormalizing(first_vars(ps.take(i as int))),
            decreases fact.paths.len() - i,
        {
            let ghost prev = first_vars(ps.take(i as int));
            proof {
                assert(ps.take(i + 1).drop_last() =~= ps.take(i as int));
                lemma_first_vars_len(ps.take(i as int));
            }
            let path = &fact.paths[i];
            assert(path.wf());
            assert(ps.take(i + 1).last() == path@);
            let value = path.value();
            if !value.is_empty && value.is_leaf && value.is_var {
                let known = varmap.contains_key(value);
                let ghost sw = numbered(prev).map_values(|e: (SegView, SegView)| (e.1, e.0));
                proof {
                    assert(known == exists|j: int| 0 <= j < prev.len() && seg_key(#[trigger] prev[j]) == seg_key(value@)) by {
                        if known {
                            let j = choose|j: int| 0 <= j < sw.len() && seg_key(sw[j].1) == seg_key(value@);
                            assert(sw[j].1 == prev[j]);
                        }
                        if exists|j: int| 0 <= j < prev.len() && seg_key(#[trigger] prev[j]) == seg_key(value@) {
                            let j = choose|j: int| 0 <= j < prev.len() && seg_key(#[trigger] prev[j]) == seg_key(value@);
                            assert(sw[j].1 == prev[j]);
                        }
                    }
                }
                if !known {
                    let new_var = self.lexicon.make_var(counter);
                    proof {
                        let next = prev.push(value@);
                        assert(first_vars(ps.take(i + 1)) == next);
                        let e = (value@, normal_var(counter as nat));
                        assert(numbered(next) =~= numbered(prev).push(e));
                        let nsw = numbered(next).map_values(|e: (SegView, SegView)| (e.1, e.0));
                        assert(nsw =~= sw.push((e.1, e.0)));
                        lemma_inverted_push(nsw, sw.len() as int);
                        assert(nsw.take(sw.len() as int) =~= sw);
                        assert(nsw.take(sw.len() as int + 1) =~= nsw);
                        lemma_inverted_push(numbered(next), prev.len() as int);
                        assert(numbered(next).take(prev.len() as int) =~= numbered(prev));
                        assert(numbered(next).take(prev.len() as int + 1) =~= numbered(next));
                    }
                    varmap.insert(value, new_var);
                    invarmap.insert(new_var, value);
                    counter = counter + 1;
                } else {
                    assert(first_vars(ps.take(i + 1)) == prev);
                }
            } else {
                assert(first_vars(ps.take(i + 1)) == prev);
            }
            i = i + 1;
        }
        assert(ps.take(fact.paths@.len() as int) =~= ps);
        let new_fact = self.substitute_fact_fast(fact, varmap);
        (invarmap, new_fact)
    }
}

/// A stage of a rule as plain values: its fact, if any, its transforms and its conditions.
pub type StageView = (Option<Seq<char>>, Seq<char>, Seq<char>);

/// A stage of a rule, as plain values.
pub open spec fn ant_view(a: Antecedents) -> StageView {
    (
        match a.fact {
            Some(f) => Some(f@),
            None => None,
        },
        a.transforms@,
        a.conditions@,
    )
}

/// The texts of the nodes of `cs` named `name`, in order.
pub open spec fn named_texts(cs: Seq<ParseNode>, name: Seq<char>) -> Seq<Seq<char>>
    decreases cs.len(),
{
    if cs.len() == 0 {
        Seq::empty()
    } else {
        named_texts(cs.drop_last(), name) + if cs.last().name@ == name {
            seq![cs.last().text@]
        } else {
            Seq::empty()
        }
    }
}

/// The text of the last node of `cs` named `name`, or the empty text where there is none.
pub open spec fn last_named_text(cs: Seq<ParseNode>, name: Seq<char>) -> Seq<char> {
    let t = named_texts(cs, name);
    if t.len() == 0 {
        Seq::empty()
    } else {
        t.last()
    }
}

/// The stages that a group of antecedents gives: one for each of its facts, in order, the
/// last of them with the group's transforms and conditions; a lone stage without a fact
/// where the group has no fact.
pub open spec fn group_stages(gs: Seq<ParseNode>) -> Seq<StageView> {
    let facts = named_texts(gs, "fact"@);
    let tr = last_named_text(gs, "transforms"@);
    let co = last_named_text(gs, "conditions"@);
    if facts.len() == 0 {
        seq![(None, tr, co)]
    } else {
        Seq::new(
            facts.len(),
            |i: int|
                (
                    Some(facts[i]),
                    if i == facts.len() - 1 {
                        tr
                    } else {
                        Seq::empty()
                    },
                    if i == facts.len() - 1 {
                        co
                    } else {
                        Seq::empty()
                    },
                ),
        )
    }
}

/// The stages of the groups of antecedents among the children `cs` of a rule, in order.
pub open spec fn rule_stages(cs: Seq<ParseNode>) -> Seq<StageView>
    decreases cs.len(),
{
    if cs.len() == 0 {
        Seq::empty()
    } else {
        rule_stages(cs.drop_last()) + if cs.last().name@ == "antecedents"@ {
            group_stages(cs.last().children@)
        } else {
            Seq::empty()
        }
    }
}

/// The stages a rule read from children `cs` starts with: those of its antecedents, or a
/// lone stage without fact, transforms or conditions where it has none.
pub open spec fn stages_of(cs: Seq<ParseNode>) -> Seq<StageView> {
    if rule_stages(cs).len() == 0 {
        seq![(None, Seq::empty(), Seq::empty())]
    } else {
        rule_stages(cs)
    }
}

/// The consequent facts among the children `cs` of a rule, in order.
pub open spec fn rule_consequents(cs: Seq<ParseNode>) -> Seq<Seq<char>>
    decreases cs.len(),
{
    if cs.len() == 0 {
        Seq::empty()
    } else {
        rule_consequents(cs.drop_last()) + if cs.last().name@ == "consequents"@ {
            named_texts(cs.last().children@, "fact"@)
        } else {
            Seq::empty()
        }
    }
}

/// The last output among the consequents of the children `cs` of a rule, if any.
pub open spec fn rule_output(cs: Seq<ParseNode>) -> Option<Seq<char>>
    decreases cs.len(),
{
    if cs.len() == 0 {
        None
    } else if cs.last().name@ == "consequents"@ && named_texts(cs.last().children@, "output"@).len() > 0 {
        Some(named_texts(cs.last().children@, "output"@).last())
    } else {
        rule_output(cs.drop_last())
    }
}

/// The stages of a rule, as plain values: its current antecedents, then the others.
pub open spec fn rule_stages_view(r: MPRule) -> Seq<StageView> {
    seq![ant_view(r.antecedents)] + r.more_antecedents@.map_values(|a: Antecedents| ant_view(a))
}

/// The texts of a list of string slices.
pub open spec fn texts_view(v: Seq<&str>) -> Seq<Seq<char>> {
    v.map_values(|s: &str| s@)
}

/// The texts of an optional string slice.
pub open spec fn opt_text(o: Option<&str>) -> Option<Seq<char>> {
    match o {
        Some(s) => Some(s@),
        None => None,
    }
}

/// What a rule read from the children `cs` of a rule node is.
pub open spec fn rule_read(r: MPRule, cs: Seq<ParseNode>) -> bool {
    &&& rule_stages_view(r) == stages_of(cs)
    &&& texts_view(r.consequents@) == rule_consequents(cs)
    &&& opt_text(r.output) == rule_output(cs)
    &&& r.matched.wf()
    &&& r.matched@ == Map::<SegKey, SegView>::empty()
}

/// The rules read from the nodes of `cs` named `rule`, in order.
pub open spec fn rules_read(rs: Seq<MPRule>, cs: Seq<ParseNode>) -> bool
    decreases cs.len(),
{
    if cs.len() == 0 {
        rs.len() == 0
    } else if cs.last().name@ == "rule"@ {
        rs.len() > 0 && rule_read(rs.last(), cs.last().children@) && rules_read(rs.drop_last(), cs.drop_last())
    } else {
        rules_read(rs, cs.drop_last())
    }
}

impl<G: FactParser> MPParser<G> {
    /// The stages of a group of antecedents, with texts kept in the stores.
    fn read_group(&mut self, gs: &Vec<ParseNode>) -> (r: Vec<Antecedents<'static>>)
        requires
            old(self).wf(),
        ensures
            final(self).wf(),
            final(self).grammar == old(self).grammar,
            final(self).lexicon == old(self).lexicon,
            final(self).flexicon == old(self).flexicon,
            r@.map_values(|a: Antecedents| ant_view(a)) == group_stages(gs@),
    {
        proof {
            reveal_strlit("");
        }
        let mut facts: Vec<&'static str> = Vec::new();
        let mut tr: &'static str = "";
        let mut co: &'static str = "";
        let mut i: usize = 0;
        assert(gs@.take(0) =~= Seq::<ParseNode>::empty());
        assert(texts_view(facts@) =~= Seq::<Seq<char>>::empty());
        while i < gs.len()
            invariant
                0 <= i <= gs.len(),
                self.wf(),
                self.grammar == old(self).grammar,
                self.lexicon == old(self).lexicon,
                self.flexicon == old(self).flexicon,
                texts_view(facts@) == named_texts(gs@.take(i as int), "fact"@),
                tr@ == last_named_text(gs@.take(i as int), "transforms"@),
                co@ == last_named_text(gs@.take(i as int), "conditions"@),
            decreases gs.len() - i,
        {
            let g = &gs[i];
            proof {
                assert(gs@.take(i + 1).drop_last() =~= gs@.take(i as int));
                assert(gs@.take(i + 1).last() == *g);
            }
            if str_eq(g.name.as_str(), "fact") {
                let t = self.factstr.intern(g.text.as_str());
                let ghost before = texts_view(facts@);
                facts.push(t);
                assert(texts_view(facts@) =~= before.push(t@));
                assert(named_texts(gs@.take(i + 1), "fact"@) =~= named_texts(gs@.take(i as int), "fact"@) + seq![g.text@]);
            } else {
                assert(named_texts(gs@.take(i + 1), "fact"@) =~= named_texts(gs@.take(i as int), "fact"@));
            }
            if str_eq(g.name.as_str(), "transforms") {
                tr = self.math.intern(g.text.as_str());
                assert(named_texts(gs@.take(i + 1), "transforms"@) =~= named_texts(gs@.take(i as int), "transforms"@) + seq![g.text@]);
            } else {
                assert(named_texts(gs@.take(i + 1), "transforms"@) =~= named_texts(gs@.take(i as int), "transforms"@));
            }
            if str_eq(g.name.as_str(), "conditions") {
                co = self.math.intern(g.text.as_str());
                assert(named_texts(gs@.take(i + 1), "conditions"@) =~= named_texts(gs@.take(i as int), "conditions"@) + seq![g.text@]);
            } else {
                assert(named_texts(gs@.take(i + 1), "conditions"@) =~= named_texts(gs@.take(i as int), "conditions"@));
            }
            i = i + 1;
        }
        assert(gs@.take(gs@.len() as int) =~= gs@);
        let mut r: Vec<Antecedents<'static>> = Vec::new();
        if facts.len() == 0 {
            r.push(Antecedents { fact: None, transforms: tr, conditions: co });
            assert(r@.map_values(|a: Antecedents| ant_view(a)) =~= group_stages(gs@));
            return r;
        }
        let ghost fv = named_texts(gs@, "fact"@);
        let n = facts.len();
        let mut j: usize = 0;
        while j < n
            invariant
                0 <= j <= n,
                n == facts@.len(),
                n > 0,
                fv == texts_view(facts@),
                fv == named_texts(gs@, "fact"@),
                tr@ == last_named_text(gs@, "transforms"@),
                co@ == last_named_text(gs@, "conditions"@),
                ""@ == Seq::<char>::empty(),
                r@.map_values(|a: Antecedents| ant_view(a)) == group_stages(gs@).take(j as int),
            decreases n - j,
        {
            let last = j + 1 == n;
            let a = Antecedents {
                fact: Some(facts[j]),
                transforms: if last { tr } else { "" },
                conditions: if last { co } else { "" },
            };
            let ghost before = r@.map_values(|a: Antecedents| ant_view(a));
            r.push(a);
            proof {
                assert(facts@[j as int]@ == fv[j as int]);
                assert(r@.map_values(|a: Antecedents| ant_view(a)) =~= before.push(ant_view(a)));
                assert(group_stages(gs@).take(j + 1) =~= group_stages(gs@).take(j as int).push(group_stages(gs@)[j as int]));
            }
            j = j + 1;
        }
        assert(group_stages(gs@).take(n as int) =~= group_stages(gs@));
        r
    }
}

impl<G: FactParser> MPParser<G> {
    /// The rule that a rule node of a text of knowledge holds, with texts kept in the
    /// stores and an empty matching.
    pub fn read_rule(&mut self, node: &ParseNode) -> (r: MPRule<'static>)
        requires
            old(self).wf(),
        ensures
            final(self).wf(),
            final(self).grammar == old(self).grammar,
            final(self).lexicon == old(self).lexicon,
            final(self).flexicon == old(self).flexicon,
            rule_read(r, node.children@),
    {
        proof {
            reveal_strlit("");
        }
        let ghost cs = node.children@;
        let mut stages: Vec<Antecedents<'static>> = Vec::new();
        let mut consequents: Vec<&'static str> = Vec::new();
        let mut output: Option<&'static str> = None;
        let mut i: usize = 0;
        assert(cs.take(0) =~= Seq::<ParseNode>::empty());
        assert(stages@.map_values(|a: Antecedents| ant_view(a)) =~= Seq::<StageView>::empty());
        assert(texts_view(consequents@) =~= Seq::<Seq<char>>::empty());
        while i < node.children.len()
            invariant
                0 <= i <= cs.len(),
                cs == node.children@,
                self.wf(),
                self.grammar == old(self).grammar,
                self.lexicon == old(self).lexicon,
                self.flexicon == old(self).flexicon,
                stages@.map_values(|a: Antecedents| ant_view(a)) == rule_stages(cs.take(i as int)),
                texts_view(consequents@) == rule_consequents(cs.take(i as int)),
                opt_text(output) == rule_output(cs.take(i as int)),
            decreases cs.len() - i,
        {
            let c = &node.children[i];
            proof {
                assert(cs.take(i + 1).drop_last() =~= cs.take(i as int));
                assert(cs.take(i + 1).last() == *c);
            }
            if str_eq(c.name.as_str(), "antecedents") {
                let group = self.read_group(&c.children);
                let ghost before = stages@.map_values(|a: Antecedents| ant_view(a));
                let ghost gv = group@.map_values(|a: Antecedents| ant_view(a));
                let mut k: usize = 0;
                while k < group.len()
                    invariant
                        0 <= k <= group@.len(),
                        gv == group@.map_values(|a: Antecedents| ant_view(a)),
                        stages@.map_values(|a: Antecedents| ant_view(a)) == before + gv.take(k as int),
                    decreases group@.len() - k,
                {
                    let a = group[k].duplicate();
                    let ghost prev = stages@.map_values(|a: Antecedents| ant_view(a));
                    stages.push(a);
                    proof {
                        assert(gv[k as int] == ant_view(a));
                        assert(stages@.map_values(|a: Antecedents| ant_view(a)) =~= prev.push(ant_view(a)));
                        assert(gv.take(k + 1) =~= gv.take(k as int).push(gv[k as int]));
                        assert(stages@.map_values(|a: Antecedents| ant_view(a)) =~= before + gv.take(k + 1));
                    }
                    k = k + 1;
                }
                assert(gv.take(group@.len() as int) =~= gv);
                assert(c.name@ != "consequents"@) by {
                    reveal_strlit("antecedents");
                    reveal_strlit("consequents");
                    assert(c.name@[0] == "antecedents"@[0]);
                }
                assert(rule_stages(cs.take(i + 1)) == rule_stages(cs.take(i as int)) + group_stages(c.children@));
                assert(rule_consequents(cs.take(i + 1)) =~= rule_consequents(cs.take(i as int)));
                assert(rule_output(cs.take(i + 1)) == rule_output(cs.take(i as int)));
            } else if str_eq(c.name.as_str(), "consequents") {
                let ghost cc = c.children@;
                let ghost before = texts_view(consequents@);
                let ghost out0 = opt_text(output);
                let mut k: usize = 0;
                assert(cc.take(0) =~= Seq::<ParseNode>::empty());
                assert(before + named_texts(cc.take(0), "fact"@) =~= before);
                while k < c.children.len()
                    invariant
                        0 <= k <= cc.len(),
                        cc == c.children@,
                        self.wf(),
                        self.grammar == old(self).grammar,
                        self.lexicon == old(self).lexicon,
                        self.flexicon == old(self).flexicon,
                        texts_view(consequents@) == before + named_texts(cc.take(k as int), "fact"@),
                        opt_text(output) == (if named_texts(cc.take(k as int), "output"@).len() > 0 {
                            Some(named_texts(cc.take(k as int), "output"@).last())
                        } else {
                            out0
                        }),
                    decreases cc.len() - k,
                {
                    let f = &c.children[k];
                    proof {
                        assert(cc.take(k + 1).drop_last() =~= cc.take(k as int));
                        assert(cc.take(k + 1).last() == *f);
                    }
                    if str_eq(f.name.as_str(), "fact") {
                        let t = self.factstr.intern(f.text.as_str());
                        let ghost prev = texts_view(consequents@);
                        consequents.push(t);
                        assert(texts_view(consequents@) =~= prev.push(t@));
                        assert(named_texts(cc.take(k + 1), "fact"@) =~= named_texts(cc.take(k as int), "fact"@) + seq![f.text@]);
                        assert(texts_view(consequents@) =~= before + named_texts(cc.take(k + 1), "fact"@));
                    } else {
                        assert(named_texts(cc.take(k + 1), "fact"@) =~= named_texts(cc.take(k as int), "fact"@));
                    }
                    if str_eq(f.name.as_str(), "output") {
                        let t = self.factstr.intern(f.text.as_str());
                        output = Some(t);
                        assert(named_texts(cc.take(k + 1), "output"@) =~= named_texts(cc.take(k as int), "output"@) + seq![f.text@]);
                    } else {
                        assert(named_texts(cc.take(k + 1), "output"@) =~= named_texts(cc.take(k as int), "output"@));
                    }
                    k = k + 1;
                }
                assert(cc.take(cc.len() as int) =~= cc);
                assert(rule_stages(cs.take(i + 1)) =~= rule_stages(cs.take(i as int)));
            } else {
                assert(rule_stages(cs.take(i + 1)) =~= rule_stages(cs.take(i as int)));
                assert(rule_consequents(cs.take(i + 1)) =~= rule_consequents(cs.take(i as int)));
            }
            i = i + 1;
        }
        assert(cs.take(cs.len() as int) =~= cs);
        let ghost sv = stages@.map_values(|a: Antecedents| ant_view(a));
        let mut more: VecDeque<Antecedents<'static>> = VecDeque::new();
        let first = if stages.len() == 0 {
            Antecedents { fact: None, transforms: "", conditions: "" }
        } else {
            let mut j: usize = 1;
            while j < stages.len()
                invariant
                    1 <= j <= stages@.len(),
                    sv == stages@.map_values(|a: Antecedents| ant_view(a)),
                    more@.map_values(|a: Antecedents| ant_view(a)) == sv.subrange(1, j as int),
                decreases stages@.len() - j,
            {
                let a = stages[j].duplicate();
                let ghost prev = more@.map_values(|a: Antecedents| ant_view(a));
                more.push_back(a);
                proof {
                    assert(more@.map_values(|a: Antecedents| ant_view(a)) =~= prev.push(ant_view(a)));
                    assert(sv.subrange(1, j + 1) =~= sv.subrange(1, j as int).push(sv[j as int]));
                }
                j = j + 1;
            }
            stages[0].duplicate()
        };
        let matched = MPMatching::new();
        let r = MPRule { antecedents: first, more_antecedents: more, consequents, matched, output };
        proof {
            if sv.len() == 0 {
                assert(more@.map_values(|a: Antecedents| ant_view(a)) =~= Seq::<StageView>::empty());
                assert(ant_view(r.antecedents) == (None::<Seq<char>>, Seq::<char>::empty(), Seq::<char>::empty()));
                assert(rule_stages_view(r) =~= seq![ant_view(r.antecedents)]);
                assert(rule_stages(cs).len() == 0);
                assert(rule_stages_view(r) =~= stages_of(cs));
            } else {
                assert(rule_stages_view(r) =~= seq![sv[0]] + sv.subrange(1, sv.len() as int));
                assert(seq![sv[0]] + sv.subrange(1, sv.len() as int) =~= sv);
            }
        }
        r
    }

    /// The facts and rules that the parse tree of a text of knowledge holds: the texts of
    /// its children named `fact` and the rules of its children named `rule`, in order.
    pub fn read_knowledge(&mut self, tree: &ParseNode) -> (r: ParseResult<'static>)
        requires
            old(self).wf(),
        ensures
            final(self).wf(),
            final(self).grammar == old(self).grammar,
            final(self).lexicon == old(self).lexicon,
            final(self).flexicon == old(self).flexicon,
            texts_view(r.facts@) == named_texts(tree.children@, "fact"@),
            rules_read(r.rules@, tree.children@),
            forall|i: int| 0 <= i < r.rules@.len() ==> (#[trigger] r.rules@[i]).matched.wf(),
    {
        let ghost cs = tree.children@;
        let mut facts: Vec<&'static str> = Vec::new();
        let mut rules: Vec<MPRule<'static>> = Vec::new();
        let mut i: usize = 0;
        assert(cs.take(0) =~= Seq::<ParseNode>::empty());
        assert(texts_view(facts@) =~= Seq::<Seq<char>>::empty());
        while i < tree.children.len()
            invariant
                0 <= i <= cs.len(),
                cs == tree.children@,
                self.wf(),
                self.grammar == old(self).grammar,
                self.lexicon == old(self).lexicon,
                self.flexicon == old(self).flexicon,
                texts_view(facts@) == named_texts(cs.take(i as int), "fact"@),
                rules_read(rules@, cs.take(i as int)),
                forall|j: int| 0 <= j < rules@.len() ==> (#[trigger] rules@[j]).matched.wf(),
            decreases cs.len() - i,
        {
            let c = &tree.children[i];
            proof {
                assert(cs.take(i + 1).drop_last() =~= cs.take(i as int));
                assert(cs.take(i + 1).last() == *c);
            }
            if str_eq(c.name.as_str(), "fact") {
                let t = self.factstr.intern(c.text.as_str());
                let ghost prev = texts_view(facts@);
                facts.push(t);
                assert(texts_view(facts@) =~= prev.push(t@));
                assert(named_texts(cs.take(i + 1), "fact"@) =~= named_texts(cs.take(i as int), "fact"@) + seq![c.text@]);
            } else {
                assert(named_texts(cs.take(i + 1), "fact"@) =~= named_texts(cs.take(i as int), "fact"@));
            }
            if str_eq(c.name.as_str(), "rule") {
                let rule = self.read_rule(c);
                let ghost prev = rules@;
                rules.push(rule);
                assert(rules@.drop_last() =~= prev);
                assert forall|j: int| 0 <= j < rules@.len() implies (#[trigger] rules@[j]).matched.wf() by {
                    if j < prev.len() {
                        assert(rules@[j] == prev[j]);
                    }
                }
            }
            i = i + 1;
        }
        assert(cs.take(cs.len() as int) =~= cs);
        ParseResult { facts, rules }
    }

    /// The facts and rules of a text of knowledge, read by the grammar; the parser's message
    /// where it does not read the text as knowledge.
    pub fn parse_text(&mut self, text: &str) -> (r: Result<ParseResult<'static>, String>)
        requires
            old(self).wf(),
        ensures
            final(self).wf(),
            final(self).grammar == old(self).grammar,
            final(self).lexicon == old(self).lexicon,
            final(self).flexicon == old(self).flexicon,
            r matches Ok(pr) ==> exists|t: ParseNode|
                texts_view(pr.facts@) == named_texts(t.children@, "fact"@) && #[trigger] rules_read(
                    pr.rules@,
                    t.children@,
                ),
            r matches Ok(pr) ==> forall|i: int| 0 <= i < pr.rules@.len() ==> (#[trigger] pr.rules@[i]).matched.wf(),
    {
        match self.grammar.parse_knowledge(text) {
            Ok(tree) => {
                let pr = self.read_knowledge(&tree);
                assert(texts_view(pr.facts@) == named_texts(tree.children@, "fact"@) && rules_read(pr.rules@, tree.children@));
                let r: Result<ParseResult<'static>, String> = Ok(pr);
                assert(r matches Ok(pr) && texts_view(pr.facts@) == named_texts(tree.children@, "fact"@) && rules_read(pr.rules@, tree.children@));
                r
            },
            Err(e) => Err(e),
        }
    }
}

} // verus!
