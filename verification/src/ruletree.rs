//! The rule set: a tree over the leaf paths of the first antecedent of the rules told, with
//! variables normalized, in which a fact finds every rule whose first antecedent it matches.
use std::collections::VecDeque;
use vstd::prelude::*;

use crate::matching::{entries_text, MPMatching, SegKey};
use crate::path::{after_slice, all_wf, is_leafy, path_identity, paths_view, segs_view, MPPath};
use crate::facttree::{edges_kept, first_leafy, lemma_first_leafy_bounds, lemma_first_leafy_concat, var_free};
use crate::pathmap::{edges_map, PathMap};
use crate::segment::{seg_key, MPSegment, SegView};

verus! {

/// The facts that a rule is waiting for, at one stage: a fact (none where it was matched
/// already), and the transforms and conditions to apply once it is matched.
#[derive(Debug)]
pub struct Antecedents<'a> {
    pub fact: Option<&'a str>,
    pub transforms: &'a str,
    pub conditions: &'a str,
}

impl<'a> Antecedents<'a> {
    /// A copy.
    pub fn duplicate(&self) -> (r: Antecedents<'a>)
        ensures
            r == *self,
    {
        Antecedents { fact: self.fact, transforms: self.transforms, conditions: self.conditions }
    }
}

/// A rule: its current antecedents, those of the later stages, its consequents, the matching
/// gathered so far, and an optional output.
#[derive(Debug)]
pub struct MPRule<'a> {
    pub antecedents: Antecedents<'a>,
    pub more_antecedents: VecDeque<Antecedents<'a>>,
    pub consequents: Vec<&'a str>,
    pub matched: MPMatching<'a>,
    pub output: Option<&'a str>,
}

impl<'a> MPRule<'a> {
    /// A copy, with the same antecedents, consequents, matching and output.
    pub fn duplicate(&self) -> (r: MPRule<'a>)
        requires
            self.matched.wf(),
        ensures
            r.antecedents == self.antecedents,
            r.more_antecedents@ == self.more_antecedents@,
            r.consequents@ == self.consequents@,
            r.matched@ == self.matched@,
            r.matched.entries() == self.matched.entries(),
            r.matched.wf(),
            r.output == self.output,
    {
        let mut more: VecDeque<Antecedents<'a>> = VecDeque::new();
        let mut i: usize = 0;
        while i < self.more_antecedents.len()
            invariant
                0 <= i <= self.more_antecedents@.len(),
                more@ == self.more_antecedents@.take(i as int),
            decreases self.more_antecedents@.len() - i,
        {
            more.push_back(self.more_antecedents[i].duplicate());
            i = i + 1;
            assert(more@ =~= self.more_antecedents@.take(i as int));
        }
        assert(more@ =~= self.more_antecedents@);
        let mut cons: Vec<&'a str> = Vec::new();
        let mut j: usize = 0;
        while j < self.consequents.len()
            invariant
                0 <= j <= self.consequents@.len(),
                cons@ == self.consequents@.take(j as int),
            decreases self.consequents@.len() - j,
        {
            cons.push(self.consequents[j]);
            j = j + 1;
            assert(cons@ =~= self.consequents@.take(j as int));
        }
        assert(cons@ =~= self.consequents@);
        MPRule {
            antecedents: self.antecedents.duplicate(),
            more_antecedents: more,
            consequents: cons,
            matched: self.matched.duplicate(),
            output: self.output,
        }
    }
}

/// The texts of a list, one after the other.
pub open spec fn texts_concat(ts: Seq<Seq<char>>) -> Seq<char>
    decreases ts.len(),
{
    if ts.len() == 0 {
        Seq::empty()
    } else {
        texts_concat(ts.drop_last()) + ts.last()
    }
}

/// A later stage of a rule, as `MPRule::to_display_string` shows it.
pub open spec fn stage_text(a: Antecedents) -> Seq<char> {
    (match a.fact {
        Some(f) => f@,
        None => Seq::empty(),
    }) + "{={\n"@ + a.transforms@ + "}=}\n{?{\n"@ + a.conditions@ + "}?}\n->\n"@
}

/// A rule as `MPRule::to_display_string` shows it: its current stage, its later stages, its
/// consequents, its output and its matching.
pub open spec fn rule_text(r: MPRule) -> Seq<char> {
    "rule\n\n"@ + (match r.antecedents.fact {
        Some(f) => f@,
        None => "Empty"@,
    }) + "\n{={\n"@ + r.antecedents.transforms@ + "}=}\n{?{\n"@ + r.antecedents.conditions@
        + "\n}?}\n->\n"@ + texts_concat(r.more_antecedents@.map_values(|a: Antecedents| stage_text(a)))
        + texts_concat(r.consequents@.map_values(|c: &str| c@ + " ;\n"@)) + (match r.output {
        Some(o) => " {!{ "@ + o@ + " }!}\n<>"@,
        None => Seq::empty(),
    }) + "\n\nmatching:\n"@ + seq!['{'] + entries_text(r.matched.entries()) + seq!['}']
}

impl<'a> MPRule<'a> {
    /// The rule shown as its stages, consequents, output and matching.
    pub fn to_display_string(&self) -> (r: String)
        ensures
            r@ == rule_text(*self),
    {
        let mut s = String::from_str("rule\n\n");
        match self.antecedents.fact {
            Some(f) => s.append(f),
            None => s.append("Empty"),
        }
        s.append("\n{={\n");
        s.append(self.antecedents.transforms);
        s.append("}=}\n{?{\n");
        s.append(self.antecedents.conditions);
        s.append("\n}?}\n->\n");
        let ghost head = s@;
        let ghost mv = self.more_antecedents@.map_values(|a: Antecedents| stage_text(a));
        let mut i: usize = 0;
        assert(mv.take(0) =~= Seq::<Seq<char>>::empty());
        while i < self.more_antecedents.len()
            invariant
                0 <= i <= self.more_antecedents@.len(),
                mv == self.more_antecedents@.map_values(|a: Antecedents| stage_text(a)),
                s@ == head + texts_concat(mv.take(i as int)),
            decreases self.more_antecedents@.len() - i,
        {
            let a = &self.more_antecedents[i];
            match a.fact {
                Some(f) => s.append(f),
                None => {},
            }
            s.append("{={\n");
            s.append(a.transforms);
            s.append("}=}\n{?{\n");
            s.append(a.conditions);
            s.append("}?}\n->\n");
            proof {
                assert(mv.take(i + 1).drop_last() =~= mv.take(i as int));
                assert(mv.take(i + 1).last() == stage_text(*a));
                assert(s@ =~= head + texts_concat(mv.take(i + 1)));
            }
            i = i + 1;
        }
        assert(mv.take(mv.len() as int) =~= mv);
        let ghost mid = s@;
        let ghost cv = self.consequents@.map_values(|c: &str| c@ + " ;\n"@);
        let mut j: usize = 0;
        assert(cv.take(0) =~= Seq::<Seq<char>>::empty());
        while j < self.consequents.len()
            invariant
                0 <= j <= self.consequents@.len(),
                cv == self.consequents@.map_values(|c: &str| c@ + " ;\n"@),
                s@ == mid + texts_concat(cv.take(j as int)),
            decreases self.consequents@.len() - j,
        {
            s.append(self.consequents[j]);
            s.append(" ;\n");
            proof {
                assert(cv.take(j + 1).drop_last() =~= cv.take(j as int));
                assert(s@ =~= mid + texts_concat(cv.take(j + 1)));
            }
            j = j + 1;
        }
        assert(cv.take(cv.len() as int) =~= cv);
        match self.output {
            Some(o) => {
                s.append(" {!{ ");
                s.append(o);
                s.append(" }!}\n<>");
            },
            None => {},
        }
        s.append("\n\nmatching:\n");
        let m = self.matched.to_display_string();
        s.append(m.as_str());
        assert(s@ =~= rule_text(*self));
        s
    }
}

/// A rule as stored in the rule set, with the map from the normalized variables of its
/// first antecedent back to the variables it was written with.
#[derive(Debug)]
pub struct RuleRef<'a> {
    pub rule: MPRule<'a>,
    pub varmap: MPMatching<'a>,
}

/// The rules found for a fact: each a node of the rule set whose rules matched, with the
/// matching of the normalized variables.
pub type Response<'a> = Vec<(usize, MPMatching<'a>)>;

/// An empty response.
pub fn new_response<'a>() -> (r: Response<'a>)
    ensures
        r@.len() == 0,
{
    Vec::new()
}

/// A node of the rule set, as plain values.
pub struct RSNodeView {
    pub path: Seq<SegView>,
    pub var_child: Option<usize>,
    pub var_children: Seq<(Seq<SegView>, usize)>,
    pub children: Seq<(Seq<SegView>, usize)>,
    pub n_rules: nat,
    pub end_node: bool,
}

#[derive(Debug)]
pub struct RSNode<'a> {
    path: MPPath<'a>,
    var_child: Option<usize>,
    var_children: PathMap<'a>,
    children: PathMap<'a>,
    rule_refs: Vec<RuleRef<'a>>,
    end_node: bool,
}

impl<'a> View for RSNode<'a> {
    type V = RSNodeView;

    closed spec fn view(&self) -> RSNodeView {
        RSNodeView {
            path: self.path@,
            var_child: self.var_child,
            var_children: self.var_children.entries(),
            children: self.children.entries(),
            n_rules: self.rule_refs@.len(),
            end_node: self.end_node,
        }
    }
}

/// Every edge of `nv` leads to a node numbered above `n` and below `len`.
pub open spec fn rs_edges_in(nv: RSNodeView, n: int, len: int) -> bool {
    &&& forall|i: int|
        0 <= i < nv.children.len() ==> n < (#[trigger] nv.children[i]).1 && nv.children[i].1 < len
    &&& forall|i: int|
        0 <= i < nv.var_children.len() ==> n < (#[trigger] nv.var_children[i]).1
            && nv.var_children[i].1 < len
    &&& (nv.var_child matches Some(c) ==> n < c < len)
}

/// The matches of the paths `ps` from node `n` of `ns`, with matching `m`: through the edge
/// for the first leaf path; through the first variable edge whose variable is bound to the
/// prefix of that path of the variable's depth; and through the unbound variable edge,
/// binding its variable to that prefix's value; and, where `n` ends rules, `n` itself.
pub open spec fn climb_spec(
    ns: Seq<RSNodeView>,
    n: int,
    ps: Seq<Seq<SegView>>,
    m: Map<SegKey, SegView>,
) -> Seq<(usize, Map<SegKey, SegView>)>
    decreases ps.len(), 0int,
{
    if n < 0 || n >= ns.len() {
        Seq::empty()
    } else {
        let nv = ns[n];
        let k = first_leafy(ps, 0);
        let found = if 0 <= k < ps.len() {
            let p = ps[k];
            let rest = ps.subrange(k + 1, ps.len() as int);
            let a = if edges_map(nv.children).contains_key(path_identity(p)) {
                climb_spec(ns, edges_map(nv.children)[path_identity(p)] as int, rest, m)
            } else {
                Seq::empty()
            };
            let b = vchild_results(ns, nv.var_children, 0, p, rest, m);
            let c = match nv.var_child {
                Some(vc) => if 0 <= vc < ns.len() && 0 < ns[vc as int].path.len() <= p.len() {
                    climb_spec(
                        ns,
                        vc as int,
                        after_slice(rest, p.take(ns[vc as int].path.len() as int)),
                        m.insert(
                            seg_key(ns[vc as int].path.last()),
                            p[ns[vc as int].path.len() - 1],
                        ),
                    )
                } else {
                    Seq::empty()
                },
                None => Seq::empty(),
            };
            a + b + c
        } else {
            Seq::empty()
        };
        found + (if nv.end_node {
            seq![(n as usize, m)]
        } else {
            Seq::empty()
        })
    }
}

/// The matches through the first of the variable edges `vcs`, from position `j` on, whose
/// variable `m` binds to the prefix of `p` of the variable's depth.
pub open spec fn vchild_results(
    ns: Seq<RSNodeView>,
    vcs: Seq<(Seq<SegView>, usize)>,
    j: int,
    p: Seq<SegView>,
    rest: Seq<Seq<SegView>>,
    m: Map<SegKey, SegView>,
) -> Seq<(usize, Map<SegKey, SegView>)>
    decreases rest.len(), vcs.len() - j,
{
    if j < 0 || j >= vcs.len() {
        Seq::empty()
    } else {
        let vp = vcs[j].0;
        if 0 < vp.len() <= p.len() && m.contains_key(seg_key(vp.last())) && seg_key(
            m[seg_key(vp.last())],
        ) == seg_key(p[vp.len() - 1]) {
            climb_spec(ns, vcs[j].1 as int, after_slice(rest, p.take(vp.len() as int)), m)
        } else {
            vchild_results(ns, vcs, j + 1, p, rest, m)
        }
    }
}

/// The node that the edge for the leaf path `p` leads to out of node `n`: for a variable,
/// the edge keyed by its path among the edges of variables seen before, else the edge of
/// an unbound variable where the node it leads to stands for that path; for a value that is
/// not a variable, the edge keyed by its path among the others.
pub open spec fn link_of(ns: Seq<RSNodeView>, n: int, p: Seq<SegView>) -> Option<int> {
    if p.last().is_var {
        if edges_map(ns[n].var_children).contains_key(path_identity(p)) {
            Some(edges_map(ns[n].var_children)[path_identity(p)] as int)
        } else {
            match ns[n].var_child {
                Some(vc) => if 0 <= vc < ns.len() && path_identity(ns[vc as int].path) == path_identity(p) {
                    Some(vc as int)
                } else {
                    None
                },
                None => None,
            }
        }
    } else if edges_map(ns[n].children).contains_key(path_identity(p)) {
        Some(edges_map(ns[n].children)[path_identity(p)] as int)
    } else {
        None
    }
}

/// The node that the leaf paths of `ps` lead to from node `n`, each through its edge as
/// `link_of` finds it; `None` where an edge is missing.
pub open spec fn rs_walk_v(ns: Seq<RSNodeView>, n: int, ps: Seq<Seq<SegView>>) -> Option<int>
    decreases ps.len(),
{
    if n < 0 || n >= ns.len() {
        None
    } else {
        let k = first_leafy(ps, 0);
        if k < 0 || k >= ps.len() {
            Some(n)
        } else {
            match link_of(ns, n, ps[k]) {
                Some(c) => rs_walk_v(ns, c, ps.subrange(k + 1, ps.len() as int)),
                None => None,
            }
        }
    }
}

/// Two nodes with the same path and the same edges.
pub open spec fn links_same(a: RSNodeView, b: RSNodeView) -> bool {
    &&& a.path == b.path
    &&& a.children == b.children
    &&& a.var_children == b.var_children
    &&& a.var_child == b.var_child
}

/// Every edge of every node leads forward to a node.
pub open spec fn edges_forward(ns: Seq<RSNodeView>) -> bool {
    forall|i: int| 0 <= i < ns.len() ==> rs_edges_in(#[trigger] ns[i], i, ns.len() as int)
}

/// Where the edges lead forward, a walk ends at or after where it starts.
pub proof fn lemma_rs_walk_v_forward(ns: Seq<RSNodeView>, n: int, ps: Seq<Seq<SegView>>)
    requires
        edges_forward(ns),
    ensures
        rs_walk_v(ns, n, ps) matches Some(q) ==> n <= q < ns.len(),
    decreases ps.len(),
{
    lemma_first_leafy_bounds(ps, 0);
    let k = first_leafy(ps, 0);
    if 0 <= n < ns.len() && 0 <= k < ps.len() {
        assert(rs_edges_in(ns[n], n, ns.len() as int));
        match link_of(ns, n, ps[k]) {
            Some(c) => {
                let p = ps[k];
                if p.last().is_var && edges_map(ns[n].var_children).contains_key(path_identity(p)) {
                    let w = crate::pathmap::path_index(ns[n].var_children, path_identity(p));
                    assert(0 <= w < ns[n].var_children.len() && ns[n].var_children[w].1 == edges_map(ns[n].var_children)[path_identity(p)]);
                } else if !p.last().is_var {
                    let w = crate::pathmap::path_index(ns[n].children, path_identity(p));
                    assert(0 <= w < ns[n].children.len() && ns[n].children[w].1 == edges_map(ns[n].children)[path_identity(p)]);
                }
                lemma_rs_walk_v_forward(ns, c, ps.subrange(k + 1, ps.len() as int));
            },
            None => {},
        }
    }
}

/// A walk that ends at `q` is the same in a rule set that keeps every node before `q`
/// with its path and edges, and the path of `q`.
pub proof fn lemma_rs_walk_v_frame(ns: Seq<RSNodeView>, ns2: Seq<RSNodeView>, n: int, ps: Seq<Seq<SegView>>, q: int)
    requires
        edges_forward(ns),
        rs_walk_v(ns, n, ps) == Some(q),
        ns.len() <= ns2.len(),
        forall|i: int| 0 <= i < q ==> links_same(#[trigger] ns[i], ns2[i]),
        ns2[q].path == ns[q].path,
    ensures
        rs_walk_v(ns2, n, ps) == Some(q),
    decreases ps.len(),
{
    lemma_first_leafy_bounds(ps, 0);
    let k = first_leafy(ps, 0);
    if 0 <= k < ps.len() {
        let p = ps[k];
        let c = link_of(ns, n, p)->0;
        let rest = ps.subrange(k + 1, ps.len() as int);
        assert(rs_edges_in(ns[n], n, ns.len() as int));
        if p.last().is_var && edges_map(ns[n].var_children).contains_key(path_identity(p)) {
            let w = crate::pathmap::path_index(ns[n].var_children, path_identity(p));
                    assert(0 <= w < ns[n].var_children.len() && ns[n].var_children[w].1 == edges_map(ns[n].var_children)[path_identity(p)]);
        } else if !p.last().is_var {
            let w = crate::pathmap::path_index(ns[n].children, path_identity(p));
                    assert(0 <= w < ns[n].children.len() && ns[n].children[w].1 == edges_map(ns[n].children)[path_identity(p)]);
        }
        assert(n < c);
        lemma_rs_walk_v_forward(ns, c, rest);
        assert(links_same(ns[n], ns2[n]));
        if p.last().is_var && !edges_map(ns[n].var_children).contains_key(path_identity(p)) {
            let vc = ns[n].var_child->0 as int;
            assert(vc == c);
            if vc < q {
                assert(links_same(ns[vc], ns2[vc]));
            }
        }
        assert(link_of(ns2, n, p) == Some(c));
        lemma_rs_walk_v_frame(ns, ns2, c, rest, q);
    }
}

/// Walking `a` and then `b` is walking `a + b`.
pub proof fn lemma_rs_walk_v_concat(ns: Seq<RSNodeView>, n: int, a: Seq<Seq<SegView>>, b: Seq<Seq<SegView>>)
    requires
        rs_walk_v(ns, n, a) is Some,
    ensures
        rs_walk_v(ns, n, a + b) == rs_walk_v(ns, rs_walk_v(ns, n, a)->0, b),
    decreases a.len(),
{
    lemma_first_leafy_bounds(a, 0);
    lemma_first_leafy_bounds(b, 0);
    lemma_first_leafy_concat(a, b, 0);
    let k = first_leafy(a, 0);
    if k < a.len() {
        assert((a + b)[k] == a[k]);
        let c = link_of(ns, n, a[k])->0;
        assert((a + b).subrange(k + 1, (a + b).len() as int) =~= a.subrange(k + 1, a.len() as int) + b);
        lemma_rs_walk_v_concat(ns, c, a.subrange(k + 1, a.len() as int), b);
    } else {
        let kb = first_leafy(b, 0);
        if kb < b.len() {
            assert((a + b)[a.len() + kb] == b[kb]);
            assert((a + b).subrange(a.len() + kb + 1, (a + b).len() as int) =~= b.subrange(kb + 1, b.len() as int));
        }
    }
}

/// Through the edges of variables already bound, a climb goes on only where the fact's
/// segment at the variable's depth is the value bound to it, by name and text: where, for
/// every such edge from position `j` on, the fact's segment differs from the binding, the
/// climb reaches nothing through them; a segment of the same name but another text is no
/// match.
pub proof fn lemma_bound_edges_need_the_bound_value(
    ns: Seq<RSNodeView>,
    vcs: Seq<(Seq<SegView>, usize)>,
    j: int,
    p: Seq<SegView>,
    rest: Seq<Seq<SegView>>,
    m: Map<SegKey, SegView>,
)
    requires
        forall|i: int|
            j <= i < vcs.len() && 0 < (#[trigger] vcs[i]).0.len() <= p.len() && m.contains_key(seg_key(vcs[i].0.last()))
                ==> seg_key(m[seg_key(vcs[i].0.last())]) != seg_key(p[vcs[i].0.len() - 1]),
    ensures
        vchild_results(ns, vcs, j, p, rest, m).len() == 0,
    decreases vcs.len() - j,
{
    if 0 <= j < vcs.len() {
        lemma_bound_edges_need_the_bound_value(ns, vcs, j + 1, p, rest, m);
    }
}

/// Through the edges of variables already bound, a climb goes on through the first edge
/// from position `j` on whose variable is bound to the fact's segment at its depth, by name
/// and text, and binds nothing anew there.
pub proof fn lemma_bound_edge_taken(
    ns: Seq<RSNodeView>,
    vcs: Seq<(Seq<SegView>, usize)>,
    j: int,
    i: int,
    p: Seq<SegView>,
    rest: Seq<Seq<SegView>>,
    m: Map<SegKey, SegView>,
)
    requires
        0 <= j <= i < vcs.len(),
        0 < vcs[i].0.len() <= p.len(),
        m.contains_key(seg_key(vcs[i].0.last())),
        seg_key(m[seg_key(vcs[i].0.last())]) == seg_key(p[vcs[i].0.len() - 1]),
        forall|l: int|
            j <= l < i && 0 < (#[trigger] vcs[l]).0.len() <= p.len() && m.contains_key(seg_key(vcs[l].0.last()))
                ==> seg_key(m[seg_key(vcs[l].0.last())]) != seg_key(p[vcs[l].0.len() - 1]),
    ensures
        vchild_results(ns, vcs, j, p, rest, m) == climb_spec(ns, vcs[i].1 as int, after_slice(rest, p.take(vcs[i].0.len() as int)), m),
    decreases i - j,
{
    if j < i {
        lemma_bound_edge_taken(ns, vcs, j + 1, i, p, rest, m);
    }
}

/// Every matching that a climb gives binds every variable that the matching it started with
/// binds: a climb only adds bindings, or binds a variable anew.
pub proof fn lemma_climb_keeps_bound(ns: Seq<RSNodeView>, n: int, ps: Seq<Seq<SegView>>, m: Map<SegKey, SegView>)
    ensures
        forall|i: int|
            0 <= i < climb_spec(ns, n, ps, m).len() ==> m.dom().subset_of(#[trigger] climb_spec(ns, n, ps, m)[i].1.dom()),
    decreases ps.len(), 0int,
{
    if 0 <= n < ns.len() {
        let nv = ns[n];
        lemma_first_leafy_bounds(ps, 0);
        let k = first_leafy(ps, 0);
        let found = if 0 <= k < ps.len() {
            let p = ps[k];
            let rest = ps.subrange(k + 1, ps.len() as int);
            let a = if edges_map(nv.children).contains_key(path_identity(p)) {
                lemma_climb_keeps_bound(ns, edges_map(nv.children)[path_identity(p)] as int, rest, m);
                climb_spec(ns, edges_map(nv.children)[path_identity(p)] as int, rest, m)
            } else {
                Seq::empty()
            };
            lemma_vchild_keeps_bound(ns, nv.var_children, 0, p, rest, m);
            let b = vchild_results(ns, nv.var_children, 0, p, rest, m);
            let c = match nv.var_child {
                Some(vc) => if 0 <= vc < ns.len() && 0 < ns[vc as int].path.len() <= p.len() {
                    let m2 = m.insert(seg_key(ns[vc as int].path.last()), p[ns[vc as int].path.len() - 1]);
                    lemma_climb_keeps_bound(ns, vc as int, after_slice(rest, p.take(ns[vc as int].path.len() as int)), m2);
                    assert(m.dom().subset_of(m2.dom()));
                    climb_spec(ns, vc as int, after_slice(rest, p.take(ns[vc as int].path.len() as int)), m2)
                } else {
                    Seq::empty()
                },
                None => Seq::empty(),
            };
            assert forall|i: int| 0 <= i < (a + b + c).len() implies m.dom().subset_of(#[trigger] (a + b + c)[i].1.dom()) by {
                if i < a.len() {
                    assert((a + b + c)[i] == a[i]);
                } else if i < a.len() + b.len() {
                    assert((a + b + c)[i] == b[i - a.len()]);
                } else {
                    assert((a + b + c)[i] == c[i - a.len() - b.len()]);
                }
            }
            a + b + c
        } else {
            Seq::empty()
        };
        let end: Seq<(usize, Map<SegKey, SegView>)> = if nv.end_node { seq![(n as usize, m)] } else { Seq::empty() };
        assert(climb_spec(ns, n, ps, m) == found + end);
        assert forall|i: int| 0 <= i < (found + end).len() implies m.dom().subset_of(#[trigger] (found + end)[i].1.dom()) by {
            if i < found.len() {
                assert((found + end)[i] == found[i]);
            } else {
                assert((found + end)[i] == end[i - found.len()]);
            }
        }
    }
}

/// Every matching that the climb through the variable edges gives binds every variable
/// that `m` binds.
proof fn lemma_vchild_keeps_bound(
    ns: Seq<RSNodeView>,
    vcs: Seq<(Seq<SegView>, usize)>,
    j: int,
    p: Seq<SegView>,
    rest: Seq<Seq<SegView>>,
    m: Map<SegKey, SegView>,
)
    ensures
        forall|i: int|
            0 <= i < vchild_results(ns, vcs, j, p, rest, m).len() ==> m.dom().subset_of(
                #[trigger] vchild_results(ns, vcs, j, p, rest, m)[i].1.dom(),
            ),
    decreases rest.len(), vcs.len() - j,
{
    if 0 <= j < vcs.len() {
        let vp = vcs[j].0;
        if 0 < vp.len() <= p.len() && m.contains_key(seg_key(vp.last())) && seg_key(m[seg_key(vp.last())]) == seg_key(p[vp.len() - 1]) {
            lemma_climb_keeps_bound(ns, vcs[j].1 as int, after_slice(rest, p.take(vp.len() as int)), m);
            assert(vchild_results(ns, vcs, j, p, rest, m) == climb_spec(ns, vcs[j].1 as int, after_slice(rest, p.take(vp.len() as int)), m));
        } else {
            lemma_vchild_keeps_bound(ns, vcs, j + 1, p, rest, m);
            assert(vchild_results(ns, vcs, j, p, rest, m) == vchild_results(ns, vcs, j + 1, p, rest, m));
        }
    }
}

/// The variables of the leaf paths of `ps` that end in one.
pub open spec fn leafy_vars(ps: Seq<Seq<SegView>>) -> Set<SegKey> {
    Set::new(|k: SegKey| exists|i: int| 0 <= i < ps.len() && is_leafy(#[trigger] ps[i]) && ps[i].last().is_var && seg_key(ps[i].last()) == k)
}

/// The identities of the segments `v`.
pub open spec fn seg_keys(v: Seq<&MPSegment>) -> Set<SegKey> {
    Set::new(|k: SegKey| exists|i: int| 0 <= i < v.len() && seg_key((#[trigger] v[i])@) == k)
}

proof fn lemma_seg_keys_push(v: Seq<&MPSegment>, x: &MPSegment)
    ensures
        seg_keys(v.push(x)) == seg_keys(v).insert(seg_key(x@)),
{
    let w = v.push(x);
    assert forall|k: SegKey| seg_keys(w).contains(k) implies seg_keys(v).insert(seg_key(x@)).contains(k) by {
        let i = choose|i: int| 0 <= i < w.len() && seg_key((#[trigger] w[i])@) == k;
        if i < v.len() {
            assert(w[i] == v[i]);
        }
    }
    assert forall|k: SegKey| seg_keys(v).insert(seg_key(x@)).contains(k) implies seg_keys(w).contains(k) by {
        if k == seg_key(x@) {
            assert(w[v.len() as int] == x);
        } else {
            let i = choose|i: int| 0 <= i < v.len() && seg_key((#[trigger] v[i])@) == k;
            assert(w[i] == v[i]);
        }
    }
    assert(seg_keys(w) =~= seg_keys(v).insert(seg_key(x@)));
}

/// The variables of the leaf paths of `a + b` are those of `a` and of `b`.
proof fn lemma_leafy_vars_concat(a: Seq<Seq<SegView>>, b: Seq<Seq<SegView>>)
    ensures
        leafy_vars(a + b) == leafy_vars(a).union(leafy_vars(b)),
{
    let ab = a + b;
    assert forall|k: SegKey| leafy_vars(ab).contains(k) implies leafy_vars(a).union(leafy_vars(b)).contains(k) by {
        let i = choose|i: int| 0 <= i < ab.len() && is_leafy(#[trigger] ab[i]) && ab[i].last().is_var && seg_key(ab[i].last()) == k;
        if i < a.len() {
            assert(ab[i] == a[i]);
        } else {
            assert(ab[i] == b[i - a.len()]);
        }
    }
    assert forall|k: SegKey| leafy_vars(a).union(leafy_vars(b)).contains(k) implies leafy_vars(ab).contains(k) by {
        if leafy_vars(a).contains(k) {
            let i = choose|i: int| 0 <= i < a.len() && is_leafy(#[trigger] a[i]) && a[i].last().is_var && seg_key(a[i].last()) == k;
            assert(ab[i] == a[i]);
        } else {
            let i = choose|i: int| 0 <= i < b.len() && is_leafy(#[trigger] b[i]) && b[i].last().is_var && seg_key(b[i].last()) == k;
            assert(ab[i + a.len()] == b[i]);
        }
    }
    assert(leafy_vars(ab) =~= leafy_vars(a).union(leafy_vars(b)));
}

/// The variables `vis` with that of the path `p`, where `p` ends in one.
pub open spec fn vis_next(vis: Set<SegKey>, p: Seq<SegView>) -> Set<SegKey> {
    if p.last().is_var {
        vis.insert(seg_key(p.last()))
    } else {
        vis
    }
}

/// The node that the edge for the leaf path `p` leads to out of node `n`, where the
/// variables `vis` were met before: a variable met before is looked up by its path among
/// the edges of variables seen before; a variable met for the first time takes the node's
/// edge of an unbound variable, where the node it leads to stands for that path; a value
/// that is not a variable is looked up among the others.
pub open spec fn link_s(ns: Seq<RSNodeView>, n: int, p: Seq<SegView>, vis: Set<SegKey>) -> Option<int> {
    if p.last().is_var {
        if vis.contains(seg_key(p.last())) {
            if edges_map(ns[n].var_children).contains_key(path_identity(p)) {
                Some(edges_map(ns[n].var_children)[path_identity(p)] as int)
            } else {
                None
            }
        } else {
            match ns[n].var_child {
                Some(vc) => if 0 <= vc < ns.len() && path_identity(ns[vc as int].path) == path_identity(p) {
                    Some(vc as int)
                } else {
                    None
                },
                None => None,
            }
        }
    } else if edges_map(ns[n].children).contains_key(path_identity(p)) {
        Some(edges_map(ns[n].children)[path_identity(p)] as int)
    } else {
        None
    }
}

/// The node that the leaf paths of `ps` lead to from node `n`, each through its edge as
/// `link_s` finds it, the variables `vis` having been met before; `None` where an edge is
/// missing.
pub open spec fn rs_walk_s(ns: Seq<RSNodeView>, n: int, ps: Seq<Seq<SegView>>, vis: Set<SegKey>) -> Option<int>
    decreases ps.len(),
{
    if n < 0 || n >= ns.len() {
        None
    } else {
        let k = first_leafy(ps, 0);
        if k < 0 || k >= ps.len() {
            Some(n)
        } else {
            match link_s(ns, n, ps[k], vis) {
                Some(c) => rs_walk_s(ns, c, ps.subrange(k + 1, ps.len() as int), vis_next(vis, ps[k])),
                None => None,
            }
        }
    }
}

proof fn lemma_first_leafy_skip(ps: Seq<Seq<SegView>>, i: int)
    requires
        0 <= i <= ps.len(),
    ensures
        forall|j: int| i <= j < first_leafy(ps, i) ==> !is_leafy(#[trigger] ps[j]),
        first_leafy(ps, i) < ps.len() ==> is_leafy(ps[first_leafy(ps, i)]),
    decreases ps.len() - i,
{
    if i < ps.len() && !is_leafy(ps[i]) {
        lemma_first_leafy_skip(ps, i + 1);
    }
}

/// The variables of the leaf paths of `a` are those of its first leaf path and of what
/// follows it.
proof fn lemma_leafy_vars_step(a: Seq<Seq<SegView>>)
    ensures
        first_leafy(a, 0) >= a.len() ==> leafy_vars(a) == Set::<SegKey>::empty(),
        first_leafy(a, 0) < a.len() ==> leafy_vars(a) == (if a[first_leafy(a, 0)].last().is_var {
            leafy_vars(a.subrange(first_leafy(a, 0) + 1, a.len() as int)).insert(seg_key(a[first_leafy(a, 0)].last()))
        } else {
            leafy_vars(a.subrange(first_leafy(a, 0) + 1, a.len() as int))
        }),
{
    lemma_first_leafy_skip(a, 0);
    lemma_first_leafy_bounds(a, 0);
    let k = first_leafy(a, 0);
    if k >= a.len() {
        assert(leafy_vars(a) =~= Set::<SegKey>::empty());
    } else {
        let r = a.subrange(k + 1, a.len() as int);
        let rhs = if a[k].last().is_var { leafy_vars(r).insert(seg_key(a[k].last())) } else { leafy_vars(r) };
        assert forall|key: SegKey| leafy_vars(a).contains(key) implies rhs.contains(key) by {
            let i = choose|i: int| 0 <= i < a.len() && is_leafy(#[trigger] a[i]) && a[i].last().is_var && seg_key(a[i].last()) == key;
            if i > k {
                assert(r[i - k - 1] == a[i]);
            }
        }
        assert forall|key: SegKey| rhs.contains(key) implies leafy_vars(a).contains(key) by {
            if leafy_vars(r).contains(key) {
                let i = choose|i: int| 0 <= i < r.len() && is_leafy(#[trigger] r[i]) && r[i].last().is_var && seg_key(r[i].last()) == key;
                assert(a[i + k + 1] == r[i]);
            }
        }
        assert(leafy_vars(a) =~= rhs);
    }
}

/// Walking `a` and then `b` strictly is walking `a + b`, with the variables of `a` met.
pub proof fn lemma_rs_walk_s_concat(ns: Seq<RSNodeView>, n: int, a: Seq<Seq<SegView>>, b: Seq<Seq<SegView>>, vis: Set<SegKey>)
    requires
        rs_walk_s(ns, n, a, vis) is Some,
    ensures
        rs_walk_s(ns, n, a + b, vis) == rs_walk_s(ns, rs_walk_s(ns, n, a, vis)->0, b, vis.union(leafy_vars(a))),
    decreases a.len(),
{
    lemma_first_leafy_bounds(a, 0);
    lemma_first_leafy_bounds(b, 0);
    lemma_first_leafy_concat(a, b, 0);
    lemma_leafy_vars_step(a);
    let k = first_leafy(a, 0);
    if k < a.len() {
        assert((a + b)[k] == a[k]);
        let c = link_s(ns, n, a[k], vis)->0;
        let r = a.subrange(k + 1, a.len() as int);
        assert((a + b).subrange(k + 1, (a + b).len() as int) =~= r + b);
        lemma_rs_walk_s_concat(ns, c, r, b, vis_next(vis, a[k]));
        assert(vis_next(vis, a[k]).union(leafy_vars(r)) =~= vis.union(leafy_vars(a)));
    } else {
        assert(vis.union(leafy_vars(a)) =~= vis);
        let kb = first_leafy(b, 0);
        if kb < b.len() {
            assert((a + b)[a.len() + kb] == b[kb]);
            assert((a + b).subrange(a.len() + kb + 1, (a + b).len() as int) =~= b.subrange(kb + 1, b.len() as int));
        }
    }
}

/// Where the edges lead forward, a strict walk ends at or after where it starts.
pub proof fn lemma_rs_walk_s_forward(ns: Seq<RSNodeView>, n: int, ps: Seq<Seq<SegView>>, vis: Set<SegKey>)
    requires
        edges_forward(ns),
    ensures
        rs_walk_s(ns, n, ps, vis) matches Some(q) ==> n <= q < ns.len(),
    decreases ps.len(),
{
    lemma_first_leafy_bounds(ps, 0);
    let k = first_leafy(ps, 0);
    if 0 <= n < ns.len() && 0 <= k < ps.len() {
        assert(rs_edges_in(ns[n], n, ns.len() as int));
        match link_s(ns, n, ps[k], vis) {
            Some(c) => {
                let p = ps[k];
                if p.last().is_var && vis.contains(seg_key(p.last())) {
                    let w = crate::pathmap::path_index(ns[n].var_children, path_identity(p));
                    assert(0 <= w < ns[n].var_children.len() && ns[n].var_children[w].1 == edges_map(ns[n].var_children)[path_identity(p)]);
                } else if !p.last().is_var {
                    let w = crate::pathmap::path_index(ns[n].children, path_identity(p));
                    assert(0 <= w < ns[n].children.len() && ns[n].children[w].1 == edges_map(ns[n].children)[path_identity(p)]);
                }
                lemma_rs_walk_s_forward(ns, c, ps.subrange(k + 1, ps.len() as int), vis_next(vis, p));
            },
            None => {},
        }
    }
}

/// A strict walk that ends at `q` is the same in a rule set that keeps every node before
/// `q` with its path and edges, and the path of `q`.
pub proof fn lemma_rs_walk_s_frame(ns: Seq<RSNodeView>, ns2: Seq<RSNodeView>, n: int, ps: Seq<Seq<SegView>>, vis: Set<SegKey>, q: int)
    requires
        edges_forward(ns),
        rs_walk_s(ns, n, ps, vis) == Some(q),
        ns.len() <= ns2.len(),
        forall|i: int| 0 <= i < q ==> links_same(#[trigger] ns[i], ns2[i]),
        ns2[q].path == ns[q].path,
    ensures
        rs_walk_s(ns2, n, ps, vis) == Some(q),
    decreases ps.len(),
{
    lemma_first_leafy_bounds(ps, 0);
    let k = first_leafy(ps, 0);
    if 0 <= k < ps.len() {
        let p = ps[k];
        let c = link_s(ns, n, p, vis)->0;
        let rest = ps.subrange(k + 1, ps.len() as int);
        assert(rs_edges_in(ns[n], n, ns.len() as int));
        if p.last().is_var && vis.contains(seg_key(p.last())) {
            let w = crate::pathmap::path_index(ns[n].var_children, path_identity(p));
            assert(0 <= w < ns[n].var_children.len() && ns[n].var_children[w].1 == edges_map(ns[n].var_children)[path_identity(p)]);
        } else if !p.last().is_var {
            let w = crate::pathmap::path_index(ns[n].children, path_identity(p));
            assert(0 <= w < ns[n].children.len() && ns[n].children[w].1 == edges_map(ns[n].children)[path_identity(p)]);
        }
        assert(n < c);
        lemma_rs_walk_s_forward(ns, c, rest, vis_next(vis, p));
        assert(links_same(ns[n], ns2[n]));
        if p.last().is_var && !vis.contains(seg_key(p.last())) {
            let vc = ns[n].var_child->0 as int;
            assert(vc == c);
            if vc < q {
                assert(links_same(ns[vc], ns2[vc]));
            }
        }
        assert(link_s(ns2, n, p, vis) == Some(c));
        lemma_rs_walk_s_frame(ns, ns2, c, rest, vis_next(vis, p), q);
    }
}

/// The node that the leaf paths of `ps` lead to from node `n`, each through the edge for it
/// among the edges of values that are not variables; `None` where a leaf path ends in a
/// variable or its edge is missing.
pub open spec fn rs_walk(ns: Seq<RSNodeView>, n: int, ps: Seq<Seq<SegView>>) -> Option<int>
    decreases ps.len(),
{
    if n < 0 || n >= ns.len() {
        None
    } else {
        let k = first_leafy(ps, 0);
        if k < 0 || k >= ps.len() {
            Some(n)
        } else if ps[k].last().is_var {
            None
        } else if edges_map(ns[n].children).contains_key(path_identity(ps[k])) {
            rs_walk(
                ns,
                edges_map(ns[n].children)[path_identity(ps[k])] as int,
                ps.subrange(k + 1, ps.len() as int),
            )
        } else {
            None
        }
    }
}

/// `new` keeps every node of `old` with every edge it had for values that are not
/// variables, and every node of `old` that ended rules still ends rules.
pub open spec fn rs_extends(old: Seq<RSNodeView>, new: Seq<RSNodeView>) -> bool {
    &&& old.len() <= new.len()
    &&& forall|i: int| 0 <= i < old.len() ==> edges_kept(edges_map(old[i].children), edges_map(#[trigger] new[i].children))
    &&& forall|i: int| 0 <= i < old.len() && old[i].end_node ==> (#[trigger] new[i]).end_node
}

/// A rule set extends itself.
pub proof fn lemma_rs_extends_refl(a: Seq<RSNodeView>)
    ensures
        rs_extends(a, a),
{
}

/// Extending an extension of a rule set extends it.
pub proof fn lemma_rs_extends_trans(a: Seq<RSNodeView>, b: Seq<RSNodeView>, c: Seq<RSNodeView>)
    requires
        rs_extends(a, b),
        rs_extends(b, c),
    ensures
        rs_extends(a, c),
{
    assert forall|i: int| 0 <= i < a.len() implies edges_kept(edges_map(a[i].children), edges_map(#[trigger] c[i].children)) by {
        assert(edges_kept(edges_map(a[i].children), edges_map(b[i].children)));
        assert(edges_kept(edges_map(b[i].children), edges_map(c[i].children)));
    }
    assert forall|i: int| 0 <= i < a.len() && a[i].end_node implies (#[trigger] c[i]).end_node by {
        assert(b[i].end_node);
    }
}

/// Where the paths lead in a rule set, they still lead once it is extended: storing more
/// rules loses no way to the rules stored.
pub proof fn lemma_rs_walk_extends(old: Seq<RSNodeView>, new: Seq<RSNodeView>, n: int, ps: Seq<Seq<SegView>>)
    requires
        rs_extends(old, new),
        rs_walk(old, n, ps) is Some,
    ensures
        rs_walk(new, n, ps) == rs_walk(old, n, ps),
    decreases ps.len(),
{
    lemma_first_leafy_bounds(ps, 0);
    let k = first_leafy(ps, 0);
    if 0 <= k < ps.len() {
        let key = path_identity(ps[k]);
        assert(edges_kept(edges_map(old[n].children), edges_map(new[n].children)));
        lemma_rs_walk_extends(old, new, edges_map(old[n].children)[key] as int, ps.subrange(k + 1, ps.len() as int));
    }
}

/// Walking `a` and then `b` is walking `a + b`.
pub proof fn lemma_rs_walk_concat(ns: Seq<RSNodeView>, n: int, a: Seq<Seq<SegView>>, b: Seq<Seq<SegView>>)
    requires
        rs_walk(ns, n, a) is Some,
    ensures
        rs_walk(ns, n, a + b) == rs_walk(ns, rs_walk(ns, n, a)->0, b),
    decreases a.len(),
{
    lemma_first_leafy_bounds(a, 0);
    lemma_first_leafy_bounds(b, 0);
    lemma_first_leafy_concat(a, b, 0);
    let k = first_leafy(a, 0);
    if k < a.len() {
        assert((a + b)[k] == a[k]);
        let key = path_identity(a[k]);
        let c = edges_map(ns[n].children)[key] as int;
        assert((a + b).subrange(k + 1, (a + b).len() as int) =~= a.subrange(k + 1, a.len() as int) + b);
        lemma_rs_walk_concat(ns, c, a.subrange(k + 1, a.len() as int), b);
    } else {
        let kb = first_leafy(b, 0);
        if kb < b.len() {
            assert((a + b)[a.len() + kb] == b[kb]);
            assert((a + b).subrange(a.len() + kb + 1, (a + b).len() as int) =~= b.subrange(kb + 1, b.len() as int));
        }
    }
}

/// A fact whose leaf paths lead, through edges of values that are not variables, to a node
/// that ends rules reaches that node when it climbs the rule set, under the matching it
/// started with.
pub proof fn lemma_walk_climbs(ns: Seq<RSNodeView>, n: int, ps: Seq<Seq<SegView>>, m: Map<SegKey, SegView>)
    requires
        rs_walk(ns, n, ps) is Some,
        ns[rs_walk(ns, n, ps)->0].end_node,
    ensures
        climb_spec(ns, n, ps, m).contains((rs_walk(ns, n, ps)->0 as usize, m)),
    decreases ps.len(),
{
    lemma_first_leafy_bounds(ps, 0);
    let k = first_leafy(ps, 0);
    let e = rs_walk(ns, n, ps)->0;
    let whole = climb_spec(ns, n, ps, m);
    if 0 <= k < ps.len() {
        let p = ps[k];
        let rest = ps.subrange(k + 1, ps.len() as int);
        let c = edges_map(ns[n].children)[path_identity(p)] as int;
        lemma_walk_climbs(ns, c, rest, m);
        let a = climb_spec(ns, c, rest, m);
        let j = choose|j: int| 0 <= j < a.len() && a[j] == (e as usize, m);
        let b = vchild_results(ns, ns[n].var_children, 0, p, rest, m);
        let cs = match ns[n].var_child {
            Some(vc) => if 0 <= vc < ns.len() && 0 < ns[vc as int].path.len() <= p.len() {
                climb_spec(
                    ns,
                    vc as int,
                    after_slice(rest, p.take(ns[vc as int].path.len() as int)),
                    m.insert(seg_key(ns[vc as int].path.last()), p[ns[vc as int].path.len() - 1]),
                )
            } else {
                Seq::empty()
            },
            None => Seq::empty(),
        };
        let found = a + b + cs;
        assert(found[j] == (e as usize, m));
        assert(whole == found + (if ns[n].end_node { seq![(n as usize, m)] } else { Seq::empty() }));
        assert(whole[j] == (e as usize, m));
    } else {
        assert(e == n);
        assert(whole == Seq::<(usize, Map<SegKey, SegView>)>::empty() + seq![(n as usize, m)]);
        assert(whole[0] == (e as usize, m));
    }
}

/// The responses of a list, as node numbers and maps.
pub open spec fn response_view(v: Seq<(usize, MPMatching)>) -> Seq<(usize, Map<SegKey, SegView>)> {
    v.map_values(|e: (usize, MPMatching)| (e.0, e.1@))
}

/// Every matching of the response is well formed.
pub open spec fn response_wf(v: Seq<(usize, MPMatching)>) -> bool {
    forall|i: int| 0 <= i < v.len() ==> (#[trigger] v[i]).1.wf()
}

impl<'a> RSNode<'a> {
    /// The node's path is well formed, as are its edge maps.
    pub closed spec fn wf(&self) -> bool {
        &&& self.path.wf()
        &&& self.var_children.wf()
        &&& self.children.wf()
    }

    /// The rules that end at this node.
    pub closed spec fn rules(&self) -> Seq<RuleRef<'a>> {
        self.rule_refs@
    }

    /// A node for `root_path`, without edges or rules, standing at `depth`, counted from 1
    /// at the root. The depth is not used otherwise.
    pub fn new(root_path: MPPath<'a>, depth: usize) -> (r: RSNode<'a>)
        requires
            root_path.wf(),
            depth >= 1,
        ensures
            r.wf(),
            r.rules() == Seq::<RuleRef<'a>>::empty(),
            r@ == (RSNodeView {
                path: root_path@,
                var_child: None,
                var_children: Seq::empty(),
                children: Seq::empty(),
                n_rules: 0,
                end_node: false,
            }),
    {
        let r = RSNode {
            path: root_path,
            var_child: None,
            children: PathMap::new(),
            var_children: PathMap::new(),
            rule_refs: Vec::new(),
            end_node: false,
        };
        assert(r@.var_children =~= Seq::<(Seq<SegView>, usize)>::empty());
        r
    }

    /// The path that leads to this node.
    pub fn path(&self) -> (r: &MPPath<'a>)
        requires
            self.wf(),
        ensures
            r.wf(),
            r@ == self@.path,
    {
        &self.path
    }

    /// The rules that end at this node.
    pub fn rule_refs(&self) -> (r: &Vec<RuleRef<'a>>)
        ensures
            r@ == self.rules(),
            r@.len() == self@.n_rules,
    {
        &self.rule_refs
    }

    /// The node that the edge for the non-variable `path` leads to, if any.
    pub fn get_child(&self, path: &MPPath) -> (r: Option<usize>)
        requires
            self.wf(),
            path.wf(),
        ensures
            r == (if edges_map(self@.children).contains_key(path_identity(path@)) {
                Some(edges_map(self@.children)[path_identity(path@)])
            } else {
                None::<usize>
            }),
    {
        self.children.get(path)
    }

    /// `get_child`, taking the path by value and handing it back.
    pub fn get_child_o(&self, path: MPPath<'a>) -> (r: (Option<usize>, MPPath<'a>))
        requires
            self.wf(),
            path.wf(),
        ensures
            r.1 == path,
            r.0 == (if edges_map(self@.children).contains_key(path_identity(path@)) {
                Some(edges_map(self@.children)[path_identity(path@)])
            } else {
                None::<usize>
            }),
    {
        let r = self.children.get(&path);
        (r, path)
    }

    /// The node that the edge for the bound variable `path` leads to, if any.
    pub fn get_vchild(&self, path: &MPPath) -> (r: Option<usize>)
        requires
            self.wf(),
            path.wf(),
        ensures
            r == (if edges_map(self@.var_children).contains_key(path_identity(path@)) {
                Some(edges_map(self@.var_children)[path_identity(path@)])
            } else {
                None::<usize>
            }),
    {
        self.var_children.get(path)
    }

    /// `get_vchild`, taking the path by value and handing it back.
    pub fn get_vchild_o(&self, path: MPPath<'a>) -> (r: (Option<usize>, MPPath<'a>))
        requires
            self.wf(),
            path.wf(),
        ensures
            r.1 == path,
            r.0 == (if edges_map(self@.var_children).contains_key(path_identity(path@)) {
                Some(edges_map(self@.var_children)[path_identity(path@)])
            } else {
                None::<usize>
            }),
    {
        let r = self.var_children.get(&path);
        (r, path)
    }

    /// The node that the edge for an unbound variable leads to, if any.
    pub fn get_var_child(&self) -> (r: Option<usize>)
        ensures
            r == self@.var_child,
    {
        self.var_child
    }

    /// The matches of `paths` from this node, numbered `id` in `set`, with matching `matched`,
    /// appended to `response`; the matching is handed back unchanged.
    #[verifier::rlimit(100)]
    #[verifier::spinoff_prover]
    pub fn climb(
        &self,
        set: &RuleSet<'a>,
        id: usize,
        paths: &[MPPath<'a>],
        response: Response<'a>,
        matched: MPMatching<'a>,
    ) -> (r: (Response<'a>, MPMatching<'a>))
        requires
            set.wf(),
            id < set@.len(),
            set@[id as int] == self@,
            self.wf(),
            all_wf(paths@),
            matched.wf(),
            response_wf(response@),
        ensures
            response_wf(r.0@),
            response_view(r.0@) == response_view(response@) + climb_spec(
                set@,
                id as int,
                paths_view(paths@),
                matched@,
            ),
            r.1.wf(),
            r.1@ == matched@,
        decreases paths@.len(),
    {
        let ghost ps = paths_view(paths@);
        let ghost resp0 = response_view(response@);
        let mut response = response;
        let mut matched = matched;
        proof {
            set.lemma_node_edges(id as int);
        }
        let mut k: usize = 0;
        while k < paths.len()
            invariant
                0 <= k <= paths.len(),
                ps == paths_view(paths@),
                all_wf(paths@),
                first_leafy(ps, k as int) == first_leafy(ps, 0),
            ensures
                0 <= k <= paths.len(),
                first_leafy(ps, k as int) == first_leafy(ps, 0),
                k < paths.len() ==> is_leafy(ps[k as int]),
            decreases paths.len() - k,
        {
            let p = &paths[k];
            assert(p.wf());
            assert(ps[k as int] == p@);
            let v = p.value();
            if !v.is_empty && v.is_leaf {
                break;
            }
            k = k + 1;
        }
        if k < paths.len() {
            let path = &paths[k];
            let rest_paths = &paths[k + 1..paths.len()];
            let ghost p = ps[k as int];
            let ghost rest = ps.subrange(k + 1, ps.len() as int);
            proof {
                assert(path.wf());
                assert(p == path@);
                assert(first_leafy(ps, k as int) == k);
                assert(paths_view(rest_paths@) =~= rest);
                assert(all_wf(rest_paths@)) by {
                    assert forall|i: int| 0 <= i < rest_paths@.len() implies (#[trigger] rest_paths@[i]).wf() by {
                        assert(rest_paths@[i] == paths@[k + 1 + i]);
                    }
                }
            }
            let ghost a_part: Seq<(usize, Map<SegKey, SegView>)> = if edges_map(self@.children).contains_key(path_identity(p)) {
                climb_spec(set@, edges_map(self@.children)[path_identity(p)] as int, rest, matched@)
            } else {
                Seq::empty()
            };
            let child_opt = self.get_child(path);
            match child_opt {
                Some(c) => {
                    proof {
                        set.lemma_edge_in(id as int, self@.children, path_identity(p));
                    }
                    let child = set.node(c);
                    let (new_response, old_matched) = child.climb(set, c, rest_paths, response, matched);
                    response = new_response;
                    matched = old_matched;
                },
                None => {
                    assert(response_view(response@) =~= response_view(response@) + a_part);
                },
            }
            assert(response_view(response@) == resp0 + a_part);
            let ghost vcs = self@.var_children;
            let ghost mv = matched@;
            let n = self.var_children.len();
            let mut j: usize = 0;
            let mut done = false;
            while j < n
                invariant
                    0 <= j <= n,
                    n == vcs.len(),
                    vcs == self@.var_children,
                    set.wf(),
                    id < set@.len(),
                    set@[id as int] == self@,
                    self.wf(),
                    rs_edges_in(self@, id as int, set@.len() as int),
                    path.wf(),
                    path@ == p,
                    all_wf(rest_paths@),
                    paths_view(rest_paths@) == rest,
                    rest_paths@.len() < paths@.len(),
                    matched.wf(),
                    matched@ == mv,
                    response_wf(response@),
                    !done ==> response_view(response@) + vchild_results(set@, vcs, j as int, p, rest, mv)
                        == resp0 + a_part + vchild_results(set@, vcs, 0, p, rest, mv),
                    done ==> response_view(response@) == resp0 + a_part + vchild_results(set@, vcs, 0, p, rest, mv),
                ensures
                    matched.wf(),
                    matched@ == mv,
                    response_wf(response@),
                    !done ==> j == n && response_view(response@) + vchild_results(set@, vcs, j as int, p, rest, mv)
                        == resp0 + a_part + vchild_results(set@, vcs, 0, p, rest, mv),
                    done ==> response_view(response@) == resp0 + a_part + vchild_results(set@, vcs, 0, p, rest, mv),
                decreases n - j,
            {
                if done {
                    break;
                }
                let (vpath, varchild) = self.var_children.entry(j);
                let ghost vp = vcs[j as int].0;
                assert(vpath@ == vp);
                let vlen = vpath.len();
                if 0 < vlen && vlen <= path.len() {
                    let (new_path_slice, new_value) = path.sub_slice(vlen);
                    let vvalue = vpath.value();
                    let old_value = matched.get(vvalue);
                    match old_value {
                        Some(ov) => {
                            if new_value.same(ov) {
                                let new_paths = MPPath::paths_after_slice(new_path_slice, rest_paths);
                                proof {
                                    assert(vcs[j as int].1 == varchild);
                                    assert(id < varchild < set@.len());
                                    assert(segs_view(new_path_slice@) == p.take(vp.len() as int));
                                    assert(all_wf(new_paths@)) by {
                                        assert forall|i: int| 0 <= i < new_paths@.len() implies (#[trigger] new_paths@[i]).wf() by {
                                            let s = crate::path::after_slice_index(rest, p.take(vp.len() as int), 0);
                                            assert(new_paths@[i] == rest_paths@[s + i]);
                                        }
                                    }
                                }
                                let vchild = set.node(varchild);
                                let (new_response, old_matched) = vchild.climb(set, varchild, new_paths, response, matched);
                                response = new_response;
                                matched = old_matched;
                                done = true;
                                j = j + 1;
                                continue;
                            }
                        },
                        None => {},
                    }
                }
                j = j + 1;
            }
            if !done {
                assert(vchild_results(set@, vcs, n as int, p, rest, mv) =~= Seq::<(usize, Map<SegKey, SegView>)>::empty());
                assert(response_view(response@) =~= resp0 + a_part + vchild_results(set@, vcs, 0, p, rest, mv));
            }
            let ghost after_b = response_view(response@);
            let var_child_opt = self.get_var_child();
            match var_child_opt {
                Some(vc) => {
                    let var_child = set.node(vc);
                    let vc_path = var_child.path();
                    let vlen = vc_path.len();
                    if 0 < vlen && vlen <= path.len() {
                        let (new_path_slice, new_value) = path.sub_slice(vlen);
                        let new_paths = MPPath::paths_after_slice(new_path_slice, rest_paths);
                        let mut new_matched = matched.duplicate();
                        let vc_value = vc_path.value();
                        new_matched.insert(vc_value, new_value);
                        proof {
                            assert(segs_view(new_path_slice@) == p.take(vlen as int));
                            assert(all_wf(new_paths@)) by {
                                assert forall|i: int| 0 <= i < new_paths@.len() implies (#[trigger] new_paths@[i]).wf() by {
                                    let s = crate::path::after_slice_index(rest, p.take(vlen as int), 0);
                                    assert(new_paths@[i] == rest_paths@[s + i]);
                                }
                            }
                        }
                        let (new_response, _) = var_child.climb(set, vc, new_paths, response, new_matched);
                        response = new_response;
                    } else {
                        assert(response_view(response@) =~= after_b + Seq::<(usize, Map<SegKey, SegView>)>::empty());
                    }
                },
                None => {
                    assert(response_view(response@) =~= after_b + Seq::<(usize, Map<SegKey, SegView>)>::empty());
                },
            }
        }
        if self.end_node {
            let ghost before = response_view(response@);
            response.push((id, matched.duplicate()));
            proof {
                assert(response_view(response@) =~= before + seq![(id, matched@)]);
            }
        }
        proof {
            assert(response_view(response@) =~= resp0 + climb_spec(set@, id as int, ps, matched@));
        }
        (response, matched)
    }
}

/// The rule set: a tree of nodes numbered in the order they were made; node 0 is the root,
/// and every edge leads to a node made after the one it leaves.
pub struct RuleSet<'a> {
    nodes: Vec<RSNode<'a>>,
}

impl<'a> View for RuleSet<'a> {
    type V = Seq<RSNodeView>;

    closed spec fn view(&self) -> Seq<RSNodeView> {
        self.nodes@.map_values(|n: RSNode<'a>| n@)
    }
}

impl<'a> RuleSet<'a> {
    /// There is a root, every node is well formed, and every edge leads forward to a node.
    pub closed spec fn wf(&self) -> bool {
        &&& self.nodes@.len() > 0
        &&& forall|i: int| 0 <= i < self.nodes@.len() ==> (#[trigger] self.nodes@[i]).wf()
        &&& forall|i: int|
            0 <= i < self.nodes@.len() ==> rs_edges_in(#[trigger] self@[i], i, self@.len() as int)
    }

    /// The rules that end at node `n`.
    pub closed spec fn rules_at(&self, n: int) -> Seq<RuleRef<'a>> {
        self.nodes@[n].rules()
    }

    /// The rules that end at node `n`, none where there is no such node.
    pub open spec fn rules_before(&self, n: int) -> Seq<RuleRef<'a>> {
        if 0 <= n < self@.len() {
            self.rules_at(n)
        } else {
            Seq::empty()
        }
    }

    proof fn lemma_node_edges(&self, n: int)
        requires
            self.wf(),
            0 <= n < self@.len(),
        ensures
            rs_edges_in(self@[n], n, self@.len() as int),
    {
    }

    proof fn lemma_edge_in(&self, n: int, es: Seq<(Seq<SegView>, usize)>, k: Seq<char>)
        requires
            self.wf(),
            0 <= n < self@.len(),
            es == self@[n].children || es == self@[n].var_children,
            edges_map(es).contains_key(k),
        ensures
            n < edges_map(es)[k] < self@.len(),
    {
        let i = crate::pathmap::path_index(es, k);
        assert(es[i].1 == edges_map(es)[k]);
    }

    /// The edges of a well formed rule set lead forward.
    pub proof fn lemma_edges_forward(&self)
        requires
            self.wf(),
        ensures
            edges_forward(self@),
            self@.len() > 0,
    {
    }

    /// An empty rule set: a root for `root_path`.
    pub fn new(root_path: MPPath<'a>) -> (r: RuleSet<'a>)
        requires
            root_path.wf(),
        ensures
            r.wf(),
            r@.len() == 1,
            r@[0].path == root_path@,
            r.rules_at(0) == Seq::<RuleRef<'a>>::empty(),
    {
        let root = RSNode::new(root_path, 1);
        let mut nodes: Vec<RSNode<'a>> = Vec::new();
        nodes.push(root);
        RuleSet { nodes }
    }

    /// The number of nodes.
    pub fn len(&self) -> (r: usize)
        ensures
            r == self@.len(),
    {
        self.nodes.len()
    }

    /// The node numbered `n`.
    pub fn node(&self, n: usize) -> (r: &RSNode<'a>)
        requires
            self.wf(),
            n < self@.len(),
        ensures
            r@ == self@[n as int],
            r.wf(),
            r.rules() == self.rules_at(n as int),
    {
        assert(self.nodes@[n as int].wf());
        &self.nodes[n]
    }

    /// The rules whose first antecedent the fact with these paths matches: for each node
    /// reached, its number and the matching of its normalized variables. The paths are
    /// handed back.
    pub fn query_paths(&self, paths: Vec<MPPath<'a>>) -> (r: (Response<'a>, Vec<MPPath<'a>>))
        requires
            self.wf(),
            all_wf(paths@),
        ensures
            r.1 == paths,
            response_wf(r.0@),
            response_view(r.0@) == climb_spec(self@, 0, paths_view(paths@), Map::empty()),
    {
        let response = new_response();
        let matched = MPMatching::new();
        let root = self.node(0);
        assert(response_view(response@) =~= Seq::<(usize, Map<SegKey, SegView>)>::empty());
        let (response, _) = root.climb(self, 0, paths.as_slice(), response, matched);
        assert(response_view(response@) =~= climb_spec(self@, 0, paths_view(paths@), Map::empty()));
        (response, paths)
    }
}


impl<'a> RuleSet<'a> {
    /// Stores a rule under the leaf paths of its normalized first antecedent: they are
    /// followed from the root as far as the set has them, the rest is made, and the rule is
    /// added to the rules of the node reached.
    pub fn follow_and_create_paths(&mut self, paths: Vec<MPPath<'a>>, rule_ref: RuleRef<'a>, depth: usize)
        requires
            old(self).wf(),
            all_wf(paths@),
        ensures
            final(self).wf(),
            old(self)@.len() <= final(self)@.len(),
            rs_extends(old(self)@, final(self)@),
            exists|n: int|
                #![trigger final(self).rules_at(n)]
                0 <= n < final(self)@.len() && final(self)@[n].end_node && final(self).rules_at(n)
                    == old(self).rules_before(n).push(rule_ref) && (var_free(paths_view(paths@)) ==> rs_walk(
                    final(self)@,
                    0,
                    paths_view(paths@),
                ) == Some(n)) && rs_walk_v(final(self)@, 0, paths_view(paths@)) == Some(n) && (rs_walk_v(
                    old(self)@,
                    0,
                    paths_view(paths@),
                ) is Some ==> final(self)@.len() == old(self)@.len() && rs_walk_v(old(self)@, 0, paths_view(paths@)) == Some(n))
                    && (exists|k: int, m: int, vis: Set<SegKey>|
                    #![trigger rs_walk_s(final(self)@, m, paths_view(paths@).skip(k), vis)]
                    0 <= k <= paths@.len() && rs_walk_v(old(self)@, 0, paths_view(paths@).take(k)) == Some(m)
                        && vis.subset_of(leafy_vars(paths_view(paths@).take(k))) && rs_walk_s(
                        final(self)@,
                        m,
                        paths_view(paths@).skip(k),
                        vis,
                    ) == Some(n))
                    && forall|i: int|
                    0 <= i < final(self)@.len() && i != n ==> final(self).rules_at(i) == old(
                        self,
                    ).rules_before(i),
    {
        let ghost ps0 = paths_view(paths@);
        let ghost mut consumed: Seq<Seq<SegView>> = Seq::empty();
        let mut remaining = paths;
        let mut parent: usize = 0;
        let mut visited_vars: Vec<&'a MPSegment> = Vec::new();
        proof {
            assert(ps0 =~= consumed + paths_view(remaining@));
            assert(rs_walk(self@, 0, consumed) == Some(0int));
            assert(rs_walk_v(self@, 0, consumed) == Some(0int));
            assert(seg_keys(visited_vars@) =~= Set::<SegKey>::empty());
            self.lemma_edges_forward();
        }
        while remaining.len() > 0
            invariant
                self.wf(),
                old(self)@.len() <= self@.len(),
                parent < self@.len(),
                all_wf(remaining@),
                forall|i: int| 0 <= i < self@.len() ==> self.rules_at(i) == (if i < old(self)@.len() { old(self).rules_at(i) } else { Seq::empty() }),
                self@ == old(self)@,
                ps0 == consumed + paths_view(remaining@),
                ps0 == paths_view(paths@),
                var_free(ps0) ==> rs_walk(self@, 0, consumed) == Some(parent as int),
                rs_walk_v(self@, 0, consumed) == Some(parent as int),
                edges_forward(old(self)@),
                seg_keys(visited_vars@).subset_of(leafy_vars(consumed)),
            decreases remaining@.len(),
        {
            let ghost before = remaining@;
            let new_path = remaining.remove(0);
            proof {
                assert(before[0].wf());
                assert(new_path.wf());
                assert forall|i: int| 0 <= i < remaining@.len() implies (#[trigger] remaining@[i]).wf() by {
                    assert(remaining@[i] == before[i + 1]);
                    assert(before[i + 1].wf());
                }
                assert(paths_view(before) =~= seq![new_path@] + paths_view(remaining@));
                assert(ps0 =~= consumed.push(new_path@) + paths_view(remaining@));
                assert(ps0[consumed.len() as int] == new_path@);
                assert(consumed + seq![new_path@] =~= consumed.push(new_path@));
            }
            let ghost q = seq![new_path@];
            let value = new_path.value();
            if value.is_empty || !value.is_leaf {
                proof {
                    assert(first_leafy(q, 1) == 1);
                    assert(first_leafy(q, 0) == 1);
                    if var_free(ps0) {
                        assert(rs_walk(self@, parent as int, q) == Some(parent as int));
                        lemma_rs_walk_concat(self@, 0, consumed, q);
                    }
                    assert(rs_walk_v(self@, parent as int, q) == Some(parent as int));
                    lemma_rs_walk_v_concat(self@, 0, consumed, q);
                    lemma_leafy_vars_concat(consumed, q);
                    consumed = consumed.push(new_path@);
                }
                continue;
            }
            let mut child: Option<usize> = None;
            let new_path = if value.is_var {
                let (vchild, new_path) = self.node(parent).get_vchild_o(new_path);
                match vchild {
                    Some(c) => {
                        proof { self.lemma_edge_in(parent as int, self@[parent as int].var_children, crate::path::path_identity(new_path@)); }
                        child = Some(c);
                    },
                    None => {
                        match self.node(parent).get_var_child() {
                            Some(vc) => {
                                proof { self.lemma_node_edges(parent as int); }
                                if *self.node(vc).path() == new_path {
                                    let ghost vv = visited_vars@;
                                    let nv = new_path.value();
                                    visited_vars.push(nv);
                                    proof {
                                        lemma_seg_keys_push(vv, nv);
                                    }
                                    child = Some(vc);
                                }
                            },
                            None => {},
                        }
                    },
                }
                new_path
            } else {
                let c = self.node(parent).get_child(&new_path);
                match c {
                    Some(cc) => {
                        proof { self.lemma_edge_in(parent as int, self@[parent as int].children, crate::path::path_identity(new_path@)); }
                    },
                    None => {},
                }
                child = c;
                new_path
            };
            match child {
                Some(c) => {
                    proof {
                        if var_free(ps0) {
                            assert(!value.is_var);
                            assert(first_leafy(q, 0) == 0);
                            assert(q.subrange(1, 1) =~= Seq::<Seq<SegView>>::empty());
                            assert(rs_walk(self@, c as int, Seq::<Seq<SegView>>::empty()) == Some(c as int));
                            assert(rs_walk(self@, parent as int, q) == Some(c as int));
                            lemma_rs_walk_concat(self@, 0, consumed, q);
                        }
                        assert(first_leafy(q, 0) == 0);
                        assert(q.subrange(1, 1) =~= Seq::<Seq<SegView>>::empty());
                        assert(link_of(self@, parent as int, q[0]) == Some(c as int));
                        assert(rs_walk_v(self@, c as int, Seq::<Seq<SegView>>::empty()) == Some(c as int));
                        assert(rs_walk_v(self@, parent as int, q) == Some(c as int));
                        lemma_rs_walk_v_concat(self@, 0, consumed, q);
                        lemma_leafy_vars_concat(consumed, q);
                        lemma_leafy_vars_step(q);
                        assert(q.subrange(1, 1) =~= Seq::<Seq<SegView>>::empty());
                        assert(leafy_vars(Seq::<Seq<SegView>>::empty()) =~= Set::<SegKey>::empty());
                        assert(consumed + q =~= consumed.push(new_path@));
                        consumed = consumed.push(new_path@);
                    }
                    parent = c;
                },
                None => {
                    let ghost from = parent as int;
                    proof {
                        let rest = paths_view(before);
                        assert(rest[0] == new_path@);
                        assert(first_leafy(rest, 0) == 0);
                        assert(link_of(self@, parent as int, new_path@) is None);
                        assert(rs_walk_v(self@, parent as int, rest) is None);
                        lemma_rs_walk_v_concat(self@, 0, consumed, rest);
                        assert(consumed + rest == ps0);
                        assert(rs_walk_v(old(self)@, 0, ps0) is None);
                    }
                    remaining.insert(0, new_path);
                    proof {
                        assert(paths_view(remaining@) =~= paths_view(before));
                    }
                    let ghost vis_c = seg_keys(visited_vars@);
                    let ghost m0 = parent as int;
                    let ghost k0 = consumed.len() as int;
                    parent = self.create_paths(parent, remaining, visited_vars, 0);
                    let ghost made = self@;
                    self.add_rule(parent, rule_ref);
                    proof {
                        assert(self.rules_at(parent as int) == old(self).rules_before(parent as int).push(rule_ref));
                        lemma_rs_extends_trans(old(self)@, made, self@);
                        let rest = paths_view(before);
                        assert forall|i: int| 0 <= i < from implies links_same(#[trigger] old(self)@[i], made[i]) by {}
                        lemma_rs_walk_v_frame(old(self)@, made, 0, consumed, from);
                        lemma_rs_walk_v_concat(made, 0, consumed, rest);
                        assert(consumed + rest == ps0);
                        assert(rs_walk_v(made, 0, ps0) == Some(parent as int));
                        lemma_rs_walk_v_forward(made, 0, ps0);
                        assert forall|i: int| 0 <= i < parent implies links_same(#[trigger] made[i], self@[i]) by {}
                        lemma_rs_walk_v_frame(made, self@, 0, ps0, parent as int);
                        lemma_rs_walk_s_forward(made, m0, rest, vis_c);
                        lemma_rs_walk_s_frame(made, self@, m0, rest, vis_c, parent as int);
                        assert(ps0.take(k0) =~= consumed);
                        assert(ps0.skip(k0) =~= rest);
                        assert(rs_walk_s(self@, m0, ps0.skip(k0), vis_c) == Some(parent as int));
                        if var_free(ps0) {
                            let rest = paths_view(before);
                            assert(var_free(rest)) by {
                                assert forall|i: int| 0 <= i < rest.len() && is_leafy(#[trigger] rest[i]) implies !rest[i].last().is_var by {
                                    assert(rest[i] == ps0[consumed.len() + i]);
                                }
                            }
                            lemma_rs_walk_extends(old(self)@, made, 0, consumed);
                            lemma_rs_walk_concat(made, 0, consumed, rest);
                            assert(rs_walk(made, 0, ps0) == Some(parent as int));
                            lemma_rs_walk_extends(made, self@, 0, ps0);
                            assert(rs_walk(self@, 0, ps0) == Some(parent as int));
                        }
                    }
                    return;
                },
            }
        }
        proof {
            assert(consumed =~= ps0);
        }
        self.add_rule(parent, rule_ref);
        proof {
            assert(self.rules_at(parent as int) == old(self).rules_before(parent as int).push(rule_ref));
            if var_free(ps0) {
                lemma_rs_walk_extends(old(self)@, self@, 0, ps0);
            }
            lemma_rs_walk_v_forward(old(self)@, 0, ps0);
            assert forall|i: int| 0 <= i < parent implies links_same(#[trigger] old(self)@[i], self@[i]) by {}
            lemma_rs_walk_v_frame(old(self)@, self@, 0, ps0, parent as int);
            let kk = ps0.len() as int;
            assert(ps0.take(kk) =~= ps0);
            assert(ps0.skip(kk) =~= Seq::<Seq<SegView>>::empty());
            assert(Set::<SegKey>::empty().subset_of(leafy_vars(ps0.take(kk))));
            assert(rs_walk_s(self@, parent as int, ps0.skip(kk), Set::<SegKey>::empty()) == Some(parent as int));
        }
    }

    /// Marks node `n` as the end of rules and adds `rule_ref` to its rules.
    fn add_rule(&mut self, n: usize, rule_ref: RuleRef<'a>)
        requires
            old(self).wf(),
            n < old(self)@.len(),
        ensures
            final(self).wf(),
            final(self)@.len() == old(self)@.len(),
            final(self)@[n as int].end_node,
            final(self).rules_at(n as int) == old(self).rules_at(n as int).push(rule_ref),
            forall|i: int| 0 <= i < old(self)@.len() && i != n ==> final(self).rules_at(i) == old(self).rules_at(i),
            forall|i: int| 0 <= i < old(self)@.len() && i != n ==> final(self)@[i] == old(self)@[i],
            final(self)@[n as int].children == old(self)@[n as int].children,
            links_same(old(self)@[n as int], final(self)@[n as int]),
            rs_extends(old(self)@, final(self)@),
    {
        let mut node = RSNode::new(self.node(0).path().duplicate(), 1);
        std::mem::swap(&mut node, &mut self.nodes[n]);
        assert(node == old(self).nodes@[n as int]);
        assert(node.wf());
        node.end_node = true;
        node.rule_refs.push(rule_ref);
        proof {
            assert(rs_edges_in(old(self)@[n as int], n as int, old(self)@.len() as int));
        }
        self.nodes.set(n, node);
        proof {
            assert forall|i: int| 0 <= i < self.nodes@.len() implies (#[trigger] self.nodes@[i]).wf() by {
                if i != n {
                    assert(self.nodes@[i] == old(self).nodes@[i]);
                }
            }
            assert forall|i: int| 0 <= i < self.nodes@.len() implies rs_edges_in(#[trigger] self@[i], i, self@.len() as int) by {
                if i != n {
                    assert(self@[i] == old(self)@[i]);
                    assert(rs_edges_in(old(self)@[i], i, old(self)@.len() as int));
                } else {
                    assert(self@[i].children == old(self)@[i].children);
                    assert(self@[i].var_children == old(self)@[i].var_children);
                    assert(self@[i].var_child == old(self)@[i].var_child);
                }
            }
            assert forall|i: int| 0 <= i < old(self)@.len() && i != n implies self.rules_at(i) == old(self).rules_at(i) by {
                assert(self.nodes@[i] == old(self).nodes@[i]);
            }
            assert forall|i: int| 0 <= i < old(self)@.len() && i != n implies self@[i] == old(self)@[i] by {
                assert(self.nodes@[i] == old(self).nodes@[i]);
            }
            assert forall|i: int| 0 <= i < old(self)@.len() implies edges_kept(edges_map(old(self)@[i].children), edges_map(#[trigger] self@[i].children)) by {
                if i != n {
                    assert(self.nodes@[i] == old(self).nodes@[i]);
                }
            }
            assert forall|i: int| 0 <= i < old(self)@.len() && old(self)@[i].end_node implies (#[trigger] self@[i]).end_node by {
                if i != n {
                    assert(self.nodes@[i] == old(self).nodes@[i]);
                }
            }
        }
    }

    /// Makes the leaf paths, one node after another, from `parent` on; a variable seen before
    /// gets an edge keyed by its path, a new one becomes the node's unbound variable edge.
    /// Hands back the last node, marked as the end of rules.
    fn create_paths(
        &mut self,
        parent: usize,
        paths: Vec<MPPath<'a>>,
        visited: Vec<&'a MPSegment>,
        depth: usize,
    ) -> (r: usize)
        requires
            old(self).wf(),
            parent < old(self)@.len(),
            all_wf(paths@),
            paths@.len() > 0,
            is_leafy(paths@[0]@),
            !paths@[0]@.last().is_var ==> !edges_map(old(self)@[parent as int].children).contains_key(path_identity(paths@[0]@)),
            paths@[0]@.last().is_var ==> !edges_map(old(self)@[parent as int].var_children).contains_key(path_identity(paths@[0]@)),
        ensures
            final(self).wf(),
            old(self)@.len() <= final(self)@.len(),
            r < final(self)@.len(),
            forall|i: int| 0 <= i < final(self)@.len() ==> final(self).rules_at(i) == (if i < old(self)@.len() { old(self).rules_at(i) } else { Seq::empty() }),
            rs_extends(old(self)@, final(self)@),
            var_free(paths_view(paths@)) ==> rs_walk(final(self)@, parent as int, paths_view(paths@)) == Some(r as int),
            rs_walk_v(final(self)@, parent as int, paths_view(paths@)) == Some(r as int),
            forall|i: int| 0 <= i < old(self)@.len() && i != parent ==> links_same(old(self)@[i], #[trigger] final(self)@[i]),
            final(self)@[parent as int].path == old(self)@[parent as int].path,
            rs_walk_s(final(self)@, parent as int, paths_view(paths@), seg_keys(visited@)) == Some(r as int),
    {
        let ghost vis0 = seg_keys(visited@);
        let ghost ps0 = paths_view(paths@);
        let ghost parent0 = parent as int;
        let ghost mut consumed: Seq<Seq<SegView>> = Seq::empty();
        let ghost mut started = false;
        let mut parent = parent;
        let mut paths = paths;
        let mut visited = visited;
        proof {
            lemma_rs_extends_refl(self@);
            assert(ps0 =~= consumed + paths_view(paths@));
            assert(rs_walk(self@, parent0, consumed) == Some(parent0));
            assert(rs_walk_v(self@, parent0, consumed) == Some(parent0));
            assert(rs_walk_s(self@, parent0, consumed, vis0) == Some(parent0));
            assert(leafy_vars(consumed) =~= Set::<SegKey>::empty());
            assert(vis0.union(leafy_vars(consumed)) =~= vis0);
        }
        while paths.len() > 0
            invariant
                self.wf(),
                old(self)@.len() <= self@.len(),
                parent < self@.len(),
                all_wf(paths@),
                forall|i: int| 0 <= i < self@.len() ==> self.rules_at(i) == (if i < old(self)@.len() { old(self).rules_at(i) } else { Seq::empty() }),
                ps0 == consumed + paths_view(paths@),
                rs_extends(old(self)@, self@),
                0 <= parent0 < old(self)@.len(),
                !started ==> consumed.len() == 0 && parent == parent0 && self@ == old(self)@,
                started ==> old(self)@.len() <= parent && self@[parent as int].children.len() == 0,
                ps0.len() > 0 && is_leafy(ps0[0]),
                !ps0[0].last().is_var ==> !edges_map(old(self)@[parent0].children).contains_key(path_identity(ps0[0])),
                var_free(ps0) ==> rs_walk(self@, parent0, consumed) == Some(parent as int),
                rs_walk_v(self@, parent0, consumed) == Some(parent as int),
                forall|i: int| 0 <= i < old(self)@.len() && i != parent0 ==> links_same(old(self)@[i], #[trigger] self@[i]),
                self@[parent0].path == old(self)@[parent0].path,
                started ==> self@[parent as int].var_children.len() == 0,
                ps0[0].last().is_var ==> !edges_map(old(self)@[parent0].var_children).contains_key(path_identity(ps0[0])),
                rs_walk_s(self@, parent0, consumed, vis0) == Some(parent as int),
                seg_keys(visited@) == vis0.union(leafy_vars(consumed)),
            decreases paths@.len(),
        {
            let ghost before = paths@;
            let new_path = paths.remove(0);
            proof {
                assert(before[0].wf());
                assert(new_path.wf());
                assert forall|i: int| 0 <= i < paths@.len() implies (#[trigger] paths@[i]).wf() by {
                    assert(paths@[i] == before[i + 1]);
                    assert(before[i + 1].wf());
                }
                assert(paths_view(before) =~= seq![new_path@] + paths_view(paths@));
                assert(ps0 =~= consumed.push(new_path@) + paths_view(paths@));
                assert(ps0[consumed.len() as int] == new_path@);
            }
            let val = new_path.value();
            if val.is_empty || !val.is_leaf {
                proof {
                    if !started {
                        assert(ps0[0] == new_path@);
                    }
                    let q = seq![new_path@];
                    assert(first_leafy(q, 1) == 1);
                    assert(first_leafy(q, 0) == 1);
                    assert(consumed + q =~= consumed.push(new_path@));
                    if var_free(ps0) {
                        assert(rs_walk(self@, parent as int, q) == Some(parent as int));
                        lemma_rs_walk_concat(self@, parent0, consumed, q);
                    }
                    assert(rs_walk_v(self@, parent as int, q) == Some(parent as int));
                    lemma_rs_walk_v_concat(self@, parent0, consumed, q);
                    assert(rs_walk_s(self@, parent as int, q, vis0.union(leafy_vars(consumed))) == Some(parent as int));
                    lemma_rs_walk_s_concat(self@, parent0, consumed, q, vis0);
                    lemma_leafy_vars_concat(consumed, q);
                    lemma_leafy_vars_step(q);
                    assert(vis0.union(leafy_vars(consumed + q)) =~= vis0.union(leafy_vars(consumed)));
                    consumed = consumed.push(new_path@);
                }
                continue;
            }
            let key = new_path.duplicate();
            let child_ref = self.nodes.len();
            let ghost pre = *self;
            let new_node = RSNode::new(new_path, 1);
            assert(new_node.rules() == Seq::<RuleRef<'a>>::empty());
            self.nodes.push(new_node);
            assert(self.nodes@[child_ref as int] == new_node);
            proof {
                assert forall|i: int| 0 <= i < self.nodes@.len() implies (#[trigger] self.nodes@[i]).wf() by {
                    if i < child_ref {
                        assert(self.nodes@[i] == pre.nodes@[i]);
                    }
                }
                assert forall|i: int| 0 <= i < self.nodes@.len() implies rs_edges_in(#[trigger] self@[i], i, self@.len() as int) by {
                    if i < child_ref {
                        assert(self@[i] == pre@[i]);
                        assert(rs_edges_in(pre@[i], i, pre@.len() as int));
                    }
                }
                assert forall|i: int| 0 <= i < self@.len() implies self.rules_at(i) == (if i < old(self)@.len() { old(self).rules_at(i) } else { Seq::<RuleRef<'a>>::empty() }) by {
                    if i < child_ref {
                        assert(self.nodes@[i] == pre.nodes@[i]);
                        assert(self.rules_at(i) == pre.rules_at(i));
                        assert(pre.rules_at(i) == (if i < old(self)@.len() { old(self).rules_at(i) } else { Seq::<RuleRef<'a>>::empty() }));
                    } else {
                        assert(i == child_ref);
                        assert(self.rules_at(i) == new_node.rules());
                        assert(i >= old(self)@.len());
                    }
                }
            }
            let ghost pushed = self@;
            proof {
                assert forall|i: int| 0 <= i < pre@.len() implies edges_kept(edges_map(pre@[i].children), edges_map(#[trigger] pushed[i].children)) by {
                    assert(pushed[i] == pre@[i]);
                }
                assert forall|i: int| 0 <= i < pre@.len() && pre@[i].end_node implies (#[trigger] pushed[i]).end_node by {
                    assert(pushed[i] == pre@[i]);
                }
                assert(rs_extends(pre@, pushed));
                if !started {
                    assert(ps0[0] == new_path@);
                }
            }
            let ghost vis_before = seg_keys(visited@);
            let ghost seen = vis_before.contains(seg_key(val@));
            let ghost vb = visited@;
            if val.is_var {
                if contains_segment(&visited, val) {
                    self.link(parent, key, child_ref, 1);
                } else {
                    visited.push(val);
                    proof {
                        lemma_seg_keys_push(vb, val);
                    }
                    self.link(parent, key, child_ref, 2);
                }
            } else {
                self.link(parent, key, child_ref, 0);
            }
            proof {
                let k = path_identity(new_path@);
                assert(pushed[parent as int] == pre@[parent as int]);
                if !val.is_var {
                    assert(!edges_map(pushed[parent as int].children).contains_key(k)) by {
                        if !started {
                            assert(pre@ == old(self)@);
                        } else {
                            assert(pre@[parent as int].children.len() == 0);
                        }
                    }
                }
                assert forall|i: int| 0 <= i < pushed.len() implies edges_kept(edges_map(pushed[i].children), edges_map(#[trigger] self@[i].children)) by {
                    if i != parent {
                        assert(self@[i] == pushed[i]);
                    }
                }
                assert forall|i: int| 0 <= i < pushed.len() && pushed[i].end_node implies (#[trigger] self@[i]).end_node by {
                    if i != parent {
                        assert(self@[i] == pushed[i]);
                    }
                }
                assert(rs_extends(pushed, self@));
                lemma_rs_extends_trans(pre@, pushed, self@);
                lemma_rs_extends_trans(old(self)@, pre@, self@);
                if var_free(ps0) {
                    assert(!val.is_var);
                    lemma_rs_walk_extends(pre@, self@, parent0, consumed);
                    let q = seq![new_path@];
                    assert(first_leafy(q, 0) == 0);
                    assert(edges_map(self@[parent as int].children)[k] == child_ref);
                    assert(q.subrange(1, 1) =~= Seq::<Seq<SegView>>::empty());
                    assert(rs_walk(self@, child_ref as int, Seq::<Seq<SegView>>::empty()) == Some(child_ref as int));
                    assert(rs_walk(self@, parent as int, q) == Some(child_ref as int));
                    lemma_rs_walk_concat(self@, parent0, consumed, q);
                    assert(consumed + q =~= consumed.push(new_path@));
                }
                assert(self@[child_ref as int] == pushed[child_ref as int]);
                assert(self@[child_ref as int].path == new_path@);
                assert(edges_forward(pre@));
                assert forall|i: int| 0 <= i < parent implies links_same(#[trigger] pre@[i], self@[i]) by {
                    assert(pushed[i] == pre@[i]);
                    assert(self@[i] == pushed[i]);
                }
                lemma_rs_walk_v_frame(pre@, self@, parent0, consumed, parent as int);
                let q = seq![new_path@];
                assert(first_leafy(q, 0) == 0);
                assert(q.subrange(1, 1) =~= Seq::<Seq<SegView>>::empty());
                assert(rs_walk_v(self@, child_ref as int, Seq::<Seq<SegView>>::empty()) == Some(child_ref as int));
                if val.is_var {
                    assert(!edges_map(pushed[parent as int].var_children).contains_key(k)) by {
                        if !started {
                            assert(pre@ == old(self)@);
                        } else {
                            assert(pre@[parent as int].var_children.len() == 0);
                        }
                    }
                }
                assert(link_of(self@, parent as int, new_path@) == Some(child_ref as int));
                assert(rs_walk_v(self@, parent as int, q) == Some(child_ref as int));
                lemma_rs_walk_v_concat(self@, parent0, consumed, q);
                assert(consumed + q =~= consumed.push(new_path@));
                lemma_rs_walk_s_frame(pre@, self@, parent0, consumed, vis0, parent as int);
                assert(val@ == new_path@.last());
                assert(vis_before == vis0.union(leafy_vars(consumed)));
                assert(rs_walk_s(self@, child_ref as int, Seq::<Seq<SegView>>::empty(), vis_next(vis_before, new_path@)) == Some(child_ref as int));
                if val.is_var && !seen {
                    assert(self@[parent as int].var_child == Some(child_ref));
                }
                assert(link_s(self@, parent as int, new_path@, vis_before) == Some(child_ref as int));
                assert(rs_walk_s(self@, parent as int, q, vis_before) == Some(child_ref as int));
                lemma_rs_walk_s_concat(self@, parent0, consumed, q, vis0);
                lemma_leafy_vars_concat(consumed, q);
                lemma_leafy_vars_step(q);
                assert(q.subrange(1, 1) =~= Seq::<Seq<SegView>>::empty());
                assert(leafy_vars(Seq::<Seq<SegView>>::empty()) =~= Set::<SegKey>::empty());
                if val.is_var {
                    assert(leafy_vars(q) =~= set![seg_key(val@)]);
                    if seen {
                        assert(visited@ == vb);
                    }
                } else {
                    assert(leafy_vars(q) =~= Set::<SegKey>::empty());
                    assert(visited@ == vb);
                }
                assert(seg_keys(visited@) =~= vis0.union(leafy_vars(consumed + q)));
                assert forall|i: int| 0 <= i < old(self)@.len() && i != parent0 implies links_same(old(self)@[i], #[trigger] self@[i]) by {
                    assert(pushed[i] == pre@[i]);
                    if i != parent {
                        assert(self@[i] == pushed[i]);
                    }
                }
                consumed = consumed.push(new_path@);
                started = true;
            }
            parent = child_ref;
        }
        proof {
            assert(consumed =~= ps0);
        }
        parent
    }
}

impl<'a> RuleSet<'a> {
    /// Adds an edge from node `from` to the later node `to`: keyed by `key` among the
    /// non-variable edges (`kind` 0) or the bound variable edges (`kind` 1), or as the
    /// unbound variable edge (any other `kind`).
    fn link(&mut self, from: usize, key: MPPath<'a>, to: usize, kind: u8)
        requires
            old(self).wf(),
            from < to < old(self)@.len(),
            key.wf(),
        ensures
            final(self).wf(),
            final(self)@.len() == old(self)@.len(),
            forall|i: int| 0 <= i < old(self)@.len() ==> final(self).rules_at(i) == old(self).rules_at(i),
            forall|i: int| 0 <= i < old(self)@.len() && i != from ==> final(self)@[i] == old(self)@[i],
            kind == 0 ==> edges_map(final(self)@[from as int].children) == edges_map(old(self)@[from as int].children).insert(
                path_identity(key@),
                to,
            ),
            kind != 0 ==> final(self)@[from as int].children == old(self)@[from as int].children,
            final(self)@[from as int].end_node == old(self)@[from as int].end_node,
            final(self)@[from as int].path == old(self)@[from as int].path,
            kind == 1 ==> edges_map(final(self)@[from as int].var_children) == edges_map(old(self)@[from as int].var_children).insert(
                path_identity(key@),
                to,
            ),
            kind != 1 ==> final(self)@[from as int].var_children == old(self)@[from as int].var_children,
            kind != 0 && kind != 1 ==> final(self)@[from as int].var_child == Some(to),
            kind == 0 || kind == 1 ==> final(self)@[from as int].var_child == old(self)@[from as int].var_child,
    {
        let mut node = RSNode::new(key.duplicate(), 1);
        std::mem::swap(&mut node, &mut self.nodes[from]);
        assert(node == old(self).nodes@[from as int]);
        assert(node.wf());
        let ghost nv0 = node@;
        proof {
            assert(rs_edges_in(old(self)@[from as int], from as int, old(self)@.len() as int));
        }
        if kind == 0 {
            node.children.insert(key, to);
        } else if kind == 1 {
            node.var_children.insert(key, to);
        } else {
            node.var_child = Some(to);
        }
        proof {
            let len = self@.len() as int;
            assert forall|i: int| 0 <= i < node@.children.len() implies from < (#[trigger] node@.children[i]).1 && node@.children[i].1 < len by {
                if i < nv0.children.len() {
                    assert(node@.children[i].1 == nv0.children[i].1 || node@.children[i].1 == to);
                }
            }
            assert forall|i: int| 0 <= i < node@.var_children.len() implies from < (#[trigger] node@.var_children[i]).1 && node@.var_children[i].1 < len by {
                if i < nv0.var_children.len() {
                    assert(node@.var_children[i].1 == nv0.var_children[i].1 || node@.var_children[i].1 == to);
                }
            }
        }
        self.nodes.set(from, node);
        proof {
            assert forall|i: int| 0 <= i < self.nodes@.len() implies (#[trigger] self.nodes@[i]).wf() by {
                if i != from {
                    assert(self.nodes@[i] == old(self).nodes@[i]);
                }
            }
            assert forall|i: int| 0 <= i < self.nodes@.len() implies rs_edges_in(#[trigger] self@[i], i, self@.len() as int) by {
                if i != from {
                    assert(self@[i] == old(self)@[i]);
                    assert(rs_edges_in(old(self)@[i], i, old(self)@.len() as int));
                }
            }
            assert forall|i: int| 0 <= i < old(self)@.len() implies self.rules_at(i) == old(self).rules_at(i) by {
                if i != from {
                    assert(self.nodes@[i] == old(self).nodes@[i]);
                }
            }
            assert forall|i: int| 0 <= i < old(self)@.len() && i != from implies self@[i] == old(self)@[i] by {
                assert(self.nodes@[i] == old(self).nodes@[i]);
            }
            assert(self@[from as int] == node@);
            assert(edges_map(node@.children) == node.children@);
            assert(edges_map(nv0.children) == edges_map(old(self)@[from as int].children));
            assert(edges_map(node@.var_children) == node.var_children@);
            assert(edges_map(nv0.var_children) == edges_map(old(self)@[from as int].var_children));
        }
    }
}

/// Whether a segment with the name and text of `s` is among `segs`.
fn contains_segment(segs: &Vec<&MPSegment>, s: &MPSegment) -> (r: bool)
    ensures
        r == exists|i: int| 0 <= i < segs@.len() && seg_key(segs@[i]@) == seg_key(s@),
{
    let mut i: usize = 0;
    while i < segs.len()
        invariant
            0 <= i <= segs.len(),
            forall|j: int| 0 <= j < i ==> seg_key(segs@[j]@) != seg_key(s@),
        decreases segs.len() - i,
    {
        if segs[i].same(s) {
            return true;
        }
        i = i + 1;
    }
    false
}
} // verus!
