//! The fact set: a tree over the paths of the facts told, in which a fact is found by
//! following its leaf paths from the root, and a query with variables by trying every
//! logical edge where a variable stands.
use std::collections::HashMap;
use vstd::prelude::*;

use crate::fact::Fact;
use crate::matching::{MPMatching, SegKey};
use crate::path::{all_wf, is_leafy, path_identity, paths_view, substituted, MPPath};
use crate::pathmap::{edges_map, PathMap};
use crate::segment::{seg_key, SegView};

verus! {

broadcast use vstd::std_specs::hash::group_hash_axioms;

/// Nodes still waiting for the edge that goes past a logical node's subtree: they are kept
/// under the position, in the fact's paths, of the path that such an edge is for; several
/// nested logical nodes whose subtrees end together wait for the same path.
pub struct CarryOver(HashMap<usize, Vec<usize>>);

impl View for CarryOver {
    type V = Map<usize, Seq<usize>>;

    closed spec fn view(&self) -> Map<usize, Seq<usize>> {
        self.0@.map_values(|v: Vec<usize>| v@)
    }
}

impl CarryOver {
    /// Nothing carried.
    pub fn new() -> (r: CarryOver)
        ensures
            r@ == Map::<usize, Seq<usize>>::empty(),
    {
        let r = CarryOver(HashMap::new());
        assert(r@ =~= Map::<usize, Seq<usize>>::empty());
        r
    }

    /// Carries `node`, after those carried before, to the path at position `index`.
    pub fn add(self, index: usize, node: usize) -> (r: CarryOver)
        ensures
            r@ == self@.insert(
                index,
                if self@.contains_key(index) {
                    self@[index].push(node)
                } else {
                    seq![node]
                },
            ),
    {
        let mut carry = self;
        let mut nodes = match carry.0.remove(&index) {
            Some(v) => v,
            None => Vec::new(),
        };
        nodes.push(node);
        carry.0.insert(index, nodes);
        proof {
            assert(carry@ =~= self@.insert(
                index,
                if self@.contains_key(index) {
                    self@[index].push(node)
                } else {
                    seq![node]
                },
            ));
        }
        carry
    }

    /// Takes out the nodes carried to position `index`, in the order they were carried.
    pub fn node(self, index: usize) -> (r: (CarryOver, Vec<usize>))
        ensures
            r.0@ == self@.remove(index),
            r.1@ == (if self@.contains_key(index) {
                self@[index]
            } else {
                Seq::<usize>::empty()
            }),
    {
        let mut carry = self;
        let nodes = match carry.0.remove(&index) {
            Some(v) => v,
            None => Vec::new(),
        };
        assert(carry@ =~= self@.remove(index));
        (carry, nodes)
    }
}

/// A node of the fact set, as plain values: its edges for non-logical paths and its edges
/// for logical ones, each a path and the number of the node it leads to.
pub struct FSNodeView {
    pub children: Seq<(Seq<SegView>, usize)>,
    pub lchildren: Seq<(Seq<SegView>, usize)>,
}

#[derive(Debug)]
pub struct FSNode<'a> {
    children: PathMap<'a>,
    lchildren: PathMap<'a>,
}

impl<'a> View for FSNode<'a> {
    type V = FSNodeView;

    closed spec fn view(&self) -> FSNodeView {
        FSNodeView { children: self.children.entries(), lchildren: self.lchildren.entries() }
    }
}

/// Every edge of `nv` leads to a node numbered above `n` and below `len`.
pub open spec fn edges_in(nv: FSNodeView, n: int, len: int) -> bool {
    &&& forall|i: int|
        0 <= i < nv.children.len() ==> n < (#[trigger] nv.children[i]).1 && nv.children[i].1 < len
    &&& forall|i: int|
        0 <= i < nv.lchildren.len() ==> n < (#[trigger] nv.lchildren[i]).1 && nv.lchildren[i].1
            < len
}

/// The node that the edge for path `p` out of `nv` leads to: an edge among the logical ones
/// where the value of `p` can stand for a variable, among the others otherwise.
pub open spec fn edge_of(nv: FSNodeView, p: Seq<SegView>) -> Option<usize> {
    let m = if p.last().in_var_range {
        edges_map(nv.lchildren)
    } else {
        edges_map(nv.children)
    };
    if m.contains_key(path_identity(p)) {
        Some(m[path_identity(p)])
    } else {
        None
    }
}

/// The position of the first path from `i` on whose value is a non-empty leaf, or the length
/// of `ps` where there is none.
pub open spec fn first_leafy(ps: Seq<Seq<SegView>>, i: int) -> int
    decreases ps.len() - i,
{
    if i >= ps.len() || i < 0 {
        ps.len() as int
    } else if is_leafy(ps[i]) {
        i
    } else {
        first_leafy(ps, i + 1)
    }
}

/// The answers to the query `ps` from node `nv` of the nodes `ns`, starting from matching
/// `m`: the query's first leaf path is looked up; an unbound variable there is bound in turn
/// to the value of every logical edge, a bound one is replaced by its value; where no leaf
/// path is left, `m` is an answer.
pub open spec fn query_spec(
    ns: Seq<FSNodeView>,
    nv: FSNodeView,
    ps: Seq<Seq<SegView>>,
    m: Map<SegKey, SegView>,
) -> Seq<Map<SegKey, SegView>>
    decreases ps.len(), 0int,
{
    let k = first_leafy(ps, 0);
    if k >= ps.len() || k < 0 {
        seq![m]
    } else {
        let p = ps[k];
        let rest = ps.subrange(k + 1, ps.len() as int);
        if p.last().is_var && !m.contains_key(seg_key(p.last())) {
            lchild_results(ns, nv.lchildren, 0, rest, m, p.last())
        } else {
            let np = if p.last().is_var {
                substituted(m, p).0
            } else {
                p
            };
            match edge_of(nv, np) {
                Some(c) => if c < ns.len() {
                    query_spec(ns, ns[c as int], rest, m)
                } else {
                    Seq::empty()
                },
                None => Seq::empty(),
            }
        }
    }
}

/// The answers to `rest` through the logical edges `les` from position `j` on, each with the
/// variable `var` bound to the value of the edge's path.
pub open spec fn lchild_results(
    ns: Seq<FSNodeView>,
    les: Seq<(Seq<SegView>, usize)>,
    j: int,
    rest: Seq<Seq<SegView>>,
    m: Map<SegKey, SegView>,
    var: SegView,
) -> Seq<Map<SegKey, SegView>>
    decreases rest.len(), les.len() - j,
{
    if j >= les.len() || j < 0 {
        Seq::empty()
    } else {
        (if les[j].1 < ns.len() {
            query_spec(ns, ns[les[j].1 as int], rest, m.insert(seg_key(var), les[j].0.last()))
        } else {
            Seq::empty()
        }) + lchild_results(ns, les, j + 1, rest, m, var)
    }
}

/// The node that the leafy paths of `ps`, followed in turn from node `n`, lead to; `None`
/// where an edge is missing.
pub open spec fn walk(ns: Seq<FSNodeView>, n: int, ps: Seq<Seq<SegView>>) -> Option<int>
    decreases ps.len(),
{
    if ps.len() == 0 {
        if 0 <= n < ns.len() {
            Some(n)
        } else {
            None
        }
    } else {
        match walk(ns, n, ps.drop_last()) {
            Some(m) => if is_leafy(ps.last()) {
                match edge_of(ns[m], ps.last()) {
                    Some(c) => if c < ns.len() {
                        Some(c as int)
                    } else {
                        None
                    },
                    None => None,
                }
            } else {
                Some(m)
            },
            None => None,
        }
    }
}

/// Every edge of `a` is in `b`, leading to the same node.
pub open spec fn edges_kept(a: Map<Seq<char>, usize>, b: Map<Seq<char>, usize>) -> bool {
    forall|k: Seq<char>| #[trigger] a.contains_key(k) ==> b.contains_key(k) && b[k] == a[k]
}

/// `new` keeps every node of `old`, each with every edge it had.
pub open spec fn extends(old: Seq<FSNodeView>, new: Seq<FSNodeView>) -> bool {
    &&& old.len() <= new.len()
    &&& forall|i: int| 0 <= i < old.len() ==> edges_kept(edges_map(old[i].children), edges_map(#[trigger] new[i].children))
    &&& forall|i: int| 0 <= i < old.len() ==> edges_kept(edges_map(old[i].lchildren), edges_map(#[trigger] new[i].lchildren))
}

/// No leafy path of `ps` ends in a variable.
pub open spec fn var_free(ps: Seq<Seq<SegView>>) -> bool {
    forall|i: int| 0 <= i < ps.len() && is_leafy(#[trigger] ps[i]) ==> !ps[i].last().is_var
}

/// Every path of `ps` whose value is not empty ends in a leaf.
pub open spec fn leaves_only(ps: Seq<Seq<SegView>>) -> bool {
    forall|i: int| 0 <= i < ps.len() && !(#[trigger] ps[i]).last().is_empty ==> ps[i].last().is_leaf
}

proof fn lemma_walk_range(ns: Seq<FSNodeView>, n: int, ps: Seq<Seq<SegView>>)
    ensures
        walk(ns, n, ps) matches Some(m) ==> 0 <= m < ns.len(),
    decreases ps.len(),
{
    if ps.len() > 0 {
        lemma_walk_range(ns, n, ps.drop_last());
    }
}

/// Extending an extension of a fact set extends it.
pub proof fn lemma_extends_trans(a: Seq<FSNodeView>, b: Seq<FSNodeView>, c: Seq<FSNodeView>)
    requires
        extends(a, b),
        extends(b, c),
    ensures
        extends(a, c),
{
    assert forall|i: int| 0 <= i < a.len() implies edges_kept(edges_map(a[i].children), edges_map(#[trigger] c[i].children)) by {
        assert(edges_kept(edges_map(a[i].children), edges_map(b[i].children)));
        assert(edges_kept(edges_map(b[i].children), edges_map(c[i].children)));
    }
    assert forall|i: int| 0 <= i < a.len() implies edges_kept(edges_map(a[i].lchildren), edges_map(#[trigger] c[i].lchildren)) by {
        assert(edges_kept(edges_map(a[i].lchildren), edges_map(b[i].lchildren)));
        assert(edges_kept(edges_map(b[i].lchildren), edges_map(c[i].lchildren)));
    }
}

/// A fact set extends itself.
pub proof fn lemma_extends_refl(a: Seq<FSNodeView>)
    ensures
        extends(a, a),
{
}

/// A walk through a fact set still leads where it led once the set is extended.
proof fn lemma_walk_extends(old: Seq<FSNodeView>, new: Seq<FSNodeView>, n: int, ps: Seq<Seq<SegView>>)
    requires
        extends(old, new),
        walk(old, n, ps) is Some,
    ensures
        walk(new, n, ps) == walk(old, n, ps),
    decreases ps.len(),
{
    if ps.len() > 0 {
        lemma_walk_extends(old, new, n, ps.drop_last());
        let m = walk(old, n, ps.drop_last())->0;
        lemma_walk_range(old, n, ps.drop_last());
        if is_leafy(ps.last()) {
            let p = ps.last();
            let k = path_identity(p);
            if p.last().in_var_range {
                assert(edges_kept(edges_map(old[m].lchildren), edges_map(new[m].lchildren)));
                assert(edges_map(old[m].lchildren).contains_key(k));
            } else {
                assert(edges_kept(edges_map(old[m].children), edges_map(new[m].children)));
                assert(edges_map(old[m].children).contains_key(k));
            }
        }
    }
}

/// Walking two lists of paths one after the other is walking the first, then the second
/// from where the first led.
proof fn lemma_walk_concat(ns: Seq<FSNodeView>, n: int, a: Seq<Seq<SegView>>, b: Seq<Seq<SegView>>)
    ensures
        walk(ns, n, a + b) == match walk(ns, n, a) {
            Some(m) => walk(ns, m, b),
            None => None,
        },
    decreases b.len(),
{
    if b.len() == 0 {
        assert(a + b =~= a);
        lemma_walk_range(ns, n, a);
    } else {
        assert((a + b).drop_last() =~= a + b.drop_last());
        assert((a + b).last() == b.last());
        lemma_walk_concat(ns, n, a, b.drop_last());
    }
}

proof fn lemma_first_leafy_shift(ps: Seq<Seq<SegView>>, i: int)
    requires
        0 <= i,
        ps.len() > 0,
    ensures
        first_leafy(ps, i + 1) == first_leafy(ps.drop_first(), i) + 1,
    decreases ps.len() - i,
{
    let d = ps.drop_first();
    if i + 1 < ps.len() {
        assert(d[i] == ps[i + 1]);
        if !is_leafy(ps[i + 1]) {
            lemma_first_leafy_shift(ps, i + 1);
        }
    }
}

/// The first leafy position from `i` on is at least `i` (where `i` is within the list) and
/// at most the length.
pub proof fn lemma_first_leafy_bounds(ps: Seq<Seq<SegView>>, i: int)
    requires
        0 <= i,
    ensures
        0 <= first_leafy(ps, i) <= ps.len(),
        i <= ps.len() ==> i <= first_leafy(ps, i),
    decreases ps.len() - i,
{
    if i < ps.len() && !is_leafy(ps[i]) {
        lemma_first_leafy_bounds(ps, i + 1);
    }
}

/// In `a + b`, the first leafy position from inside `b` is that of `b`, shifted.
pub proof fn lemma_first_leafy_offset(a: Seq<Seq<SegView>>, b: Seq<Seq<SegView>>, j: int)
    requires
        0 <= j <= b.len(),
    ensures
        first_leafy(a + b, a.len() + j) == a.len() + first_leafy(b, j),
    decreases b.len() - j,
{
    if j < b.len() {
        assert((a + b)[a.len() + j] == b[j]);
        if !is_leafy(b[j]) {
            lemma_first_leafy_offset(a, b, j + 1);
        }
    }
}

/// In `a + b`, the first leafy position from `i` within `a` is in `a` where `a` has one from
/// `i` on, else it is the first of `b`, shifted.
pub proof fn lemma_first_leafy_concat(a: Seq<Seq<SegView>>, b: Seq<Seq<SegView>>, i: int)
    requires
        0 <= i <= a.len(),
    ensures
        first_leafy(a + b, i) == if first_leafy(a, i) < a.len() {
            first_leafy(a, i)
        } else {
            a.len() + first_leafy(b, 0)
        },
    decreases a.len() - i,
{
    if i == a.len() {
        lemma_first_leafy_offset(a, b, 0);
    } else {
        assert((a + b)[i] == a[i]);
        if !is_leafy(a[i]) {
            lemma_first_leafy_concat(a, b, i + 1);
        }
    }
}

/// A query whose first path is not leafy asks what the rest of it asks.
proof fn lemma_query_skip(ns: Seq<FSNodeView>, nv: FSNodeView, ps: Seq<Seq<SegView>>, m: Map<SegKey, SegView>)
    requires
        ps.len() > 0,
        !is_leafy(ps[0]),
    ensures
        query_spec(ns, nv, ps, m) == query_spec(ns, nv, ps.drop_first(), m),
{
    let d = ps.drop_first();
    lemma_first_leafy_shift(ps, 0);
    assert(first_leafy(ps, 0) == first_leafy(ps, 1));
    let k = first_leafy(ps, 0);
    let kd = first_leafy(d, 0);
    lemma_first_leafy_bounds(d, 0);
    assert(k == kd + 1);
    if 0 <= kd < d.len() {
        assert(d[kd] == ps[kd + 1]);
        assert(ps.subrange(k + 1, ps.len() as int) =~= d.subrange(kd + 1, d.len() as int));
    }
    reveal_with_fuel(query_spec, 2);
}

/// A fact without variables whose leafy paths lead somewhere from node `n` is found there.
proof fn lemma_walk_found(ns: Seq<FSNodeView>, n: int, ps: Seq<Seq<SegView>>, m: Map<SegKey, SegView>)
    requires
        walk(ns, n, ps) is Some,
        var_free(ps),
    ensures
        query_spec(ns, ns[n], ps, m).len() > 0,
    decreases ps.len(),
{
    if ps.len() == 0 {
        assert(first_leafy(ps, 0) == 0);
    } else {
        let p0 = ps[0];
        let rest = ps.drop_first();
        assert(ps =~= seq![p0] + rest);
        lemma_walk_concat(ns, n, seq![p0], rest);
        assert(seq![p0].drop_last() =~= Seq::<Seq<SegView>>::empty());
        lemma_walk_range(ns, n, ps);
        lemma_walk_range(ns, n, Seq::<Seq<SegView>>::empty());
        assert forall|i: int| 0 <= i < rest.len() && is_leafy(#[trigger] rest[i]) implies !rest[i].last().is_var by {
            assert(rest[i] == ps[i + 1]);
        }
        if !is_leafy(p0) {
            assert(walk(ns, n, seq![p0]) == Some(n));
            lemma_query_skip(ns, ns[n], ps, m);
            lemma_walk_found(ns, n, rest, m);
        } else {
            assert(first_leafy(ps, 0) == 0);
            assert(ps.subrange(1, ps.len() as int) =~= rest);
            let c = walk(ns, n, seq![p0])->0;
            lemma_walk_found(ns, c, rest, m);
        }
    }
}

/// A fact without variables that is found from node `n` has leafy paths that lead
/// somewhere from there.
proof fn lemma_found_walk(ns: Seq<FSNodeView>, n: int, ps: Seq<Seq<SegView>>, m: Map<SegKey, SegView>)
    requires
        0 <= n < ns.len(),
        query_spec(ns, ns[n], ps, m).len() > 0,
        var_free(ps),
    ensures
        walk(ns, n, ps) is Some,
    decreases ps.len(),
{
    if ps.len() > 0 {
        let p0 = ps[0];
        let rest = ps.drop_first();
        assert(ps =~= seq![p0] + rest);
        lemma_walk_concat(ns, n, seq![p0], rest);
        assert(seq![p0].drop_last() =~= Seq::<Seq<SegView>>::empty());
        assert forall|i: int| 0 <= i < rest.len() && is_leafy(#[trigger] rest[i]) implies !rest[i].last().is_var by {
            assert(rest[i] == ps[i + 1]);
        }
        assert(seq![p0].last() == p0);
        assert(walk(ns, n, Seq::<Seq<SegView>>::empty()) == Some(n));
        if !is_leafy(p0) {
            assert(walk(ns, n, seq![p0]) == Some(n));
            lemma_query_skip(ns, ns[n], ps, m);
            lemma_found_walk(ns, n, rest, m);
        } else {
            assert(first_leafy(ps, 0) == 0);
            assert(ps.subrange(1, ps.len() as int) =~= rest);
            assert(!p0.last().is_var);
            match edge_of(ns[n], p0) {
                Some(c) => {
                    if c < ns.len() {
                        lemma_found_walk(ns, c as int, rest, m);
                    }
                },
                None => {},
            }
        }
    }
}

/// A fact without variables that a fact set finds is still found once the set is extended:
/// adding facts forgets none.
pub proof fn lemma_found_stays_found(old: Seq<FSNodeView>, new: Seq<FSNodeView>, ps: Seq<Seq<SegView>>)
    requires
        extends(old, new),
        old.len() > 0,
        var_free(ps),
        query_spec(old, old[0], ps, Map::empty()).len() > 0,
    ensures
        query_spec(new, new[0], ps, Map::empty()).len() > 0,
{
    lemma_found_walk(old, 0, ps, Map::empty());
    lemma_walk_extends(old, new, 0, ps);
    lemma_walk_found(new, 0, ps, Map::empty());
}

/// The matchings of a list, as maps.
pub open spec fn matchings_view(v: Seq<MPMatching>) -> Seq<Map<SegKey, SegView>> {
    v.map_values(|m: MPMatching| m@)
}

/// Every matching of the list is well formed.
pub open spec fn matchings_wf(v: Seq<MPMatching>) -> bool {
    forall|i: int| 0 <= i < v.len() ==> (#[trigger] v[i]).wf()
}

impl<'a> FSNode<'a> {
    /// The node's edge maps are well formed.
    pub closed spec fn wf(&self) -> bool {
        self.children.wf() && self.lchildren.wf()
    }

    /// A node without edges, standing at `depth`, counted from 1 at the root. The depth is
    /// not used otherwise.
    pub fn new(depth: usize) -> (r: FSNode<'a>)
        requires
            depth >= 1,
        ensures
            r.wf(),
            r@.children == Seq::<(Seq<SegView>, usize)>::empty(),
            r@.lchildren == Seq::<(Seq<SegView>, usize)>::empty(),
    {
        FSNode { children: PathMap::new(), lchildren: PathMap::new() }
    }

    /// The node that the non-logical edge for `path` leads to, if any.
    pub fn get_child(&self, path: &MPPath) -> (r: Option<usize>)
        requires
            self.wf(),
            path.wf(),
        ensures
            r == (if edges_map(self@.children).contains_key(path_identity(path@)) {
                Some(edges_map(self@.children)[path_identity(path@)])
            } else {
                None::<usize>
            }),
    {
        self.children.get(path)
    }

    /// The node that the logical edge for `path` leads to, if any.
    pub fn get_lchild(&self, path: &MPPath) -> (r: Option<usize>)
        requires
            self.wf(),
            path.wf(),
        ensures
            r == (if edges_map(self@.lchildren).contains_key(path_identity(path@)) {
                Some(edges_map(self@.lchildren)[path_identity(path@)])
            } else {
                None::<usize>
            }),
    {
        self.lchildren.get(path)
    }

    /// The answers to the query `all_paths` from this node of `set`, starting from `matching`,
    /// appended to `resp`.
    pub fn query_paths(
        &self,
        set: &FactSet<'a>,
        all_paths: &[MPPath<'a>],
        matching: MPMatching<'a>,
        resp: Vec<MPMatching<'a>>,
    ) -> (r: Vec<MPMatching<'a>>)
        requires
            set.wf(),
            self.wf(),
            edges_in(self@, -1, set@.len() as int),
            all_wf(all_paths@),
            matching.wf(),
            matchings_wf(resp@),
        ensures
            matchings_wf(r@),
            matchings_view(r@) == matchings_view(resp@) + query_spec(
                set@,
                self@,
                paths_view(all_paths@),
                matching@,
            ),
        decreases all_paths@.len(),
    {
        let ghost ps = paths_view(all_paths@);
        let mut resp = resp;
        let mut k: usize = 0;
        while k < all_paths.len()
            invariant
                0 <= k <= all_paths.len(),
                ps == paths_view(all_paths@),
                all_wf(all_paths@),
                first_leafy(ps, k as int) == first_leafy(ps, 0),
            ensures
                0 <= k <= all_paths.len(),
                first_leafy(ps, k as int) == first_leafy(ps, 0),
                k < all_paths.len() ==> is_leafy(ps[k as int]),
            decreases all_paths.len() - k,
        {
            let p = &all_paths[k];
            assert(p.wf());
            assert(ps[k as int] == p@);
            let v = p.value();
            if !v.is_empty && v.is_leaf {
                break;
            }
            k = k + 1;
        }
        if k >= all_paths.len() {
            let ghost pre = matchings_view(resp@);
            resp.push(matching);
            proof {
                assert(matchings_view(resp@) =~= pre + seq![matching@]);
            }
            return resp;
        }
        let path = &all_paths[k];
        let paths = &all_paths[k + 1..all_paths.len()];
        let value = path.value();
        proof {
            assert(path.wf());
            assert(ps[k as int] == path@);
            assert(paths_view(paths@) =~= ps.subrange(k + 1, ps.len() as int));
            assert(all_wf(paths@)) by {
                assert forall|i: int| 0 <= i < paths@.len() implies (#[trigger] paths@[i]).wf() by {
                    assert(paths@[i] == all_paths@[k + 1 + i]);
                }
            }
        }
        let ghost rest = ps.subrange(k + 1, ps.len() as int);
        proof {
            assert(is_leafy(ps[k as int]));
            assert(first_leafy(ps, k as int) == k);
            assert(value@ == ps[k as int].last());
        }
        if value.is_var && !matching.contains_key(value) {
            assert(query_spec(set@, self@, ps, matching@) == lchild_results(set@, self@.lchildren, 0, rest, matching@, value@));
            let ghost les = self@.lchildren;
            let ghost resp0 = matchings_view(resp@);
            let n = self.lchildren.len();
            let mut j: usize = 0;
            while j < n
                invariant
                    0 <= j <= n,
                    n == les.len(),
                    les == self@.lchildren,
                    set.wf(),
                    self.wf(),
                    edges_in(self@, -1, set@.len() as int),
                    all_wf(paths@),
                    paths_view(paths@) == rest,
                    rest.len() < ps.len(),
                    paths@.len() < all_paths@.len(),
                    matching.wf(),
                    matchings_wf(resp@),
                    path.wf(),
                    value@ == path@.last(),
                    matchings_view(resp@) + lchild_results(set@, les, j as int, rest, matching@, value@)
                        == resp0 + lchild_results(set@, les, 0, rest, matching@, value@),
                decreases n - j,
            {
                let (lchild_path, lchild_node) = self.lchildren.entry(j);
                assert(les[j as int].1 == lchild_node);
                assert(lchild_node < set@.len());
                let mut new_matching = matching.duplicate();
                let lvalue = lchild_path.value();
                new_matching.insert(value, lvalue);
                let ghost before = matchings_view(resp@);
                let child = set.node(lchild_node);
                resp = child.query_paths(set, paths, new_matching, resp);
                proof {
                    assert(lchild_path@.last() == les[j as int].0.last());
                    assert(lchild_results(set@, les, j as int, rest, matching@, value@)
                        == query_spec(set@, set@[lchild_node as int], rest, matching@.insert(seg_key(value@), les[j as int].0.last()))
                        + lchild_results(set@, les, j + 1, rest, matching@, value@));
                }
                j = j + 1;
            }
            proof {
                assert(matchings_view(resp@) =~= matchings_view(resp@) + lchild_results(set@, les, n as int, rest, matching@, value@));
            }
            return resp;
        }
        let next = if value.is_var {
            let (new_path, _) = path.substitute_owning(matching.duplicate());
            let nv = new_path.value();
            if nv.in_var_range {
                self.get_lchild(&new_path)
            } else {
                self.get_child(&new_path)
            }
        } else {
            if value.in_var_range {
                self.get_lchild(path)
            } else {
                self.get_child(path)
            }
        };
        match next {
            Some(c) => {
                proof {
                    lemma_edge_of_in(self@, -1, set@.len() as int, if value@.is_var { substituted(matching@, path@).0 } else { path@ });
                }
                let child = set.node(c);
                child.query_paths(set, paths, matching, resp)
            },
            None => {
                assert(matchings_view(resp@) =~= matchings_view(resp@) + Seq::<Map<SegKey, SegView>>::empty());
                resp
            },
        }
    }
}

/// An edge of a node whose edges are in range leads to a node in range.
proof fn lemma_edge_of_in(nv: FSNodeView, n: int, len: int, p: Seq<SegView>)
    requires
        edges_in(nv, n, len),
    ensures
        edge_of(nv, p) matches Some(c) ==> n < c < len,
{
    let k = path_identity(p);
    if p.last().in_var_range {
        if edges_map(nv.lchildren).contains_key(k) {
            let i = crate::pathmap::path_index(nv.lchildren, k);
            assert(nv.lchildren[i].1 == edges_map(nv.lchildren)[k]);
        }
    } else {
        if edges_map(nv.children).contains_key(k) {
            let i = crate::pathmap::path_index(nv.children, k);
            assert(nv.children[i].1 == edges_map(nv.children)[k]);
        }
    }
}

/// The set of facts told, as a tree of nodes numbered in the order they were made; node 0 is
/// the root, and every edge leads to a node made after the one it leaves.
pub struct FactSet<'a> {
    nodes: Vec<FSNode<'a>>,
    labels: Ghost<Seq<Seq<Seq<char>>>>,
    added: Ghost<Set<Seq<Seq<char>>>>,
    leafy: Ghost<bool>,
}

/// The identities of the leaf paths of `ps`, in order: the keys of the edges that `ps`
/// follows.
pub open spec fn leaf_ids(ps: Seq<Seq<SegView>>) -> Seq<Seq<char>>
    decreases ps.len(),
{
    if ps.len() == 0 {
        Seq::empty()
    } else if is_leafy(ps.last()) {
        leaf_ids(ps.drop_last()).push(path_identity(ps.last()))
    } else {
        leaf_ids(ps.drop_last())
    }
}

/// Each node is labelled by the keys of the edges from the root to it: the root by none, the
/// end of an edge by the label of its start and the edge's key; and the label of every other
/// node begins one of the key lists `added`.
pub open spec fn labelled(ns: Seq<FSNodeView>, labels: Seq<Seq<Seq<char>>>, added: Set<Seq<Seq<char>>>) -> bool {
    &&& labels.len() == ns.len()
    &&& ns.len() > 0 ==> labels[0] == Seq::<Seq<char>>::empty()
    &&& forall|i: int, k: Seq<char>|
        0 <= i < ns.len() && #[trigger] edges_map(ns[i].children).contains_key(k) ==> labels[edges_map(ns[i].children)[k] as int] == labels[i].push(k)
    &&& forall|i: int, k: Seq<char>|
        0 <= i < ns.len() && #[trigger] edges_map(ns[i].lchildren).contains_key(k) ==> labels[edges_map(ns[i].lchildren)[k] as int] == labels[i].push(k)
    &&& forall|n: int| 0 < n < ns.len() ==> begins_added(#[trigger] labels[n], added)
}

/// `l` begins one of the key lists `added`.
pub open spec fn begins_added(l: Seq<Seq<char>>, added: Set<Seq<Seq<char>>>) -> bool {
    exists|t: Seq<Seq<char>>| added.contains(t) && l.is_prefix_of(t)
}

/// Following the leaf paths of the first `i` paths of `ps` from `s` to `n`, the label of `n`
/// and the identities of the rest make the label of `s` and those of all of `ps`.
proof fn lemma_label_rest(ns: Seq<FSNodeView>, labels: Seq<Seq<Seq<char>>>, added: Set<Seq<Seq<char>>>, s: int, n: int, ps: Seq<Seq<SegView>>, i: int)
    requires
        labelled(ns, labels, added),
        0 <= i <= ps.len(),
        walk(ns, s, ps.take(i)) == Some(n),
    ensures
        labels[n] + leaf_ids(ps.skip(i)) == labels[s] + leaf_ids(ps),
{
    lemma_walk_label(ns, labels, added, s, ps.take(i));
    assert(ps =~= ps.take(i) + ps.skip(i));
    lemma_leaf_ids_concat(ps.take(i), ps.skip(i));
    assert(labels[n] + leaf_ids(ps.skip(i)) =~= labels[s] + leaf_ids(ps));
}

proof fn lemma_leaf_ids_concat(a: Seq<Seq<SegView>>, b: Seq<Seq<SegView>>)
    ensures
        leaf_ids(a + b) == leaf_ids(a) + leaf_ids(b),
    decreases b.len(),
{
    if b.len() == 0 {
        assert(a + b =~= a);
        assert(leaf_ids(a) + leaf_ids(b) =~= leaf_ids(a));
    } else {
        assert((a + b).drop_last() =~= a + b.drop_last());
        assert((a + b).last() == b.last());
        lemma_leaf_ids_concat(a, b.drop_last());
        if is_leafy(b.last()) {
            assert(leaf_ids(a) + leaf_ids(b) =~= (leaf_ids(a) + leaf_ids(b.drop_last())).push(path_identity(b.last())));
        }
    }
}

proof fn lemma_leaf_ids_take(ps: Seq<Seq<SegView>>, j: int, head: Seq<Seq<char>>)
    requires
        0 <= j <= ps.len(),
    ensures
        (head + leaf_ids(ps.take(j))).is_prefix_of(head + leaf_ids(ps)),
{
    assert(ps =~= ps.take(j) + ps.skip(j));
    lemma_leaf_ids_concat(ps.take(j), ps.skip(j));
    let x = head + leaf_ids(ps.take(j));
    assert((head + leaf_ids(ps)).subrange(0, x.len() as int) =~= x);
}

/// Following the leaf paths of `ps` from node `s` to node `n` adds their identities to the
/// label of `s`.
proof fn lemma_walk_label(ns: Seq<FSNodeView>, labels: Seq<Seq<Seq<char>>>, added: Set<Seq<Seq<char>>>, s: int, ps: Seq<Seq<SegView>>)
    requires
        labelled(ns, labels, added),
        walk(ns, s, ps) is Some,
    ensures
        labels[walk(ns, s, ps)->0] == labels[s] + leaf_ids(ps),
    decreases ps.len(),
{
    if ps.len() == 0 {
        assert(labels[s] + leaf_ids(ps) =~= labels[s]);
    } else {
        lemma_walk_label(ns, labels, added, s, ps.drop_last());
        let m = walk(ns, s, ps.drop_last())->0;
        lemma_walk_range(ns, s, ps.drop_last());
        if is_leafy(ps.last()) {
            let k = path_identity(ps.last());
            assert(labels[s] + leaf_ids(ps) =~= (labels[s] + leaf_ids(ps.drop_last())).push(k));
            if ps.last().last().in_var_range {
                assert(edges_map(ns[m].lchildren).contains_key(k));
            } else {
                assert(edges_map(ns[m].children).contains_key(k));
            }
        }
    }
}

/// After an edge keyed `k` from `from` to a new last node, the nodes are labelled with the
/// new node labelled by the label of `from` and `k`, where that label begins a key list added.
proof fn lemma_labelled_edge_added(
    old: Seq<FSNodeView>,
    new: Seq<FSNodeView>,
    labels: Seq<Seq<Seq<char>>>,
    added: Set<Seq<Seq<char>>>,
    from: int,
    k: Seq<char>,
    to: usize,
    logical: bool,
)
    requires
        labelled(old, labels, added),
        0 <= from < old.len(),
        to == old.len(),
        edge_added(old, new, from, k, to, logical),
        forall|i: int| 0 <= i < old.len() ==> edges_in(#[trigger] old[i], i, old.len() as int),
        new[to as int].children.len() == 0,
        new[to as int].lchildren.len() == 0,
        begins_added(labels[from].push(k), added),
    ensures
        labelled(new, labels.push(labels[from].push(k)), added),
{
    let nl = labels.push(labels[from].push(k));
    assert forall|i: int, j: Seq<char>|
        0 <= i < new.len() && #[trigger] edges_map(new[i].children).contains_key(j) implies nl[edges_map(new[i].children)[j] as int] == nl[i].push(j) by {
        if i == to {
            assert(new[i].children =~= Seq::<(Seq<SegView>, usize)>::empty());
        } else if !logical && i == from && j == k {
        } else {
            assert(edges_map(new[i].children).contains_key(j) ==> edges_map(old[i].children).contains_key(j));
            lemma_edge_of_target(old[i], i, old.len() as int, j, false);
        }
    }
    assert forall|i: int, j: Seq<char>|
        0 <= i < new.len() && #[trigger] edges_map(new[i].lchildren).contains_key(j) implies nl[edges_map(new[i].lchildren)[j] as int] == nl[i].push(j) by {
        if i == to {
            assert(new[i].lchildren =~= Seq::<(Seq<SegView>, usize)>::empty());
        } else if logical && i == from && j == k {
        } else {
            lemma_edge_of_target(old[i], i, old.len() as int, j, true);
        }
    }
    assert forall|n: int| 0 < n < new.len() implies begins_added(#[trigger] nl[n], added) by {
        if n < old.len() {
            assert(nl[n] == labels[n]);
        }
    }
}

/// Labels that begin key lists of `a` begin key lists of any set that holds `a`.
proof fn lemma_labelled_more(ns: Seq<FSNodeView>, labels: Seq<Seq<Seq<char>>>, a: Set<Seq<Seq<char>>>, b: Set<Seq<Seq<char>>>)
    requires
        labelled(ns, labels, a),
        a.subset_of(b),
    ensures
        labelled(ns, labels, b),
{
    assert forall|n: int| 0 < n < ns.len() implies begins_added(#[trigger] labels[n], b) by {
        assert(begins_added(labels[n], a));
        let t = choose|t: Seq<Seq<char>>| a.contains(t) && labels[n].is_prefix_of(t);
        assert(b.contains(t));
    }
}

/// The end of an edge of a node whose edges lead below `len` is below `len`.
proof fn lemma_edge_of_target(nv: FSNodeView, n: int, len: int, k: Seq<char>, logical: bool)
    requires
        edges_in(nv, n, len),
    ensures
        logical && edges_map(nv.lchildren).contains_key(k) ==> n < edges_map(nv.lchildren)[k] < len,
        !logical && edges_map(nv.children).contains_key(k) ==> n < edges_map(nv.children)[k] < len,
{
    if logical && edges_map(nv.lchildren).contains_key(k) {
        let i = crate::pathmap::path_index(nv.lchildren, k);
        assert(nv.lchildren[i].1 == edges_map(nv.lchildren)[k]);
    }
    if !logical && edges_map(nv.children).contains_key(k) {
        let i = crate::pathmap::path_index(nv.children, k);
        assert(nv.children[i].1 == edges_map(nv.children)[k]);
    }
}

impl<'a> View for FactSet<'a> {
    type V = Seq<FSNodeView>;

    closed spec fn view(&self) -> Seq<FSNodeView> {
        self.nodes@.map_values(|n: FSNode<'a>| n@)
    }
}

impl<'a> FactSet<'a> {
    /// There is a root, every node is well formed, and every edge leads forward to a node.
    pub closed spec fn wf(&self) -> bool {
        &&& self.nodes@.len() > 0
        &&& forall|i: int| 0 <= i < self.nodes@.len() ==> (#[trigger] self.nodes@[i]).wf()
        &&& forall|i: int| 0 <= i < self.nodes@.len() ==> edges_in(#[trigger] self@[i], i, self@.len() as int)
    }

    /// A well formed fact set has a root.
    pub proof fn lemma_has_root(&self)
        requires
            self.wf(),
        ensures
            self@.len() > 0,
    {
    }

    /// The facts added, each as the identities of its leaf paths.
    pub closed spec fn added(&self) -> Set<Seq<Seq<char>>> {
        self.added@
    }

    /// Every fact added was of leaf values, and the nodes are labelled by the edges that lead
    /// to them, as `labelled` says.
    pub closed spec fn leaf_facts_only(&self) -> bool {
        self.leafy@ && labelled(self@, self.labels@, self.added@)
    }

    /// The label of node `n`: the keys of the edges from the root to it.
    pub closed spec fn label(&self, n: int) -> Seq<Seq<char>> {
        self.labels@[n]
    }

    /// The ghost state of the set: the labels, the facts added and whether all were of leaf
    /// values.
    pub closed spec fn ghosts(&self) -> (Seq<Seq<Seq<char>>>, Set<Seq<Seq<char>>>, bool) {
        (self.labels@, self.added@, self.leafy@)
    }

    /// A query without variables that a set of facts of leaf values finds has leaf paths
    /// whose identities begin those of a fact added: a fact that was not added, and that
    /// begins none of those added, is not found.
    pub proof fn lemma_found_was_added(&self, ps: Seq<Seq<SegView>>)
        requires
            self.wf(),
            self.leaf_facts_only(),
            var_free(ps),
            query_spec(self@, self@[0], ps, Map::empty()).len() > 0,
        ensures
            leaf_ids(ps).len() == 0 || exists|t: Seq<Seq<char>>| self.added().contains(t) && leaf_ids(ps).is_prefix_of(t),
    {
        lemma_found_walk(self@, 0, ps, Map::empty());
        lemma_walk_label(self@, self.labels@, self.added@, 0, ps);
        lemma_walk_range(self@, 0, ps);
        let n = walk(self@, 0, ps)->0;
        assert(Seq::<Seq<char>>::empty() + leaf_ids(ps) =~= leaf_ids(ps));
        if leaf_ids(ps).len() > 0 {
            assert(n != 0);
            assert(begins_added(self.labels@[n], self.added@));
        }
    }

    /// An empty fact set: a root without edges.
    pub fn new() -> (r: FactSet<'a>)
        ensures
            r.wf(),
            r@.len() == 1,
            r.added() == Set::<Seq<Seq<char>>>::empty(),
            r.leaf_facts_only(),
    {
        let mut nodes: Vec<FSNode<'a>> = Vec::new();
        nodes.push(FSNode::new(1));
        let ghost l0: Seq<Seq<Seq<char>>> = Seq::empty().push(Seq::<Seq<char>>::empty());
        let ghost a0: Set<Seq<Seq<char>>> = Set::empty();
        let r = FactSet { nodes, labels: Ghost(l0), added: Ghost(a0), leafy: Ghost(true) };
        proof {
            assert(r@[0].children =~= Seq::<(Seq<SegView>, usize)>::empty());
            assert(r@[0].lchildren =~= Seq::<(Seq<SegView>, usize)>::empty());
        }
        r
    }

    /// The node numbered `n`.
    pub fn node(&self, n: usize) -> (r: &FSNode<'a>)
        requires
            self.wf(),
            n < self@.len(),
        ensures
            r@ == self@[n as int],
            r.wf(),
            edges_in(r@, n as int, self@.len() as int),
    {
        assert(self.nodes@[n as int].wf());
        &self.nodes[n]
    }

    /// The root, node 0.
    pub fn root(&self) -> (r: &FSNode<'a>)
        requires
            self.wf(),
        ensures
            r@ == self@[0],
            r.wf(),
            edges_in(r@, 0, self@.len() as int),
    {
        self.node(0)
    }

    /// The answers to a fact used as a query: every matching of its variables under which
    /// it is in the set.
    pub fn ask_fact(&self, fact: &Fact<'a>) -> (r: Vec<MPMatching<'a>>)
        requires
            self.wf(),
            fact.wf(),
        ensures
            matchings_wf(r@),
            matchings_view(r@) == query_spec(
                self@,
                self@[0],
                paths_view(fact.paths@),
                Map::empty(),
            ),
    {
        let response: Vec<MPMatching<'a>> = Vec::new();
        let matching = MPMatching::new();
        let root = self.root();
        proof {
            assert(matchings_view(response@) =~= Seq::<Map<SegKey, SegView>>::empty());
            assert(edges_in(root@, -1, self@.len() as int));
        }
        let r = root.query_paths(self, fact.paths.as_slice(), matching, response);
        assert(matchings_view(r@) =~= Seq::<Map<SegKey, SegView>>::empty() + query_spec(self@, self@[0], paths_view(fact.paths@), Map::empty()));
        r
    }

    /// Whether the fact, used as a query, has an answer.
    pub fn ask_fact_bool(&self, fact: &Fact<'a>) -> (r: bool)
        requires
            self.wf(),
            fact.wf(),
        ensures
            r == (query_spec(self@, self@[0], paths_view(fact.paths@), Map::empty()).len() > 0),
    {
        self.ask_fact(fact).len() > 0
    }
}


/// `new` is `old` with one node more, and with the edge keyed `k` out of node `from`, a
/// logical edge or not, made to lead to node `to`; every other node and edge is as it was.
pub open spec fn edge_added(old: Seq<FSNodeView>, new: Seq<FSNodeView>, from: int, k: Seq<char>, to: usize, logical: bool) -> bool {
    &&& new.len() == old.len() + 1
    &&& forall|i: int| 0 <= i < old.len() && i != from ==> #[trigger] new[i] == old[i]
    &&& logical ==> edges_map(new[from].lchildren) == edges_map(old[from].lchildren).insert(k, to)
        && new[from].children == old[from].children
    &&& !logical ==> edges_map(new[from].children) == edges_map(old[from].children).insert(k, to)
        && new[from].lchildren == old[from].lchildren
}

/// Adding an edge under a key that the node did not have extends the fact set.
proof fn lemma_edge_added_extends(old: Seq<FSNodeView>, new: Seq<FSNodeView>, from: int, k: Seq<char>, to: usize, logical: bool)
    requires
        0 <= from < old.len(),
        edge_added(old, new, from, k, to, logical),
        logical ==> !edges_map(old[from].lchildren).contains_key(k),
        !logical ==> !edges_map(old[from].children).contains_key(k),
    ensures
        extends(old, new),
{
    assert forall|i: int| 0 <= i < old.len() implies edges_kept(edges_map(old[i].children), edges_map(#[trigger] new[i].children)) by {
        if i != from {
            assert(new[i] == old[i]);
        }
    }
    assert forall|i: int| 0 <= i < old.len() implies edges_kept(edges_map(old[i].lchildren), edges_map(#[trigger] new[i].lchildren)) by {
        if i != from {
            assert(new[i] == old[i]);
        }
    }
}

/// Every node carried is one of the first `len` nodes.
/// The edges of a node for logical values, or for the others.
pub open spec fn edges_of(nv: FSNodeView, logical: bool) -> Map<Seq<char>, usize> {
    if logical {
        edges_map(nv.lchildren)
    } else {
        edges_map(nv.children)
    }
}

/// The edges of a node of the other kind: for the others, or for logical values.
pub open spec fn other_edges(nv: FSNodeView, logical: bool) -> Seq<(Seq<SegView>, usize)> {
    if logical {
        nv.children
    } else {
        nv.lchildren
    }
}

/// The nodes carried to position `index`, none where there are none.
pub open spec fn carried_at(c: Map<usize, Seq<usize>>, index: usize) -> Seq<usize> {
    if c.contains_key(index) {
        c[index]
    } else {
        Seq::empty()
    }
}

/// `new` is `old` with the node `to` added, and with the edge keyed `k`, of the kind
/// `logical`, made to lead to `to` out of `from` and out of every node of `carried`; every
/// other edge and node is as it was.
pub open spec fn interned(old: Seq<FSNodeView>, new: Seq<FSNodeView>, from: int, carried: Seq<usize>, k: Seq<char>, to: usize, logical: bool) -> bool {
    &&& new.len() == old.len() + 1
    &&& to == old.len()
    &&& forall|i: int| 0 <= i < old.len() && (i == from || carried.contains(i as usize)) ==> edges_of(#[trigger] new[i], logical) == edges_of(old[i], logical).insert(k, to)
    &&& forall|i: int| 0 <= i < old.len() && !(i == from || carried.contains(i as usize)) ==> #[trigger] new[i] == old[i]
    &&& forall|i: int| 0 <= i < old.len() ==> other_edges(#[trigger] new[i], logical) == other_edges(old[i], logical)
}

/// A path whose value can stand for a variable and is a subterm: neither empty nor a leaf.
pub open spec fn is_compound(p: Seq<SegView>) -> bool {
    !p.last().is_empty && !p.last().is_leaf && p.last().in_var_range
}

/// The position of the first path past the subterm at position `i` of `ps`: what follows
/// the subterm in the fact.
pub open spec fn past_compound(ps: Seq<Seq<SegView>>, i: int) -> int {
    crate::path::paths_after_from(ps[i], ps, 0, false)
}

/// No two non-empty paths of `ps` have the same identity.
#[verifier::opaque]
pub open spec fn identities_distinct(ps: Seq<Seq<SegView>>) -> bool {
    forall|a: int, b: int|
        0 <= a < ps.len() && 0 <= b < ps.len() && a != b && !ps[a].last().is_empty && !ps[b].last().is_empty
            ==> path_identity(#[trigger] ps[a]) != path_identity(#[trigger] ps[b])
}

/// Every non-empty path of `ps` ends in a leaf or in a value that can stand for a
/// variable, as the paths of a fact do.
pub open spec fn fact_shaped(ps: Seq<Seq<SegView>>) -> bool {
    forall|j: int| 0 <= j < ps.len() && !(#[trigger] ps[j]).last().is_empty && !ps[j].last().is_leaf ==> ps[j].last().in_var_range
}

/// Every non-empty path of `ps` before position `r` is in the set: followed from node `s`,
/// its edge is there.
#[verifier::opaque]
pub open spec fn present_upto(ns: Seq<FSNodeView>, s: int, ps: Seq<Seq<SegView>>, r: int) -> bool {
    forall|j: int|
        0 <= j < r && !(#[trigger] ps[j]).last().is_empty ==> walk(ns, s, ps.take(j)) is Some && edge_of(
            ns[walk(ns, s, ps.take(j))->0],
            ps[j],
        ) is Some
}

/// The subterm at position `i` of `ps` stood in the set `ns` already, with all that comes
/// before what follows it, and what follows it, a leaf path, is new from there; the
/// identities of the fact's paths are distinct.
pub open spec fn continues_anew(ns: Seq<FSNodeView>, s: int, ps: Seq<Seq<SegView>>, i: int) -> bool {
    let r = past_compound(ps, i);
    &&& 0 <= i < r < ps.len()
    &&& is_compound(ps[i])
    &&& is_leafy(ps[r])
    &&& identities_distinct(ps)
    &&& fact_shaped(ps)
    &&& present_upto(ns, s, ps, r)
    &&& walk(ns, s, ps.take(r)) is Some
    &&& edge_of(ns[walk(ns, s, ps.take(r))->0], ps[r]) is None
}

/// The node that the leaf paths of `ps` before position `j` lead to from node `s`.
pub open spec fn node_before(ns: Seq<FSNodeView>, s: int, ps: Seq<Seq<SegView>>, j: int) -> int {
    walk(ns, s, ps.take(j))->0
}

/// The node that the edge for the path at position `i` of `ps` leads to, out of the node
/// that the paths before it lead to from `s`: for a subterm, its logical node.
pub open spec fn node_of(ns: Seq<FSNodeView>, s: int, ps: Seq<Seq<SegView>>, i: int) -> int {
    edge_of(ns[node_before(ns, s, ps, i)], ps[i])->0 as int
}

/// What adding a fact keeps along its paths, position `pi` reached at node `parent` with
/// the carried nodes `carry`, the nodes now `cur`: no subterm that continues anew lies
/// behind; where one does ahead, nothing has changed yet and `parent` is where the paths so
/// far lead; and the logical node of every such subterm passed is carried to what follows
/// it.
#[verifier::opaque]
pub open spec fn law_inv(
    ns: Seq<FSNodeView>,
    s: int,
    ps: Seq<Seq<SegView>>,
    pi: int,
    parent: int,
    carry: Map<usize, Seq<usize>>,
    cur: Seq<FSNodeView>,
) -> bool {
    &&& forall|i: int| #[trigger] continues_anew(ns, s, ps, i) ==> pi <= past_compound(ps, i)
    &&& (exists|i: int| #[trigger] continues_anew(ns, s, ps, i)) ==> cur == ns && walk(ns, s, ps.take(pi)) == Some(parent)
    &&& forall|i: int|
        #[trigger] continues_anew(ns, s, ps, i) && i < pi ==> carried_at(carry, past_compound(ps, i) as usize).contains(
            node_of(ns, s, ps, i) as usize,
        )
}

proof fn lemma_law_start(ns: Seq<FSNodeView>, s: int, ps: Seq<Seq<SegView>>)
    requires
        0 <= s < ns.len(),
    ensures
        law_inv(ns, s, ps, 0, s, Map::empty(), ns),
{
    reveal(law_inv);
    assert(ps.take(0) =~= Seq::<Seq<SegView>>::empty());
}

proof fn lemma_law_none(ns: Seq<FSNodeView>, s: int, ps: Seq<Seq<SegView>>, pi: int, parent: int, carry: Map<usize, Seq<usize>>, cur: Seq<FSNodeView>)
    requires
        !exists|i: int| #[trigger] continues_anew(ns, s, ps, i),
    ensures
        law_inv(ns, s, ps, pi, parent, carry, cur),
{
    reveal(law_inv);
}

proof fn lemma_law_empty(ns: Seq<FSNodeView>, s: int, ps: Seq<Seq<SegView>>, pi: int, parent: int, carry: Map<usize, Seq<usize>>, cur: Seq<FSNodeView>)
    requires
        law_inv(ns, s, ps, pi, parent, carry, cur),
        0 <= pi < ps.len(),
        ps[pi].last().is_empty,
    ensures
        law_inv(ns, s, ps, pi + 1, parent, carry, cur),
{
    reveal(law_inv);
    assert forall|i: int| #[trigger] continues_anew(ns, s, ps, i) implies pi + 1 <= past_compound(ps, i) by {
        assert(is_leafy(ps[past_compound(ps, i)]));
    }
    if exists|i: int| #[trigger] continues_anew(ns, s, ps, i) {
        assert(ps.take(pi + 1).drop_last() =~= ps.take(pi));
        assert(ps.take(pi + 1).last() == ps[pi]);
    }
}

/// Where a subterm that continues anew lies ahead, every non-empty path before what
/// follows it is there, and the path there is a new leaf path.
proof fn lemma_law_present(ns: Seq<FSNodeView>, s: int, ps: Seq<Seq<SegView>>, pi: int, parent: int, carry: Map<usize, Seq<usize>>, cur: Seq<FSNodeView>)
    requires
        law_inv(ns, s, ps, pi, parent, carry, cur),
        0 <= pi < ps.len(),
        !ps[pi].last().is_empty,
        exists|i: int| #[trigger] continues_anew(ns, s, ps, i),
    ensures
        cur == ns,
        walk(ns, s, ps.take(pi)) == Some(parent),
        edge_of(ns[parent], ps[pi]) is None ==> is_leafy(ps[pi]) && forall|i: int| #[trigger] continues_anew(ns, s, ps, i) ==> past_compound(ps, i) == pi,
        edge_of(ns[parent], ps[pi]) is Some ==> forall|i: int| #[trigger] continues_anew(ns, s, ps, i) ==> pi < past_compound(ps, i),
{
    reveal(law_inv);
    let i0 = choose|i: int| #[trigger] continues_anew(ns, s, ps, i);
    assert forall|i: int| #[trigger] continues_anew(ns, s, ps, i) implies (pi < past_compound(ps, i) ==> edge_of(ns[parent], ps[pi]) is Some)
        && (pi == past_compound(ps, i) ==> edge_of(ns[parent], ps[pi]) is None && is_leafy(ps[pi])) by {
        if pi < past_compound(ps, i) {
            assert(present_upto(ns, s, ps, past_compound(ps, i)));
            reveal(present_upto);
            assert(!ps[pi].last().is_empty);
        }
    }
    assert(pi <= past_compound(ps, i0));
}

proof fn lemma_law_leaf(ns: Seq<FSNodeView>, s: int, ps: Seq<Seq<SegView>>, pi: int, parent: int, carry: Map<usize, Seq<usize>>, cur: Seq<FSNodeView>, c: usize)
    requires
        law_inv(ns, s, ps, pi, parent, carry, cur),
        0 <= pi < ps.len(),
        !ps[pi].last().is_empty,
        ps[pi].last().is_leaf || !ps[pi].last().in_var_range,
        (exists|i: int| #[trigger] continues_anew(ns, s, ps, i)) ==> edge_of(ns[parent], ps[pi]) == Some(c) && c < ns.len(),
    ensures
        law_inv(ns, s, ps, pi + 1, c as int, carry, cur),
{
    if exists|i: int| #[trigger] continues_anew(ns, s, ps, i) {
        let i0 = choose|i: int| #[trigger] continues_anew(ns, s, ps, i);
        assert(fact_shaped(ps));
        assert(!ps[pi].last().is_leaf ==> ps[pi].last().in_var_range);
        assert(is_leafy(ps[pi]));
        lemma_law_present(ns, s, ps, pi, parent, carry, cur);
        assert(ps.take(pi + 1).drop_last() =~= ps.take(pi));
        assert(ps.take(pi + 1).last() == ps[pi]);
        lemma_walk_range(ns, s, ps.take(pi));
        let t1 = ps.take(pi + 1);
        assert(walk(ns, s, t1.drop_last()) == Some(parent));
        assert(is_leafy(t1.last()));
        assert(edge_of(ns[parent], t1.last()) == Some(c));
        assert(walk(ns, s, t1) == Some(c as int));
        assert(forall|i: int| #[trigger] continues_anew(ns, s, ps, i) ==> pi < past_compound(ps, i));
        reveal(law_inv);
        assert forall|i: int| #[trigger] continues_anew(ns, s, ps, i) && i < pi + 1 implies carried_at(carry, past_compound(ps, i) as usize).contains(
            node_of(ns, s, ps, i) as usize,
        ) by {
            assert(is_compound(ps[i]));
        }
    } else {
        lemma_law_none(ns, s, ps, pi + 1, c as int, carry, cur);
    }
}

proof fn lemma_law_compound(ns: Seq<FSNodeView>, s: int, ps: Seq<Seq<SegView>>, pi: int, parent: int, carry: Map<usize, Seq<usize>>, cur: Seq<FSNodeView>, c: usize, reindex: usize)
    requires
        law_inv(ns, s, ps, pi, parent, carry, cur),
        0 <= pi < ps.len(),
        !ps[pi].last().is_empty,
        !is_leafy(ps[pi]),
        reindex == past_compound(ps, pi),
        (exists|i: int| #[trigger] continues_anew(ns, s, ps, i)) ==> edge_of(ns[parent], ps[pi]) == Some(c),
    ensures
        law_inv(ns, s, ps, pi + 1, parent, carry.insert(reindex, if carry.contains_key(reindex) { carry[reindex].push(c) } else { seq![c] }), cur),
{
    reveal(law_inv);
    let c2 = carry.insert(reindex, if carry.contains_key(reindex) { carry[reindex].push(c) } else { seq![c] });
    if exists|i: int| #[trigger] continues_anew(ns, s, ps, i) {
        lemma_law_present(ns, s, ps, pi, parent, carry, cur);
        reveal(law_inv);
        assert(ps.take(pi + 1).drop_last() =~= ps.take(pi));
        assert(ps.take(pi + 1).last() == ps[pi]);
        assert(walk(ns, s, ps.take(pi + 1)) == Some(parent));
        assert forall|i: int| #[trigger] continues_anew(ns, s, ps, i) && i < pi + 1 implies carried_at(c2, past_compound(ps, i) as usize).contains(
            node_of(ns, s, ps, i) as usize,
        ) by {
            if i == pi {
                assert(node_of(ns, s, ps, i) == c);
                lemma_carry_add_has(carry, reindex, c);
            } else {
                lemma_carry_add_keeps(carry, reindex, c, past_compound(ps, i) as usize, node_of(ns, s, ps, i) as usize);
            }
        }
    }
}

/// Where what follows every subterm that continues anew is made at position `pi`, each
/// such subterm's logical node gets the same edge for it as the node the paths lead to.
proof fn lemma_law_finish(
    ns: Seq<FSNodeView>,
    s: int,
    ps: Seq<Seq<SegView>>,
    pi: int,
    parent: int,
    carry: Map<usize, Seq<usize>>,
    fin: Seq<FSNodeView>,
    x: usize,
)
    requires
        law_inv(ns, s, ps, pi, parent, carry, ns),
        0 <= pi < ps.len(),
        forall|i: int| #[trigger] continues_anew(ns, s, ps, i) ==> past_compound(ps, i) == pi,
        carry_in(carry, ns.len() as int),
        0 <= parent < ns.len(),
        forall|n: int|
            0 <= n < ns.len() && (n == parent || carried_at(carry, pi as usize).contains(n as usize)) ==> edge_of(#[trigger] fin[n], ps[pi])
                == Some(x),
        walk(fin, parent, ps.skip(pi)) is Some,
        forall|n: int, p: Seq<SegView>|
            0 <= n < ns.len() && !path_keys(ps.skip(pi)).contains(path_identity(p)) ==> #[trigger] edge_of(fin[n], p) == edge_of(ns[n], p),
    ensures
        forall|i: int|
            #[trigger] continues_anew(ns, s, ps, i) ==> {
                let r = past_compound(ps, i);
                &&& edge_of(fin[node_of(ns, s, ps, i)], ps[r]) is Some
                &&& edge_of(fin[node_of(ns, s, ps, i)], ps[r]) == edge_of(fin[node_before(ns, s, ps, r)], ps[r])
                &&& walk(fin, node_before(ns, s, ps, r), ps.skip(r)) is Some
                &&& forall|n: int, p: Seq<SegView>|
                    0 <= n < ns.len() && !path_keys(ps.skip(r)).contains(path_identity(p)) ==> #[trigger] edge_of(fin[n], p) == edge_of(ns[n], p)
            },
{
    reveal(law_inv);
    assert forall|i: int| #[trigger] continues_anew(ns, s, ps, i) implies {
        let r = past_compound(ps, i);
        &&& edge_of(fin[node_of(ns, s, ps, i)], ps[r]) is Some
        &&& edge_of(fin[node_of(ns, s, ps, i)], ps[r]) == edge_of(fin[node_before(ns, s, ps, r)], ps[r])
    } by {
        let l = node_of(ns, s, ps, i);
        assert(carried_at(carry, pi as usize).contains(l as usize));
        let xs = carried_at(carry, pi as usize);
        let w = choose|w: int| 0 <= w < xs.len() && #[trigger] xs[w] == l as usize;
        assert(carry.contains_key(pi as usize));
        assert(carry[pi as usize][w] == l as usize);
        assert(l < ns.len());
        assert(node_before(ns, s, ps, pi) == parent);
    }
}

proof fn lemma_law_exit(ns: Seq<FSNodeView>, s: int, ps: Seq<Seq<SegView>>, parent: int, carry: Map<usize, Seq<usize>>, cur: Seq<FSNodeView>)
    requires
        law_inv(ns, s, ps, ps.len() as int, parent, carry, cur),
    ensures
        !exists|i: int| #[trigger] continues_anew(ns, s, ps, i),
{
    reveal(law_inv);
    if exists|i: int| #[trigger] continues_anew(ns, s, ps, i) {
        let i0 = choose|i: int| #[trigger] continues_anew(ns, s, ps, i);
        assert(ps.len() <= past_compound(ps, i0));
    }
}

/// The paths from position `j` on of a fact whose paths have distinct identities have
/// distinct identities.
proof fn lemma_distinct_skip(ps: Seq<Seq<SegView>>, j: int)
    requires
        identities_distinct(ps),
        0 <= j <= ps.len(),
    ensures
        identities_distinct(ps.skip(j)),
{
    reveal(identities_distinct);
    let q = ps.skip(j);
    assert forall|a: int, b: int|
        0 <= a < q.len() && 0 <= b < q.len() && a != b && !q[a].last().is_empty && !q[b].last().is_empty implies path_identity(#[trigger] q[a])
            != path_identity(#[trigger] q[b]) by {
        assert(q[a] == ps[a + j]);
        assert(q[b] == ps[b + j]);
    }
}

/// The paths of a fact from position `j` on are shaped as a fact's are.
proof fn lemma_shaped_skip(ps: Seq<Seq<SegView>>, j: int)
    requires
        fact_shaped(ps),
        0 <= j <= ps.len(),
    ensures
        fact_shaped(ps.skip(j)),
{
    assert forall|a: int| 0 <= a < ps.skip(j).len() && !(#[trigger] ps.skip(j)[a]).last().is_empty && !ps.skip(j)[a].last().is_leaf implies ps.skip(j)[a].last().in_var_range by {
        assert(ps.skip(j)[a] == ps[a + j]);
    }
}

/// Carrying one more node keeps every node carried before.
proof fn lemma_carry_add_keeps(c: Map<usize, Seq<usize>>, index: usize, node: usize, j: usize, n: usize)
    requires
        carried_at(c, j).contains(n),
    ensures
        carried_at(
            c.insert(index, if c.contains_key(index) { c[index].push(node) } else { seq![node] }),
            j,
        ).contains(n),
{
    let c2 = c.insert(index, if c.contains_key(index) { c[index].push(node) } else { seq![node] });
    if j == index {
        let w = choose|w: int| 0 <= w < carried_at(c, j).len() && carried_at(c, j)[w] == n;
        assert(c.contains_key(index));
        assert(carried_at(c2, j)[w] == n);
    }
}

/// Carrying a node makes it carried.
proof fn lemma_carry_add_has(c: Map<usize, Seq<usize>>, index: usize, node: usize)
    ensures
        carried_at(
            c.insert(index, if c.contains_key(index) { c[index].push(node) } else { seq![node] }),
            index,
        ).contains(node),
{
    let c2 = c.insert(index, if c.contains_key(index) { c[index].push(node) } else { seq![node] });
    assert(carried_at(c2, index)[carried_at(c2, index).len() - 1] == node);
}

/// The identities of the non-empty paths of `ps`.
pub open spec fn path_keys(ps: Seq<Seq<SegView>>) -> Set<Seq<char>> {
    Set::new(|k: Seq<char>| exists|j: int| 0 <= j < ps.len() && !(#[trigger] ps[j]).last().is_empty && path_identity(ps[j]) == k)
}

/// The path at position `j` of `ps` is a subterm followed, past its own paths, by a leaf
/// path.
pub open spec fn compound_continues(ps: Seq<Seq<SegView>>, j: int) -> bool {
    &&& 0 <= j < past_compound(ps, j) < ps.len()
    &&& is_compound(ps[j])
    &&& is_leafy(ps[past_compound(ps, j)])
}

/// The carried nodes `c` with `node` carried to position `index`.
pub open spec fn carry_plus(c: Map<usize, Seq<usize>>, index: usize, node: usize) -> Map<usize, Seq<usize>> {
    c.insert(index, if c.contains_key(index) { c[index].push(node) } else { seq![node] })
}

/// What making the paths `ps` from node `s` keeps, position `pi` reached at node `parent`
/// with the carried nodes `carry`, the nodes now `cur`: the paths so far lead to `parent`;
/// the logical node of every subterm passed whose follower is still ahead is carried to that
/// follower; and the logical node of every subterm whose follower was made has the same
/// edge for it as the node where the paths before the follower lead.
#[verifier::opaque]
pub open spec fn cinv(
    ps: Seq<Seq<SegView>>,
    s: int,
    pi: int,
    parent: int,
    carry: Map<usize, Seq<usize>>,
    offset: int,
    cur: Seq<FSNodeView>,
) -> bool {
    &&& 0 <= pi <= ps.len()
    &&& walk(cur, s, ps.take(pi)) == Some(parent)
    &&& forall|j: int|
        #[trigger] compound_continues(ps, j) && j < pi && pi <= past_compound(ps, j) ==> walk(cur, s, ps.take(j)) is Some
            && edge_of(cur[node_before(cur, s, ps, j)], ps[j]) is Some && carried_at(
            carry,
            (past_compound(ps, j) + offset) as usize,
        ).contains(node_of(cur, s, ps, j) as usize)
    &&& forall|j: int|
        #[trigger] compound_continues(ps, j) && past_compound(ps, j) < pi ==> walk(cur, s, ps.take(j)) is Some
            && edge_of(cur[node_before(cur, s, ps, j)], ps[j]) is Some && walk(cur, s, ps.take(past_compound(ps, j))) is Some
            && edge_of(cur[node_of(cur, s, ps, j)], ps[past_compound(ps, j)]) is Some && edge_of(
            cur[node_of(cur, s, ps, j)],
            ps[past_compound(ps, j)],
        ) == edge_of(cur[node_before(cur, s, ps, past_compound(ps, j))], ps[past_compound(ps, j)])
}

/// A walk none of whose leaf paths has the key of an edge interned is the same after it.
proof fn lemma_walk_interned(
    old: Seq<FSNodeView>,
    new: Seq<FSNodeView>,
    from: int,
    carried: Seq<usize>,
    k: Seq<char>,
    to: usize,
    logical: bool,
    s: int,
    qs: Seq<Seq<SegView>>,
)
    requires
        interned(old, new, from, carried, k, to, logical),
        walk(old, s, qs) is Some,
        forall|i: int| 0 <= i < qs.len() && is_leafy(#[trigger] qs[i]) ==> path_identity(qs[i]) != k,
    ensures
        walk(new, s, qs) == walk(old, s, qs),
    decreases qs.len(),
{
    if qs.len() > 0 {
        let dl = qs.drop_last();
        assert forall|i: int| 0 <= i < dl.len() && is_leafy(#[trigger] dl[i]) implies path_identity(dl[i]) != k by {
            assert(dl[i] == qs[i]);
        }
        lemma_walk_interned(old, new, from, carried, k, to, logical, s, dl);
        lemma_walk_range(old, s, dl);
        let m = walk(old, s, dl)->0;
        if is_leafy(qs.last()) {
            assert(qs.last() == qs[qs.len() - 1]);
            lemma_interned_keeps_edge(old, new, from, carried, k, to, logical, m, qs.last());
        }
    } else {
        assert(new.len() == old.len() + 1);
    }
}

proof fn lemma_cinv_start(ps: Seq<Seq<SegView>>, s: int, carry: Map<usize, Seq<usize>>, offset: int, cur: Seq<FSNodeView>)
    requires
        0 <= s < cur.len(),
    ensures
        cinv(ps, s, 0, s, carry, offset, cur),
{
    reveal(cinv);
    assert(ps.take(0) =~= Seq::<Seq<SegView>>::empty());
}

proof fn lemma_cinv_empty(ps: Seq<Seq<SegView>>, s: int, pi: int, parent: int, carry: Map<usize, Seq<usize>>, offset: int, cur: Seq<FSNodeView>)
    requires
        cinv(ps, s, pi, parent, carry, offset, cur),
        0 <= pi < ps.len(),
        ps[pi].last().is_empty,
    ensures
        cinv(ps, s, pi + 1, parent, carry, offset, cur),
{
    reveal(cinv);
    assert(ps.take(pi + 1).drop_last() =~= ps.take(pi));
    assert(ps.take(pi + 1).last() == ps[pi]);
    assert forall|j: int| #[trigger] compound_continues(ps, j) implies past_compound(ps, j) != pi by {
        assert(is_leafy(ps[past_compound(ps, j)]));
    }
}

/// The paths `ps` made from node `s` in full lead somewhere, and the logical node of every
/// subterm followed by a leaf path has the same edge for that path as the node where the
/// paths before it lead.
proof fn lemma_cinv_end(ps: Seq<Seq<SegView>>, s: int, parent: int, carry: Map<usize, Seq<usize>>, offset: int, cur: Seq<FSNodeView>)
    requires
        cinv(ps, s, ps.len() as int, parent, carry, offset, cur),
    ensures
        walk(cur, s, ps) is Some,
        forall|j: int|
            #[trigger] compound_continues(ps, j) ==> edge_of(cur[node_of(cur, s, ps, j)], ps[past_compound(ps, j)]) is Some
                && edge_of(cur[node_of(cur, s, ps, j)], ps[past_compound(ps, j)]) == edge_of(
                cur[node_before(cur, s, ps, past_compound(ps, j))],
                ps[past_compound(ps, j)],
            ),
{
    reveal(cinv);
    assert(ps.take(ps.len() as int) =~= ps);
}

/// One step of making paths: the edge for the path at position `pi` interned out of
/// `parent` and out of the nodes carried there.
proof fn lemma_cinv_step(
    ps: Seq<Seq<SegView>>,
    s: int,
    pi: int,
    parent: int,
    carry: Map<usize, Seq<usize>>,
    offset: int,
    before: Seq<FSNodeView>,
    after: Seq<FSNodeView>,
    child: usize,
    new_carry: Map<usize, Seq<usize>>,
    new_parent: int,
)
    requires
        cinv(ps, s, pi, parent, carry, offset, before),
        identities_distinct(ps),
        fact_shaped(ps),
        0 <= pi < ps.len(),
        !ps[pi].last().is_empty,
        0 <= offset,
        offset + ps.len() <= usize::MAX,
        forall|i: int| 0 <= i < before.len() ==> edges_in(#[trigger] before[i], i, before.len() as int),
        interned(before, after, parent, carried_at(carry, (pi + offset) as usize), path_identity(ps[pi]), child, ps[pi].last().in_var_range),
        child == before.len(),
        new_carry == (if is_compound(ps[pi]) {
            carry_plus(carry.remove((pi + offset) as usize), (past_compound(ps, pi) + offset) as usize, child)
        } else {
            carry.remove((pi + offset) as usize)
        }),
        new_parent == (if is_compound(ps[pi]) { parent } else { child as int }),
    ensures
        cinv(ps, s, pi + 1, new_parent, new_carry, offset, after),
{
    reveal(cinv);
    reveal(identities_distinct);
    let k = path_identity(ps[pi]);
    let lg = ps[pi].last().in_var_range;
    let idx = (pi + offset) as usize;
    let carried = carried_at(carry, idx);
    assert(fact_shaped(ps));
    assert(!ps[pi].last().is_leaf ==> lg);
    // walks of the prefixes up to pi are unchanged
    assert forall|q: int| 0 <= q <= pi && #[trigger] walk(before, s, ps.take(q)) is Some implies walk(after, s, ps.take(q)) == walk(before, s, ps.take(q)) by {
        let t = ps.take(q);
        assert forall|i: int| 0 <= i < t.len() && is_leafy(#[trigger] t[i]) implies path_identity(t[i]) != k by {
            assert(t[i] == ps[i]);
            assert(i != pi);
        }
        lemma_walk_interned(before, after, parent, carried, k, child, lg, s, t);
    }
    lemma_walk_range(before, s, ps.take(pi));
    assert(0 <= parent < before.len());
    lemma_interned_adds_edge(before, after, parent, carried, k, child, lg, parent, ps[pi]);
    assert(walk(after, s, ps.take(pi)) == Some(parent));
    assert(ps.take(pi + 1).drop_last() =~= ps.take(pi));
    assert(ps.take(pi + 1).last() == ps[pi]);
    assert(walk(after, s, ps.take(pi + 1)) == Some(new_parent));
    // an edge for another path out of a node that the walks reach stays
    assert forall|j: int| #[trigger] compound_continues(ps, j) && j < pi + 1 && pi + 1 <= past_compound(ps, j) implies walk(after, s, ps.take(j)) is Some
        && edge_of(after[node_before(after, s, ps, j)], ps[j]) is Some && carried_at(
        new_carry,
        (past_compound(ps, j) + offset) as usize,
    ).contains(node_of(after, s, ps, j) as usize) by {
        let rj = (past_compound(ps, j) + offset) as usize;
        if j < pi {
            let nb = node_before(before, s, ps, j);
            lemma_walk_range(before, s, ps.take(j));
            assert(node_before(after, s, ps, j) == nb);
            assert(ps[j] != ps[pi] ==> true);
            assert(path_identity(ps[j]) != k);
            lemma_interned_keeps_edge(before, after, parent, carried, k, child, lg, nb, ps[j]);
            assert(node_of(after, s, ps, j) == node_of(before, s, ps, j));
            assert(rj != idx);
            assert(carried_at(carry.remove(idx), rj) == carried_at(carry, rj));
            if is_compound(ps[pi]) {
                lemma_carry_add_keeps(carry.remove(idx), (past_compound(ps, pi) + offset) as usize, child, rj, node_of(before, s, ps, j) as usize);
            }
        } else {
            assert(j == pi);
            assert(is_compound(ps[pi]));
            assert(node_before(after, s, ps, pi) == parent);
            assert(node_of(after, s, ps, pi) == child);
            lemma_carry_add_has(carry.remove(idx), (past_compound(ps, pi) + offset) as usize, child);
        }
    }
    assert forall|j: int| #[trigger] compound_continues(ps, j) && past_compound(ps, j) < pi + 1 implies walk(after, s, ps.take(j)) is Some
        && edge_of(after[node_before(after, s, ps, j)], ps[j]) is Some && walk(after, s, ps.take(past_compound(ps, j))) is Some
        && edge_of(after[node_of(after, s, ps, j)], ps[past_compound(ps, j)]) is Some && edge_of(
        after[node_of(after, s, ps, j)],
        ps[past_compound(ps, j)],
    ) == edge_of(after[node_before(after, s, ps, past_compound(ps, j))], ps[past_compound(ps, j)]) by {
        let r = past_compound(ps, j);
        let nb = node_before(before, s, ps, j);
        lemma_walk_range(before, s, ps.take(j));
        assert(j < pi);
        assert(path_identity(ps[j]) != k);
        lemma_interned_keeps_edge(before, after, parent, carried, k, child, lg, nb, ps[j]);
        lemma_edge_of_in(before[nb], nb, before.len() as int, ps[j]);
        let l = node_of(before, s, ps, j);
        assert(node_of(after, s, ps, j) == l);
        let nr = node_before(before, s, ps, r);
        lemma_walk_range(before, s, ps.take(r));
        assert(node_before(after, s, ps, r) == nr);
        if r < pi {
            assert(path_identity(ps[r]) != k);
            lemma_interned_keeps_edge(before, after, parent, carried, k, child, lg, l, ps[r]);
            lemma_interned_keeps_edge(before, after, parent, carried, k, child, lg, nr, ps[r]);
        } else {
            assert(r == pi);
            assert(carried.contains(l as usize));
            lemma_interned_adds_edge(before, after, parent, carried, k, child, lg, l, ps[r]);
            assert(nr == parent);
        }
    }
}

/// What making the paths `ps` from node `s` keeps of the nodes `carry0` carried in, older
/// than `len0`, position `pi` reached with the carried nodes `carry`, the nodes now `cur`:
/// each node carried in to a position still ahead is still carried there, and each carried
/// in to a leaf path already made has the same edge for it as the node where the paths
/// before it lead.
#[verifier::opaque]
pub open spec fn kinv(
    ps: Seq<Seq<SegView>>,
    s: int,
    pi: int,
    carry0: Map<usize, Seq<usize>>,
    len0: int,
    carry: Map<usize, Seq<usize>>,
    offset: int,
    cur: Seq<FSNodeView>,
) -> bool {
    &&& forall|x: usize, n: usize| #[trigger] carried_at(carry0, x).contains(n) && pi + offset <= x ==> carried_at(carry, x).contains(n)
    &&& forall|x: usize, n: usize|
        #[trigger] carried_at(carry0, x).contains(n) && offset <= x < pi + offset && is_leafy(ps[x - offset]) && n < len0
            ==> walk(cur, s, ps.take(x - offset)) is Some && edge_of(cur[n as int], ps[x - offset]) is Some && edge_of(
            cur[n as int],
            ps[x - offset],
        ) == edge_of(cur[node_before(cur, s, ps, x - offset)], ps[x - offset])
}

proof fn lemma_kinv_start(ps: Seq<Seq<SegView>>, s: int, carry0: Map<usize, Seq<usize>>, len0: int, offset: int, cur: Seq<FSNodeView>)
    ensures
        kinv(ps, s, 0, carry0, len0, carry0, offset, cur),
{
    reveal(kinv);
}

proof fn lemma_kinv_empty(
    ps: Seq<Seq<SegView>>,
    s: int,
    pi: int,
    carry0: Map<usize, Seq<usize>>,
    len0: int,
    carry: Map<usize, Seq<usize>>,
    offset: int,
    cur: Seq<FSNodeView>,
)
    requires
        kinv(ps, s, pi, carry0, len0, carry, offset, cur),
        0 <= pi < ps.len(),
        ps[pi].last().is_empty,
    ensures
        kinv(ps, s, pi + 1, carry0, len0, carry, offset, cur),
{
    reveal(kinv);
}

proof fn lemma_kinv_step(
    ps: Seq<Seq<SegView>>,
    s: int,
    pi: int,
    parent: int,
    carry0: Map<usize, Seq<usize>>,
    len0: int,
    carry: Map<usize, Seq<usize>>,
    offset: int,
    before: Seq<FSNodeView>,
    after: Seq<FSNodeView>,
    child: usize,
    new_carry: Map<usize, Seq<usize>>,
)
    requires
        kinv(ps, s, pi, carry0, len0, carry, offset, before),
        cinv(ps, s, pi, parent, carry, offset, before),
        identities_distinct(ps),
        0 <= pi < ps.len(),
        !ps[pi].last().is_empty,
        0 <= offset,
        offset + ps.len() <= usize::MAX,
        len0 <= before.len(),
        interned(before, after, parent, carried_at(carry, (pi + offset) as usize), path_identity(ps[pi]), child, ps[pi].last().in_var_range),
        new_carry == (if is_compound(ps[pi]) {
            carry_plus(carry.remove((pi + offset) as usize), (past_compound(ps, pi) + offset) as usize, child)
        } else {
            carry.remove((pi + offset) as usize)
        }),
    ensures
        kinv(ps, s, pi + 1, carry0, len0, new_carry, offset, after),
{
    reveal(kinv);
    reveal(cinv);
    reveal(identities_distinct);
    let k = path_identity(ps[pi]);
    let lg = ps[pi].last().in_var_range;
    let idx = (pi + offset) as usize;
    let carried = carried_at(carry, idx);
    lemma_walk_range(before, s, ps.take(pi));
    assert forall|x: usize, n: usize| #[trigger] carried_at(carry0, x).contains(n) && pi + 1 + offset <= x implies carried_at(new_carry, x).contains(n) by {
        assert(carried_at(carry, x).contains(n));
        assert(carried_at(carry.remove(idx), x) == carried_at(carry, x));
        if is_compound(ps[pi]) {
            lemma_carry_add_keeps(carry.remove(idx), (past_compound(ps, pi) + offset) as usize, child, x, n);
        }
    }
    assert forall|x: usize, n: usize|
        #[trigger] carried_at(carry0, x).contains(n) && offset <= x < pi + 1 + offset && is_leafy(ps[x - offset]) && n < len0
        implies walk(after, s, ps.take(x - offset)) is Some && edge_of(after[n as int], ps[x - offset]) is Some && edge_of(
        after[n as int],
        ps[x - offset],
    ) == edge_of(after[node_before(after, s, ps, x - offset)], ps[x - offset]) by {
        let y = x - offset;
        let t = ps.take(y);
        assert forall|i: int| 0 <= i < t.len() && is_leafy(#[trigger] t[i]) implies path_identity(t[i]) != k by {
            assert(t[i] == ps[i]);
            assert(i != pi);
        }
        if y < pi {
            lemma_walk_interned(before, after, parent, carried, k, child, lg, s, t);
            let nb = node_before(before, s, ps, y);
            lemma_walk_range(before, s, t);
            assert(path_identity(ps[y]) != k);
            lemma_interned_keeps_edge(before, after, parent, carried, k, child, lg, n as int, ps[y]);
            lemma_interned_keeps_edge(before, after, parent, carried, k, child, lg, nb, ps[y]);
        } else {
            assert(y == pi);
            lemma_walk_interned(before, after, parent, carried, k, child, lg, s, t);
            assert(carried.contains(n));
            lemma_interned_adds_edge(before, after, parent, carried, k, child, lg, n as int, ps[pi]);
            lemma_interned_adds_edge(before, after, parent, carried, k, child, lg, parent, ps[pi]);
        }
    }
}

/// The subterm at position `i` of `ps` is not in the set `ns`, though every non-empty path
/// before it is, and the leaf path that follows it is not reached along the fact's paths;
/// the identities of the fact's paths are distinct.
pub open spec fn compound_new(ns: Seq<FSNodeView>, s: int, ps: Seq<Seq<SegView>>, i: int) -> bool {
    let r = past_compound(ps, i);
    &&& 0 <= i < r < ps.len()
    &&& is_compound(ps[i])
    &&& is_leafy(ps[r])
    &&& identities_distinct(ps)
    &&& fact_shaped(ps)
    &&& present_upto(ns, s, ps, i)
    &&& walk(ns, s, ps.take(i)) is Some
    &&& edge_of(ns[walk(ns, s, ps.take(i))->0], ps[i]) is None
    &&& walk(ns, s, ps.take(r + 1)) is None
}

/// The identities of the subterms among the paths `ps`.
pub open spec fn compound_keys(ps: Seq<Seq<SegView>>) -> Set<Seq<char>> {
    Set::new(|k: Seq<char>| exists|j: int| 0 <= j < ps.len() && is_compound(#[trigger] ps[j]) && path_identity(ps[j]) == k)
}

/// What following the paths `ps` from `s` keeps where the subterm at position `ci` is new,
/// position `pi` reached at node `parent` with the carried nodes `carry`, the nodes now
/// `cur`: up to the subterm nothing has changed; past it, the paths so far lead to `parent`
/// as they did, only the edges of subterms were made, and the subterm's new logical node is
/// carried to what follows the subterm, which is still ahead.
#[verifier::opaque]
pub open spec fn ninv(
    ns: Seq<FSNodeView>,
    s: int,
    ps: Seq<Seq<SegView>>,
    ci: int,
    pi: int,
    parent: int,
    carry: Map<usize, Seq<usize>>,
    cur: Seq<FSNodeView>,
) -> bool {
    let r = past_compound(ps, ci);
    &&& pi <= ci ==> cur == ns && walk(ns, s, ps.take(pi)) == Some(parent)
    &&& ci < pi ==> {
        &&& pi <= r
        &&& ns.len() <= cur.len()
        &&& walk(ns, s, ps.take(pi)) == Some(parent)
        &&& walk(cur, s, ps.take(ci)) == walk(ns, s, ps.take(ci))
        &&& edge_of(cur[node_before(ns, s, ps, ci)], ps[ci]) is Some
        &&& carried_at(carry, r as usize).contains(node_of(cur, s, ps, ci) as usize)
        &&& forall|n: int, p: Seq<SegView>|
            0 <= n < ns.len() && !compound_keys(ps).contains(path_identity(p)) ==> #[trigger] edge_of(cur[n], p) == edge_of(ns[n], p)
    }
}

/// At most one subterm of a fact is new in the sense of `compound_new`: it is the first
/// non-empty path that is missing.
proof fn lemma_compound_new_unique(ns: Seq<FSNodeView>, s: int, ps: Seq<Seq<SegView>>, a: int, b: int)
    requires
        compound_new(ns, s, ps, a),
        compound_new(ns, s, ps, b),
    ensures
        a == b,
{
    reveal(present_upto);
    if a < b {
        assert(!ps[a].last().is_empty);
    } else if b < a {
        assert(!ps[b].last().is_empty);
    }
}

proof fn lemma_ninv_start(ns: Seq<FSNodeView>, s: int, ps: Seq<Seq<SegView>>, ci: int, carry: Map<usize, Seq<usize>>)
    requires
        0 <= s < ns.len(),
        compound_new(ns, s, ps, ci),
    ensures
        ninv(ns, s, ps, ci, 0, s, carry, ns),
{
    reveal(ninv);
    assert(ps.take(0) =~= Seq::<Seq<SegView>>::empty());
}

/// An empty path, or a subterm already in the set, leaves the walk as it was; carrying one
/// more node keeps every node carried.
proof fn lemma_ninv_skip(
    ns: Seq<FSNodeView>,
    s: int,
    ps: Seq<Seq<SegView>>,
    ci: int,
    pi: int,
    parent: int,
    carry: Map<usize, Seq<usize>>,
    cur: Seq<FSNodeView>,
    idx: usize,
    node: usize,
    added: bool,
)
    requires
        compound_new(ns, s, ps, ci),
        ninv(ns, s, ps, ci, pi, parent, carry, cur),
        0 <= pi < ps.len(),
        ps[pi].last().is_empty || (is_compound(ps[pi]) && edge_of(cur[parent], ps[pi]) is Some),
    ensures
        ninv(ns, s, ps, ci, pi + 1, parent, if added { carry_plus(carry, idx, node) } else { carry }, cur),
{
    reveal(ninv);
    assert(ps.take(pi + 1).drop_last() =~= ps.take(pi));
    assert(ps.take(pi + 1).last() == ps[pi]);
    assert(pi != ci);
    if pi > ci {
        let r = past_compound(ps, ci);
        assert(pi != r);
        if added {
            lemma_carry_add_keeps(carry, idx, node, r as usize, node_of(cur, s, ps, ci) as usize);
        }
    }
}

/// A leaf path already in the set, past the subterm or before it, is followed.
proof fn lemma_ninv_leaf(
    ns: Seq<FSNodeView>,
    s: int,
    ps: Seq<Seq<SegView>>,
    ci: int,
    pi: int,
    parent: int,
    carry: Map<usize, Seq<usize>>,
    cur: Seq<FSNodeView>,
    c: usize,
)
    requires
        compound_new(ns, s, ps, ci),
        ninv(ns, s, ps, ci, pi, parent, carry, cur),
        0 <= pi < ps.len(),
        !ps[pi].last().is_empty,
        ps[pi].last().is_leaf || !ps[pi].last().in_var_range,
        forall|i: int| 0 <= i < ns.len() ==> edges_in(#[trigger] ns[i], i, ns.len() as int),
        edge_of(cur[parent], ps[pi]) == Some(c),
    ensures
        ninv(ns, s, ps, ci, pi + 1, c as int, carry, cur),
{
    assert(fact_shaped(ps));
    assert(is_leafy(ps[pi]));
    reveal(ninv);
    reveal(identities_distinct);
    assert(ps.take(pi + 1).drop_last() =~= ps.take(pi));
    assert(ps.take(pi + 1).last() == ps[pi]);
    lemma_walk_range(ns, s, ps.take(pi));
    assert(pi != ci);
    if pi > ci {
        assert(!compound_keys(ps).contains(path_identity(ps[pi]))) by {
            if compound_keys(ps).contains(path_identity(ps[pi])) {
                let j = choose|j: int| 0 <= j < ps.len() && is_compound(#[trigger] ps[j]) && path_identity(ps[j]) == path_identity(ps[pi]);
                assert(j != pi);
            }
        }
        assert(edge_of(ns[parent], ps[pi]) == Some(c));
    }
    lemma_edge_of_in(ns[parent], parent, ns.len() as int, ps[pi]);
    assert(walk(ns, s, ps.take(pi + 1)) == Some(c as int));
    if pi > ci {
        let r = past_compound(ps, ci);
        if pi == r {
            assert(walk(ns, s, ps.take(r + 1)) is None);
        }
    }
}

/// The new subterm's logical node, made out of `parent` and carried to what follows it.
#[verifier::rlimit(30)]
proof fn lemma_ninv_made(
    ns: Seq<FSNodeView>,
    s: int,
    ps: Seq<Seq<SegView>>,
    ci: int,
    pi: int,
    parent: int,
    carry: Map<usize, Seq<usize>>,
    before: Seq<FSNodeView>,
    after: Seq<FSNodeView>,
    child: usize,
    new_carry: Map<usize, Seq<usize>>,
)
    requires
        compound_new(ns, s, ps, ci),
        ninv(ns, s, ps, ci, pi, parent, carry, before),
        0 <= pi < ps.len(),
        is_compound(ps[pi]),
        edge_of(before[parent], ps[pi]) is None,
        0 <= parent < before.len(),
        interned(before, after, parent, carried_at(carry, pi as usize), path_identity(ps[pi]), child, true),
        new_carry == carry_plus(carry.remove(pi as usize), past_compound(ps, pi) as usize, child),
        ps.len() <= usize::MAX,
    ensures
        ninv(ns, s, ps, ci, pi + 1, parent, new_carry, after),
{
    reveal(ninv);
    let r = past_compound(ps, ci);
    let k = path_identity(ps[pi]);
    let carried = carried_at(carry, pi as usize);
    assert(ps.take(pi + 1).drop_last() =~= ps.take(pi));
    assert(ps.take(pi + 1).last() == ps[pi]);
    if pi < ci {
        assert(present_upto(ns, s, ps, ci));
        assert(before == ns);
        reveal(present_upto);
        assert(!ps[pi].last().is_empty);
        assert(false);
    }
    assert(compound_keys(ps).contains(k)) by {
        assert(is_compound(ps[pi]));
    }
    let t = ps.take(ci);
    assert forall|i: int| 0 <= i < t.len() && is_leafy(#[trigger] t[i]) implies path_identity(t[i]) != k by {
        reveal(identities_distinct);
        assert(t[i] == ps[i]);
        assert(i != pi);
    }
    lemma_walk_range(ns, s, t);
    let nb = node_before(ns, s, ps, ci);
    lemma_walk_interned(before, after, parent, carried, k, child, true, s, t);
    if pi == ci {
        lemma_interned_adds_edge(before, after, parent, carried, k, child, true, parent, ps[pi]);
        lemma_carry_add_has(carry.remove(pi as usize), r as usize, child);
        assert(node_of(after, s, ps, ci) == child);
    } else {
        assert(pi != r);
        assert(path_identity(ps[ci]) != k) by {
            reveal(identities_distinct);
        }
        lemma_interned_keeps_edge(before, after, parent, carried, k, child, true, nb, ps[ci]);
        assert(node_of(after, s, ps, ci) == node_of(before, s, ps, ci));
        assert(carried_at(carry.remove(pi as usize), r as usize) == carried_at(carry, r as usize));
        lemma_carry_add_keeps(carry.remove(pi as usize), past_compound(ps, pi) as usize, child, r as usize, node_of(before, s, ps, ci) as usize);
    }
    assert forall|n: int, p: Seq<SegView>|
        0 <= n < ns.len() && !compound_keys(ps).contains(path_identity(p)) implies #[trigger] edge_of(after[n], p) == edge_of(ns[n], p) by {
        lemma_interned_keeps_edge(before, after, parent, carried, k, child, true, n, p);
    }
}

/// The fact's paths past position `q` made from `parent`, each older node carried to a
/// leaf path there given the edge for it that the node where the paths lead has: the new
/// subterm's logical node, carried to what follows it, gets the same edge for it as the
/// node where the fact's paths before that lead.
#[verifier::rlimit(40)]
proof fn lemma_ninv_finish(
    ns: Seq<FSNodeView>,
    s: int,
    ps: Seq<Seq<SegView>>,
    ci: int,
    q: int,
    parent: int,
    carry: Map<usize, Seq<usize>>,
    cur: Seq<FSNodeView>,
    fin: Seq<FSNodeView>,
)
    requires
        compound_new(ns, s, ps, ci),
        ninv(ns, s, ps, ci, q, parent, carry, cur),
        0 <= q < ps.len(),
        ps.len() <= usize::MAX,
        !ps[q].last().is_empty,
        ps[q].last().is_leaf || !ps[q].last().in_var_range,
        edge_of(cur[parent], ps[q]) is None,
        carry_in(carry, cur.len() as int),
        cur.len() <= fin.len(),
        forall|n: int, p: Seq<SegView>|
            0 <= n < cur.len() && !path_keys(ps.skip(q)).contains(path_identity(p)) ==> #[trigger] edge_of(fin[n], p) == edge_of(cur[n], p),
        forall|x: usize, n: usize|
            #[trigger] carried_at(carry, x).contains(n) && q <= x < q + ps.skip(q).len() && is_leafy(ps.skip(q)[x - q]) && n < cur.len() ==> {
                &&& walk(fin, parent, ps.skip(q).take(x - q)) is Some
                &&& edge_of(fin[n as int], ps.skip(q)[x - q]) is Some
                &&& edge_of(fin[n as int], ps.skip(q)[x - q]) == edge_of(
                    fin[node_before(fin, parent, ps.skip(q), x - q)],
                    ps.skip(q)[x - q],
                )
            },
        walk(fin, parent, ps.skip(q)) is Some,
    ensures
        ({
            let r = past_compound(ps, ci);
            &&& walk(fin, s, ps.take(ci)) is Some
            &&& edge_of(fin[node_before(fin, s, ps, ci)], ps[ci]) is Some
            &&& walk(fin, s, ps.take(r)) is Some
            &&& edge_of(fin[node_of(fin, s, ps, ci)], ps[r]) is Some
            &&& edge_of(fin[node_of(fin, s, ps, ci)], ps[r]) == edge_of(fin[node_before(fin, s, ps, r)], ps[r])
            &&& walk(fin, node_before(fin, s, ps, r), ps.skip(r)) is Some
        }),
{
    reveal(ninv);
    let r = past_compound(ps, ci);
    let rest = ps.skip(q);
    assert(fact_shaped(ps));
    if q < ci {
        assert(cur == ns);
        assert(present_upto(ns, s, ps, ci));
        reveal(present_upto);
        assert(false);
    }
    assert(q != ci);
    assert(ci < q <= r);
    let l = node_of(cur, s, ps, ci);
    assert(carried_at(carry, r as usize).contains(l as usize));
    let xs = carried_at(carry, r as usize);
    let w = choose|w: int| 0 <= w < xs.len() && #[trigger] xs[w] == l as usize;
    assert(carry.contains_key(r as usize));
    assert(carry[r as usize][w] == l as usize);
    assert(l < cur.len());
    assert(rest[r - q] == ps[r]);
    assert(carried_at(carry, r as usize).contains(l as usize) && q <= r as usize && (r as usize) < q + rest.len());
    // the paths before `q` lead where they led, and so do those before the subterm
    let tq = ps.take(q);
    let tc = ps.take(ci);
    assert forall|i: int| 0 <= i < tq.len() && is_leafy(#[trigger] tq[i]) implies !compound_keys(ps).contains(path_identity(tq[i]))
        && !path_keys(rest).contains(path_identity(tq[i])) by {
        reveal(identities_distinct);
        assert(tq[i] == ps[i]);
        if compound_keys(ps).contains(path_identity(tq[i])) {
            let j = choose|j: int| 0 <= j < ps.len() && is_compound(#[trigger] ps[j]) && path_identity(ps[j]) == path_identity(tq[i]);
            assert(j != i);
        }
        if path_keys(rest).contains(path_identity(tq[i])) {
            let j = choose|j: int| 0 <= j < rest.len() && !(#[trigger] rest[j]).last().is_empty && path_identity(rest[j]) == path_identity(tq[i]);
            assert(rest[j] == ps[q + j]);
        }
    }
    assert forall|i: int| 0 <= i < tc.len() && is_leafy(#[trigger] tc[i]) implies !path_keys(rest).contains(path_identity(tc[i])) by {
        assert(tc[i] == tq[i]);
    }
    assert(!path_keys(rest).contains(path_identity(ps[ci]))) by {
        reveal(identities_distinct);
        if path_keys(rest).contains(path_identity(ps[ci])) {
            let j = choose|j: int| 0 <= j < rest.len() && !(#[trigger] rest[j]).last().is_empty && path_identity(rest[j]) == path_identity(ps[ci]);
            assert(rest[j] == ps[q + j]);
        }
    }
    lemma_walk_frame(ns, cur, s, tq, compound_keys(ps));
    assert(walk(cur, s, tq) == Some(parent));
    lemma_walk_frame(cur, fin, s, tq, path_keys(rest));
    lemma_walk_frame(cur, fin, s, tc, path_keys(rest));
    let nb = node_before(ns, s, ps, ci);
    lemma_walk_range(ns, s, tc);
    assert(node_before(fin, s, ps, ci) == nb);
    assert(edge_of(fin[nb], ps[ci]) == edge_of(cur[nb], ps[ci]));
    assert(node_of(fin, s, ps, ci) == l);
    assert(ps.take(r) =~= tq + rest.take(r - q));
    lemma_walk_concat(fin, s, tq, rest.take(r - q));
    assert(node_before(fin, s, ps, r) == node_before(fin, parent, rest, r - q));
    assert(rest =~= rest.take(r - q) + ps.skip(r));
    lemma_walk_concat(fin, parent, rest.take(r - q), ps.skip(r));
}

proof fn lemma_ninv_exit(ns: Seq<FSNodeView>, s: int, ps: Seq<Seq<SegView>>, ci: int, parent: int, carry: Map<usize, Seq<usize>>, cur: Seq<FSNodeView>)
    requires
        ninv(ns, s, ps, ci, ps.len() as int, parent, carry, cur),
    ensures
        !compound_new(ns, s, ps, ci),
{
    reveal(ninv);
}

/// The query made of the paths `ps` with the subterm at position `i` replaced by the
/// variable `v`: the paths before it, the path to it ending in `v`, and the paths past it.
pub open spec fn abstracted(ps: Seq<Seq<SegView>>, i: int, v: SegView) -> Seq<Seq<SegView>> {
    ps.take(i) + seq![ps[i].drop_last().push(v)] + ps.skip(past_compound(ps, i))
}

/// A walk is the same in a set that keeps the edges of the older nodes for every path
/// whose identity is none of `keys`, where no leaf path walked has such an identity.
proof fn lemma_walk_frame(old: Seq<FSNodeView>, new: Seq<FSNodeView>, s: int, qs: Seq<Seq<SegView>>, keys: Set<Seq<char>>)
    requires
        walk(old, s, qs) is Some,
        old.len() <= new.len(),
        forall|n: int, p: Seq<SegView>| 0 <= n < old.len() && !keys.contains(path_identity(p)) ==> #[trigger] edge_of(new[n], p) == edge_of(old[n], p),
        forall|i: int| 0 <= i < qs.len() && is_leafy(#[trigger] qs[i]) ==> !keys.contains(path_identity(qs[i])),
    ensures
        walk(new, s, qs) == walk(old, s, qs),
    decreases qs.len(),
{
    if qs.len() > 0 {
        let dl = qs.drop_last();
        assert forall|i: int| 0 <= i < dl.len() && is_leafy(#[trigger] dl[i]) implies !keys.contains(path_identity(dl[i])) by {
            assert(dl[i] == qs[i]);
        }
        lemma_walk_frame(old, new, s, dl, keys);
        lemma_walk_range(old, s, dl);
        if is_leafy(qs.last()) {
            assert(qs.last() == qs[qs.len() - 1]);
            let m = walk(old, s, dl)->0;
            assert(edge_of(new[m], qs.last()) == edge_of(old[m], qs.last()));
        }
    }
}

/// A query whose first paths, without variables, lead from node `n` to a node asks there
/// what the rest of it asks.
proof fn lemma_query_prefix(ns: Seq<FSNodeView>, n: int, a: Seq<Seq<SegView>>, b: Seq<Seq<SegView>>, m: Map<SegKey, SegView>)
    requires
        var_free(a),
        walk(ns, n, a) is Some,
    ensures
        query_spec(ns, ns[n], a + b, m) == query_spec(ns, ns[walk(ns, n, a)->0], b, m),
    decreases a.len(),
{
    if a.len() == 0 {
        assert(a + b =~= b);
    } else {
        let a0 = a[0];
        let a1 = a.drop_first();
        assert(a =~= seq![a0] + a1);
        lemma_walk_concat(ns, n, seq![a0], a1);
        assert(seq![a0].drop_last() =~= Seq::<Seq<SegView>>::empty());
        assert(seq![a0].last() == a0);
        lemma_walk_range(ns, n, a);
        lemma_walk_range(ns, n, Seq::<Seq<SegView>>::empty());
        assert(walk(ns, n, Seq::<Seq<SegView>>::empty()) is Some);
        assert(var_free(a1)) by {
            assert forall|i: int| 0 <= i < a1.len() && is_leafy(#[trigger] a1[i]) implies !a1[i].last().is_var by {
                assert(a1[i] == a[i + 1]);
            }
        }
        let ab = a + b;
        assert(ab[0] == a0);
        assert(ab.drop_first() =~= a1 + b);
        if !is_leafy(a0) {
            assert(walk(ns, n, seq![a0]) == Some(n));
            lemma_query_skip(ns, ns[n], ab, m);
            lemma_query_prefix(ns, n, a1, b, m);
        } else {
            assert(first_leafy(ab, 0) == 0);
            assert(!a0.last().is_var);
            let c = edge_of(ns[n], a0)->0;
            assert(walk(ns, n, seq![a0]) == Some(c as int));
            assert(ab.subrange(1, ab.len() as int) =~= a1 + b);
            lemma_query_prefix(ns, c as int, a1, b, m);
        }
    }
}

/// Through the logical edges `les` from position `j` on, a query is answered where it is
/// answered through one of them.
proof fn lemma_lchild_found(
    ns: Seq<FSNodeView>,
    les: Seq<(Seq<SegView>, usize)>,
    j: int,
    w: int,
    rest: Seq<Seq<SegView>>,
    m: Map<SegKey, SegView>,
    var: SegView,
)
    requires
        0 <= j <= w < les.len(),
        les[w].1 < ns.len(),
        query_spec(ns, ns[les[w].1 as int], rest, m.insert(seg_key(var), les[w].0.last())).len() > 0,
    ensures
        lchild_results(ns, les, j, rest, m, var).len() > 0,
    decreases w - j,
{
    if j < w {
        lemma_lchild_found(ns, les, j + 1, w, rest, m, var);
    }
}

/// Where what follows a subterm was made anew and the subterm's logical node got the edge
/// for it, the query with a variable in place of the subterm is answered.
proof fn lemma_abstracted_found(old: Seq<FSNodeView>, fin: Seq<FSNodeView>, ps: Seq<Seq<SegView>>, i: int, v: SegView)
    requires
        continues_anew(old, 0, ps, i),
        var_free(ps),
        v.is_var && v.is_leaf && !v.is_empty,
        old.len() > 0,
        old.len() <= fin.len(),
        forall|n: int| 0 <= n < old.len() ==> edges_in(#[trigger] old[n], n, old.len() as int),
        ({
            let r = past_compound(ps, i);
            &&& edge_of(fin[node_of(old, 0, ps, i)], ps[r]) is Some
            &&& edge_of(fin[node_of(old, 0, ps, i)], ps[r]) == edge_of(fin[node_before(old, 0, ps, r)], ps[r])
            &&& walk(fin, node_before(old, 0, ps, r), ps.skip(r)) is Some
            &&& forall|n: int, p: Seq<SegView>|
                0 <= n < old.len() && !path_keys(ps.skip(r)).contains(path_identity(p)) ==> #[trigger] edge_of(fin[n], p) == edge_of(old[n], p)
        }),
    ensures
        query_spec(fin, fin[0], abstracted(ps, i, v), Map::empty()).len() > 0,
{
    let r = past_compound(ps, i);
    let keys = path_keys(ps.skip(r));
    reveal(present_upto);
    reveal(identities_distinct);
    assert(present_upto(old, 0, ps, r));
    assert(!ps[i].last().is_empty);
    let a = ps.take(i);
    let pnode = node_before(old, 0, ps, i);
    lemma_walk_range(old, 0, a);
    // the paths before the subterm lead to the same node
    assert forall|q: int| 0 <= q < a.len() && is_leafy(#[trigger] a[q]) implies !keys.contains(path_identity(a[q])) by {
        assert(a[q] == ps[q]);
        if keys.contains(path_identity(a[q])) {
            let j = choose|j: int| 0 <= j < ps.skip(r).len() && !(#[trigger] ps.skip(r)[j]).last().is_empty && path_identity(ps.skip(r)[j]) == path_identity(a[q]);
            assert(ps.skip(r)[j] == ps[j + r]);
        }
    }
    lemma_walk_frame(old, fin, 0, a, keys);
    assert(walk(fin, 0, a) == Some(pnode));
    // the logical edge of the subterm is there
    assert(!keys.contains(path_identity(ps[i]))) by {
        if keys.contains(path_identity(ps[i])) {
            let j = choose|j: int| 0 <= j < ps.skip(r).len() && !(#[trigger] ps.skip(r)[j]).last().is_empty && path_identity(ps.skip(r)[j]) == path_identity(ps[i]);
            assert(ps.skip(r)[j] == ps[j + r]);
        }
    }
    assert(edge_of(fin[pnode], ps[i]) == edge_of(old[pnode], ps[i]));
    lemma_edge_of_in(old[pnode], pnode, old.len() as int, ps[i]);
    let l = node_of(old, 0, ps, i);
    assert(0 <= l < old.len());
    // from the logical node, the paths past the subterm lead on
    let q = node_before(old, 0, ps, r);
    let rest = ps.skip(r);
    assert(rest =~= seq![ps[r]] + ps.skip(r + 1));
    lemma_walk_concat(fin, q, seq![ps[r]], ps.skip(r + 1));
    lemma_walk_concat(fin, l, seq![ps[r]], ps.skip(r + 1));
    assert(seq![ps[r]].drop_last() =~= Seq::<Seq<SegView>>::empty());
    assert(seq![ps[r]].last() == ps[r]);
    lemma_walk_range(fin, q, rest);
    lemma_walk_range(old, 0, ps.take(r));
    assert(0 <= q < old.len());
    assert(walk(fin, q, Seq::<Seq<SegView>>::empty()) == Some(q));
    assert(walk(fin, l, Seq::<Seq<SegView>>::empty()) == Some(l));
    assert(is_leafy(ps[r]));
    assert(walk(fin, q, seq![ps[r]]) is Some);
    assert(walk(fin, l, seq![ps[r]]) == walk(fin, q, seq![ps[r]]));
    assert(walk(fin, l, rest) == walk(fin, q, rest));
    assert(var_free(rest)) by {
        assert forall|j: int| 0 <= j < rest.len() && is_leafy(#[trigger] rest[j]) implies !rest[j].last().is_var by {
            assert(rest[j] == ps[j + r]);
        }
    }
    assert(var_free(a)) by {
        assert forall|j: int| 0 <= j < a.len() && is_leafy(#[trigger] a[j]) implies !a[j].last().is_var by {
            assert(a[j] == ps[j]);
        }
    }
    // the query: the paths before, then the variable, then the rest
    let vp = ps[i].drop_last().push(v);
    let b = seq![vp] + rest;
    assert(abstracted(ps, i, v) =~= a + b);
    lemma_query_prefix(fin, 0, a, b, Map::empty());
    assert(vp.last() == v);
    assert(b[0] == vp);
    assert(is_leafy(vp));
    assert(first_leafy(b, 0) == 0);
    assert(b.subrange(1, b.len() as int) =~= rest);
    let les = fin[pnode].lchildren;
    assert(ps[i].last().in_var_range);
    let key = path_identity(ps[i]);
    assert(edges_map(les).contains_key(key));
    let w = crate::pathmap::path_index(les, key);
    assert(0 <= w < les.len() && les[w].1 == edges_map(les)[key]);
    assert(les[w].1 == l);
    let m1 = Map::<SegKey, SegView>::empty().insert(seg_key(v), les[w].0.last());
    lemma_walk_found(fin, l, rest, m1);
    lemma_lchild_found(fin, les, 0, w, rest, Map::empty(), v);
}

/// Where the fact's paths lead through the subterm at position `i` to its logical node, and
/// that node has the same edge for what follows the subterm as the node where the paths
/// before that lead, from which the rest of the fact leads on, the query with a variable in
/// place of the subterm is answered.
proof fn lemma_abstracted_found_in(fin: Seq<FSNodeView>, ps: Seq<Seq<SegView>>, i: int, v: SegView)
    requires
        0 <= i < past_compound(ps, i) < ps.len(),
        is_compound(ps[i]),
        is_leafy(ps[past_compound(ps, i)]),
        var_free(ps),
        v.is_var && v.is_leaf && !v.is_empty,
        fin.len() > 0,
        forall|n: int| 0 <= n < fin.len() ==> edges_in(#[trigger] fin[n], n, fin.len() as int),
        ({
            let r = past_compound(ps, i);
            &&& walk(fin, 0, ps.take(i)) is Some
            &&& edge_of(fin[node_before(fin, 0, ps, i)], ps[i]) is Some
            &&& walk(fin, 0, ps.take(r)) is Some
            &&& walk(fin, node_before(fin, 0, ps, r), ps.skip(r)) is Some
            &&& edge_of(fin[node_of(fin, 0, ps, i)], ps[r]) == edge_of(fin[node_before(fin, 0, ps, r)], ps[r])
        }),
    ensures
        query_spec(fin, fin[0], abstracted(ps, i, v), Map::empty()).len() > 0,
{
    let r = past_compound(ps, i);
    let a = ps.take(i);
    let pnode = node_before(fin, 0, ps, i);
    lemma_walk_range(fin, 0, a);
    lemma_edge_of_in(fin[pnode], pnode, fin.len() as int, ps[i]);
    let l = node_of(fin, 0, ps, i);
    assert(0 <= l < fin.len());
    let q = node_before(fin, 0, ps, r);
    let rest = ps.skip(r);
    assert(rest =~= seq![ps[r]] + ps.skip(r + 1));
    lemma_walk_concat(fin, q, seq![ps[r]], ps.skip(r + 1));
    lemma_walk_concat(fin, l, seq![ps[r]], ps.skip(r + 1));
    assert(seq![ps[r]].drop_last() =~= Seq::<Seq<SegView>>::empty());
    assert(seq![ps[r]].last() == ps[r]);
    lemma_walk_range(fin, 0, ps.take(r));
    assert(walk(fin, q, Seq::<Seq<SegView>>::empty()) == Some(q));
    assert(walk(fin, l, Seq::<Seq<SegView>>::empty()) == Some(l));
    assert(walk(fin, q, seq![ps[r]]) is Some);
    assert(walk(fin, l, seq![ps[r]]) == walk(fin, q, seq![ps[r]]));
    assert(walk(fin, l, rest) == walk(fin, q, rest));
    assert(var_free(rest)) by {
        assert forall|j: int| 0 <= j < rest.len() && is_leafy(#[trigger] rest[j]) implies !rest[j].last().is_var by {
            assert(rest[j] == ps[j + r]);
        }
    }
    assert(var_free(a)) by {
        assert forall|j: int| 0 <= j < a.len() && is_leafy(#[trigger] a[j]) implies !a[j].last().is_var by {
            assert(a[j] == ps[j]);
        }
    }
    let vp = ps[i].drop_last().push(v);
    let b = seq![vp] + rest;
    assert(abstracted(ps, i, v) =~= a + b);
    lemma_query_prefix(fin, 0, a, b, Map::empty());
    assert(vp.last() == v);
    assert(b[0] == vp);
    assert(is_leafy(vp));
    assert(first_leafy(b, 0) == 0);
    assert(b.subrange(1, b.len() as int) =~= rest);
    let les = fin[pnode].lchildren;
    assert(ps[i].last().in_var_range);
    let key = path_identity(ps[i]);
    assert(edges_map(les).contains_key(key));
    let w = crate::pathmap::path_index(les, key);
    assert(0 <= w < les.len() && les[w].1 == edges_map(les)[key]);
    assert(les[w].1 == l);
    let m1 = Map::<SegKey, SegView>::empty().insert(seg_key(v), les[w].0.last());
    lemma_walk_found(fin, l, rest, m1);
    lemma_lchild_found(fin, les, 0, w, rest, Map::empty(), v);
}

/// Interning an edge under another key leaves the edge of every older node for `p` as it
/// was.
proof fn lemma_interned_keeps_edge(
    old: Seq<FSNodeView>,
    new: Seq<FSNodeView>,
    from: int,
    carried: Seq<usize>,
    k: Seq<char>,
    to: usize,
    logical: bool,
    n: int,
    p: Seq<SegView>,
)
    requires
        interned(old, new, from, carried, k, to, logical),
        0 <= n < old.len(),
        path_identity(p) != k,
    ensures
        edge_of(new[n], p) == edge_of(old[n], p),
{
    assert(other_edges(new[n], logical) == other_edges(old[n], logical));
    if n == from || carried.contains(n as usize) {
        assert(edges_of(new[n], logical) == edges_of(old[n], logical).insert(k, to));
        if logical {
            assert(new[n].children == old[n].children);
        } else {
            assert(new[n].lchildren == old[n].lchildren);
        }
    } else {
        assert(new[n] == old[n]);
    }
}

/// Interning an edge keyed by the identity of `p`, of the kind of `p`, gives the node it
/// leaves, and every node carried, that edge for `p`.
proof fn lemma_interned_adds_edge(
    old: Seq<FSNodeView>,
    new: Seq<FSNodeView>,
    from: int,
    carried: Seq<usize>,
    k: Seq<char>,
    to: usize,
    logical: bool,
    n: int,
    p: Seq<SegView>,
)
    requires
        interned(old, new, from, carried, k, to, logical),
        0 <= n < old.len(),
        n == from || carried.contains(n as usize),
        path_identity(p) == k,
        p.last().in_var_range == logical,
    ensures
        edge_of(new[n], p) == Some(to),
{
    assert(edges_of(new[n], logical) == edges_of(old[n], logical).insert(k, to));
}

pub open spec fn carry_in(c: Map<usize, Seq<usize>>, len: int) -> bool {
    forall|k: usize, i: int| #[trigger] c.contains_key(k) && 0 <= i < c[k].len() ==> #[trigger] c[k][i] < len
}

impl<'a> FactSet<'a> {
    /// Adds a fact: its paths are followed from the root, and the part that is not yet in
    /// the set is made. The logical node of a subterm is linked to what follows the subterm:
    /// where the subterm's node stood in the set already and what follows it is new, that
    /// node gets the same edge for it as the node where the subterm's own paths end, so that
    /// a variable in place of the subterm finds the rest of the fact. So does the logical node
    /// made for a subterm that is new, where every path before it is in the set and what
    /// follows it is not reached along the fact's paths.
    pub fn add_fact(&mut self, fact: &Fact<'a>)
        requires
            old(self).wf(),
            fact.wf(),
            fact.paths@.len() + 2 <= usize::MAX,
        ensures
            final(self).wf(),
            old(self)@.len() <= final(self)@.len(),
            leaves_only(paths_view(fact.paths@)) ==> extends(old(self)@, final(self)@),
            leaves_only(paths_view(fact.paths@)) && var_free(paths_view(fact.paths@)) ==> query_spec(
                final(self)@,
                final(self)@[0],
                paths_view(fact.paths@),
                Map::empty(),
            ).len() > 0,
            final(self).added() == old(self).added().insert(leaf_ids(paths_view(fact.paths@))),
            old(self).leaf_facts_only() && leaves_only(paths_view(fact.paths@)) ==> final(self).leaf_facts_only(),
            forall|i: int|
                #[trigger] continues_anew(old(self)@, 0, paths_view(fact.paths@), i) ==> {
                    let ps = paths_view(fact.paths@);
                    let r = past_compound(ps, i);
                    &&& edge_of(final(self)@[node_of(old(self)@, 0, ps, i)], ps[r]) is Some
                    &&& edge_of(final(self)@[node_of(old(self)@, 0, ps, i)], ps[r]) == edge_of(
                        final(self)@[node_before(old(self)@, 0, ps, r)],
                        ps[r],
                    )
                },
            forall|i: int, v: SegView|
                #![trigger continues_anew(old(self)@, 0, paths_view(fact.paths@), i), abstracted(paths_view(fact.paths@), i, v)]
                continues_anew(old(self)@, 0, paths_view(fact.paths@), i) && var_free(paths_view(fact.paths@)) && v.is_var
                    && v.is_leaf && !v.is_empty ==> query_spec(
                    final(self)@,
                    final(self)@[0],
                    abstracted(paths_view(fact.paths@), i, v),
                    Map::empty(),
                ).len() > 0,
            forall|i: int|
                #[trigger] compound_new(old(self)@, 0, paths_view(fact.paths@), i) ==> {
                    let ps = paths_view(fact.paths@);
                    let r = past_compound(ps, i);
                    &&& edge_of(final(self)@[node_of(final(self)@, 0, ps, i)], ps[r]) is Some
                    &&& edge_of(final(self)@[node_of(final(self)@, 0, ps, i)], ps[r]) == edge_of(
                        final(self)@[node_before(final(self)@, 0, ps, r)],
                        ps[r],
                    )
                },
            forall|i: int, v: SegView|
                #![trigger compound_new(old(self)@, 0, paths_view(fact.paths@), i), abstracted(paths_view(fact.paths@), i, v)]
                compound_new(old(self)@, 0, paths_view(fact.paths@), i) && var_free(paths_view(fact.paths@)) && v.is_var
                    && v.is_leaf && !v.is_empty ==> query_spec(
                    final(self)@,
                    final(self)@[0],
                    abstracted(paths_view(fact.paths@), i, v),
                    Map::empty(),
                ).len() > 0,
    {
        let paths = fact.paths.as_slice();
        let carry = CarryOver::new();
        let ghost ps = paths_view(fact.paths@);
        let ghost a0 = self.added@;
        let ghost a1 = a0.insert(leaf_ids(ps));
        self.added = Ghost(a1);
        proof {
            assert(self@ == old(self)@);
            assert(self.wf());
            if self.leafy@ && labelled(self@, self.labels@, a0) {
                lemma_labelled_more(self@, self.labels@, a0, a1);
                assert(self.labels@[0] + leaf_ids(ps) =~= leaf_ids(ps));
            }
        }
        let ghost before = self@;
        proof {
            assert(forall|n: int| 0 <= n < before.len() ==> edges_in(#[trigger] before[n], n, before.len() as int));
            old(self).lemma_has_root();
        }
        self.follow_and_create_paths(0, paths, 1, carry);
        proof {
            let ps = paths_view(fact.paths@);
            if leaves_only(ps) && var_free(ps) {
                lemma_walk_found(self@, 0, ps, Map::empty());
            }
            assert forall|i: int, v: SegView|
                #![trigger continues_anew(old(self)@, 0, paths_view(fact.paths@), i), abstracted(paths_view(fact.paths@), i, v)]
                continues_anew(old(self)@, 0, paths_view(fact.paths@), i) && var_free(paths_view(fact.paths@)) && v.is_var
                    && v.is_leaf && !v.is_empty implies query_spec(
                    self@,
                    self@[0],
                    abstracted(paths_view(fact.paths@), i, v),
                    Map::empty(),
                ).len() > 0 by {
                lemma_abstracted_found(before, self@, ps, i, v);
            }
            assert(forall|n: int| 0 <= n < self@.len() ==> edges_in(#[trigger] self@[n], n, self@.len() as int));
            assert forall|i: int, v: SegView|
                #![trigger compound_new(old(self)@, 0, paths_view(fact.paths@), i), abstracted(paths_view(fact.paths@), i, v)]
                compound_new(old(self)@, 0, paths_view(fact.paths@), i) && var_free(paths_view(fact.paths@)) && v.is_var
                    && v.is_leaf && !v.is_empty implies query_spec(
                    self@,
                    self@[0],
                    abstracted(paths_view(fact.paths@), i, v),
                    Map::empty(),
                ).len() > 0 by {
                assert(compound_new(before, 0, ps, i));
                lemma_abstracted_found_in(self@, ps, i, v);
            }
        }
    }

    /// Follows the paths from `parent` as far as the set has them, and makes the rest; the
    /// logical node of a subtree is carried to the path just past the subtree.
    #[verifier::rlimit(100)]
    #[verifier::spinoff_prover]
    pub fn follow_and_create_paths(
        &mut self,
        start: usize,
        paths: &[MPPath<'a>],
        start_depth: usize,
        carried: CarryOver,
    )
        requires
            old(self).wf(),
            start < old(self)@.len(),
            all_wf(paths@),
            start_depth + paths@.len() + 1 <= usize::MAX,
            carry_in(carried@, old(self)@.len() as int),
        ensures
            final(self).wf(),
            old(self)@.len() <= final(self)@.len(),
            leaves_only(paths_view(paths@)) && carried@ == Map::<usize, Seq<usize>>::empty() ==> extends(old(self)@, final(self)@)
                && walk(final(self)@, start as int, paths_view(paths@)) is Some,
            final(self).added() == old(self).added(),
            old(self).leaf_facts_only() && leaves_only(paths_view(paths@)) && carried@ == Map::<usize, Seq<usize>>::empty()
                && old(self).added().contains(old(self).label(start as int) + leaf_ids(paths_view(paths@))) ==> final(self).leaf_facts_only(),
            carried@ == Map::<usize, Seq<usize>>::empty() ==> forall|i: int|
                #[trigger] continues_anew(old(self)@, start as int, paths_view(paths@), i) ==> {
                    let ps = paths_view(paths@);
                    let r = past_compound(ps, i);
                    &&& edge_of(final(self)@[node_of(old(self)@, start as int, ps, i)], ps[r]) is Some
                    &&& edge_of(final(self)@[node_of(old(self)@, start as int, ps, i)], ps[r]) == edge_of(
                        final(self)@[node_before(old(self)@, start as int, ps, r)],
                        ps[r],
                    )
                    &&& walk(final(self)@, node_before(old(self)@, start as int, ps, r), ps.skip(r)) is Some
                    &&& forall|n: int, p: Seq<SegView>|
                        0 <= n < old(self)@.len() && !path_keys(ps.skip(r)).contains(path_identity(p)) ==> #[trigger] edge_of(
                            final(self)@[n],
                            p,
                        ) == edge_of(old(self)@[n], p)
                },
            forall|i: int|
                #[trigger] compound_new(old(self)@, start as int, paths_view(paths@), i) ==> {
                    let ps = paths_view(paths@);
                    let r = past_compound(ps, i);
                    &&& walk(final(self)@, start as int, ps.take(i)) is Some
                    &&& edge_of(final(self)@[node_before(final(self)@, start as int, ps, i)], ps[i]) is Some
                    &&& walk(final(self)@, start as int, ps.take(r)) is Some
                    &&& walk(final(self)@, node_before(final(self)@, start as int, ps, r), ps.skip(r)) is Some
                    &&& edge_of(final(self)@[node_of(final(self)@, start as int, ps, i)], ps[r]) is Some
                    &&& edge_of(final(self)@[node_of(final(self)@, start as int, ps, i)], ps[r]) == edge_of(
                        final(self)@[node_before(final(self)@, start as int, ps, r)],
                        ps[r],
                    )
                },
    {
        let ghost ps = paths_view(paths@);
        let ghost cc = carried@ == Map::<usize, Seq<usize>>::empty();

        let ghost c0 = leaves_only(ps) && carried@ == Map::<usize, Seq<usize>>::empty();
        let ghost lf = self.leafy@ && labelled(self@, self.labels@, self.added@) && c0 && self.added@.contains(self.labels@[start as int] + leaf_ids(ps));
        self.leafy = Ghost(lf);
        let ghost parent0 = start as int;
        let mut parent = start;
        let mut depth = start_depth;
        let mut carry = carried;
        let mut path_index: usize = 0;
        proof {
            lemma_extends_refl(self@);
            assert(ps.take(0) =~= Seq::<Seq<SegView>>::empty());
            if cc {
                lemma_law_start(self@, parent0, ps);
            }
        }
        let ghost has = exists|i: int| #[trigger] compound_new(old(self)@, parent0, ps, i);
        let ghost ci = choose|i: int| #[trigger] compound_new(old(self)@, parent0, ps, i);
        proof {
            assert(forall|n: int| 0 <= n < old(self)@.len() ==> edges_in(#[trigger] old(self)@[n], n, old(self)@.len() as int));
            if has {
                lemma_ninv_start(old(self)@, parent0, ps, ci, carry@);
            }
        }
        while path_index < paths.len()
            invariant
                0 <= path_index <= paths.len(),
                self.wf(),
                old(self)@.len() <= self@.len(),
                parent < self@.len(),
                all_wf(paths@),
                depth <= start_depth + path_index,
                start_depth + paths@.len() + 1 <= usize::MAX,
                carry_in(carry@, self@.len() as int),
                ps == paths_view(paths@),
                0 <= parent0 < old(self)@.len(),
                parent0 == start,
                c0 == (leaves_only(ps) && carried@ == Map::<usize, Seq<usize>>::empty()),
                c0 ==> carry@ == Map::<usize, Seq<usize>>::empty(),
                c0 ==> leaves_only(ps),
                c0 ==> extends(old(self)@, self@),
                c0 ==> walk(self@, parent0, ps.take(path_index as int)) == Some(parent as int),
                self.added@ == old(self).added@,
                self.leafy@ ==> c0 && labelled(self@, self.labels@, self.added@),
                self.leafy@ ==> self.added@.contains(self.labels@[parent0] + leaf_ids(ps)),
                self.leafy@ == lf,
                lf == (old(self).leafy@ && labelled(old(self)@, old(self).labels@, old(self).added@) && c0
                    && old(self).added@.contains(old(self).labels@[start as int] + leaf_ids(ps))),
                cc == (carried@ == Map::<usize, Seq<usize>>::empty()),
                cc ==> law_inv(old(self)@, parent0, ps, path_index as int, parent as int, carry@, self@),
                has == (exists|i: int| #[trigger] compound_new(old(self)@, parent0, ps, i)),
                has ==> compound_new(old(self)@, parent0, ps, ci),
                has ==> ninv(old(self)@, parent0, ps, ci, path_index as int, parent as int, carry@, self@),
                forall|n: int| 0 <= n < old(self)@.len() ==> edges_in(#[trigger] old(self)@[n], n, old(self)@.len() as int),
            decreases paths.len() - path_index,
        {
            let path = &paths[path_index];
            assert(path.wf());
            assert(ps[path_index as int] == path@);
            let value = path.value();
            proof {
                assert(ps.take(path_index + 1).drop_last() =~= ps.take(path_index as int));
                assert(ps.take(path_index + 1).last() == ps[path_index as int]);
                assert(ps =~= ps.take(path_index as int) + ps.skip(path_index as int));
                if self.leafy@ {
                    lemma_label_rest(self@, self.labels@, self.added@, parent0, parent as int, ps, path_index as int);
                }
                if c0 {
                    assert forall|i: int| 0 <= i < ps.skip(path_index as int).len() && !(#[trigger] ps.skip(path_index as int)[i]).last().is_empty implies ps.skip(path_index as int)[i].last().is_leaf by {
                        assert(ps.skip(path_index as int)[i] == ps[path_index + i]);
                    }
                }
            }
            if value.is_empty {
                proof {
                    if cc {
                        lemma_law_empty(old(self)@, parent0, ps, path_index as int, parent as int, carry@, self@);
                    }
                    if has {
                        lemma_ninv_skip(old(self)@, parent0, ps, ci, path_index as int, parent as int, carry@, self@, 0, 0, false);
                    }
                }
                path_index = path_index + 1;
                continue;
            }
            let ghost before = self@;
            depth = depth + 1;
            let child: usize;
            if value.in_var_range {
                let opt_child = self.node(parent).get_lchild(path);
                let reindex = path.paths_after(paths);
                match opt_child {
                    Some(c) => {
                        proof {
                            lemma_edge_of_in(self@[parent as int], parent as int, self@.len() as int, path@);
                        }
                        if !value.is_leaf {
                            proof {
                                if cc {
                                    if exists|i: int| #[trigger] continues_anew(old(self)@, parent0, ps, i) {
                                        lemma_law_present(old(self)@, parent0, ps, path_index as int, parent as int, carry@, self@);
                                    }
                                    lemma_law_compound(old(self)@, parent0, ps, path_index as int, parent as int, carry@, self@, c, reindex);
                                }
                            }
                            let ghost carry_p = carry@;
                            carry = carry.add(reindex, c);
                            proof {
                                if has {
                                    assert(edge_of(self@[parent as int], path@) == Some(c));
                                    lemma_ninv_skip(old(self)@, parent0, ps, ci, path_index as int, parent as int, carry_p, self@, reindex, c, true);
                                }
                            }
                            path_index = path_index + 1;
                            continue;
                        }
                        proof {
                            if cc {
                                if exists|i: int| #[trigger] continues_anew(old(self)@, parent0, ps, i) {
                                    lemma_law_present(old(self)@, parent0, ps, path_index as int, parent as int, carry@, self@);
                                }
                                lemma_law_leaf(old(self)@, parent0, ps, path_index as int, parent as int, carry@, self@, c);
                            }
                            if has {
                                assert(edge_of(self@[parent as int], path@) == Some(c));
                                lemma_ninv_leaf(old(self)@, parent0, ps, ci, path_index as int, parent as int, carry@, self@, c);
                            }
                        }
                        child = c;
                    },
                    None => {
                        if value.is_leaf {
                            let rest = &paths[path_index..paths.len()];
                            proof {
                                assert(all_wf(rest@)) by {
                                    assert forall|i: int| 0 <= i < rest@.len() implies (#[trigger] rest@[i]).wf() by {
                                        assert(rest@[i] == paths@[path_index + i]);
                                    }
                                }
                            }
                            assert(paths_view(rest@) =~= ps.skip(path_index as int));
                            let ghost carry_b = carry@;
                            let ghost len_b = self@.len();
                            proof {
                                if cc && exists|i: int| #[trigger] continues_anew(old(self)@, parent0, ps, i) {
                                    lemma_law_present(old(self)@, parent0, ps, path_index as int, parent as int, carry@, self@);
                                    let i0 = choose|i: int| #[trigger] continues_anew(old(self)@, parent0, ps, i);
                                    lemma_distinct_skip(ps, path_index as int);
                                    lemma_shaped_skip(ps, path_index as int);
                                }
                            }
                            proof {
                                if has {
                                    lemma_distinct_skip(ps, path_index as int);
                                    lemma_shaped_skip(ps, path_index as int);
                                }
                            }
                            self.create_paths(parent, rest, depth, carry, path_index);
                            proof {
                                if has {
                                    lemma_ninv_finish(old(self)@, parent0, ps, ci, path_index as int, parent as int, carry_b, before, self@);
                                    assert forall|i: int| #[trigger] compound_new(old(self)@, start as int, ps, i) implies ({
                                        let r = past_compound(ps, i);
                                        &&& walk(self@, start as int, ps.take(i)) is Some
                                        &&& edge_of(self@[node_before(self@, start as int, ps, i)], ps[i]) is Some
                                        &&& walk(self@, start as int, ps.take(r)) is Some
                                        &&& walk(self@, node_before(self@, start as int, ps, r), ps.skip(r)) is Some
                                        &&& edge_of(self@[node_of(self@, start as int, ps, i)], ps[r]) is Some
                                        &&& edge_of(self@[node_of(self@, start as int, ps, i)], ps[r]) == edge_of(
                                            self@[node_before(self@, start as int, ps, r)],
                                            ps[r],
                                        )
                                    }) by {
                                        lemma_compound_new_unique(old(self)@, parent0, ps, i, ci);
                                    }
                                }
                                if cc && exists|i: int| #[trigger] continues_anew(old(self)@, parent0, ps, i) {
                                    lemma_law_finish(old(self)@, parent0, ps, path_index as int, parent as int, carry_b, self@, len_b as usize);
                                }
                                if c0 {
                                    assert(leaves_only(ps.skip(path_index as int)));
                                    assert(extends(before, self@));
                                    assert(walk(self@, parent as int, ps.skip(path_index as int)) is Some);
                                    lemma_extends_trans(old(self)@, before, self@);
                                    lemma_walk_extends(before, self@, parent0, ps.take(path_index as int));
                                    lemma_walk_concat(self@, parent0, ps.take(path_index as int), ps.skip(path_index as int));
                                    assert(walk(self@, parent0, ps) is Some);
                                }
                            }
                            return;
                        } else {
                            proof {
                                if cc && exists|i: int| #[trigger] continues_anew(old(self)@, parent0, ps, i) {
                                    lemma_law_present(old(self)@, parent0, ps, path_index as int, parent as int, carry@, self@);
                                }
                            }
                            let child_node = FSNode::new(depth);
                            let ghost carry_m = carry@;
                            let (new_child, new_carry) = self.intern_lchild(parent, path, child_node, carry, path_index);
                            carry = new_carry.add(reindex, new_child);
                            proof {
                                if has {
                                    lemma_ninv_made(old(self)@, parent0, ps, ci, path_index as int, parent as int, carry_m, before, self@, new_child, carry@);
                                }
                                if cc {
                                    lemma_law_none(old(self)@, parent0, ps, path_index + 1, parent as int, carry@, self@);
                                }
                            }
                            path_index = path_index + 1;
                            continue;
                        }
                    },
                }
            } else {
                let opt_child = self.node(parent).get_child(path);
                match opt_child {
                    None => {
                        let rest = &paths[path_index..paths.len()];
                        proof {
                            assert(all_wf(rest@)) by {
                                assert forall|i: int| 0 <= i < rest@.len() implies (#[trigger] rest@[i]).wf() by {
                                    assert(rest@[i] == paths@[path_index + i]);
                                }
                            }
                        }
                        assert(paths_view(rest@) =~= ps.skip(path_index as int));
                        let ghost carry_b = carry@;
                        let ghost len_b = self@.len();
                        proof {
                            if cc && exists|i: int| #[trigger] continues_anew(old(self)@, parent0, ps, i) {
                                lemma_law_present(old(self)@, parent0, ps, path_index as int, parent as int, carry@, self@);
                                let i0 = choose|i: int| #[trigger] continues_anew(old(self)@, parent0, ps, i);
                                lemma_distinct_skip(ps, path_index as int);
                                lemma_shaped_skip(ps, path_index as int);
                            }
                        }
                        proof {
                            if has {
                                lemma_distinct_skip(ps, path_index as int);
                                lemma_shaped_skip(ps, path_index as int);
                            }
                        }
                        self.create_paths(parent, rest, depth, carry, path_index);
                        proof {
                            if has {
                                lemma_ninv_finish(old(self)@, parent0, ps, ci, path_index as int, parent as int, carry_b, before, self@);
                                assert forall|i: int| #[trigger] compound_new(old(self)@, start as int, ps, i) implies ({
                                    let r = past_compound(ps, i);
                                    &&& walk(self@, start as int, ps.take(i)) is Some
                                    &&& edge_of(self@[node_before(self@, start as int, ps, i)], ps[i]) is Some
                                    &&& walk(self@, start as int, ps.take(r)) is Some
                                    &&& walk(self@, node_before(self@, start as int, ps, r), ps.skip(r)) is Some
                                    &&& edge_of(self@[node_of(self@, start as int, ps, i)], ps[r]) is Some
                                    &&& edge_of(self@[node_of(self@, start as int, ps, i)], ps[r]) == edge_of(
                                        self@[node_before(self@, start as int, ps, r)],
                                        ps[r],
                                    )
                                }) by {
                                    lemma_compound_new_unique(old(self)@, parent0, ps, i, ci);
                                }
                            }
                            if cc && exists|i: int| #[trigger] continues_anew(old(self)@, parent0, ps, i) {
                                lemma_law_finish(old(self)@, parent0, ps, path_index as int, parent as int, carry_b, self@, len_b as usize);
                            }
                            if c0 {
                                lemma_extends_trans(old(self)@, before, self@);
                                lemma_walk_extends(before, self@, parent0, ps.take(path_index as int));
                                lemma_walk_concat(self@, parent0, ps.take(path_index as int), ps.skip(path_index as int));
                            }
                        }
                        return;
                    },
                    Some(c) => {
                        proof {
                            lemma_edge_of_in(self@[parent as int], parent as int, self@.len() as int, path@);
                            if cc {
                                if exists|i: int| #[trigger] continues_anew(old(self)@, parent0, ps, i) {
                                    lemma_law_present(old(self)@, parent0, ps, path_index as int, parent as int, carry@, self@);
                                }
                                lemma_law_leaf(old(self)@, parent0, ps, path_index as int, parent as int, carry@, self@, c);
                            }
                            if has {
                                assert(edge_of(self@[parent as int], path@) == Some(c));
                                lemma_ninv_leaf(old(self)@, parent0, ps, ci, path_index as int, parent as int, carry@, self@, c);
                            }
                        }
                        child = c;
                    },
                }
            }
            parent = child;
            path_index = path_index + 1;
        }
        proof {
            assert(ps.take(paths@.len() as int) =~= ps);
            if cc {
                lemma_law_exit(old(self)@, parent0, ps, parent as int, carry@, self@);
            }
            if has {
                lemma_ninv_exit(old(self)@, parent0, ps, ci, parent as int, carry@, self@);
            }
        }
    }

    /// Makes the paths, one node after another, from `parent` on; `offset` is the position of
    /// the first of them in the fact's paths.
    fn create_paths(
        &mut self,
        parent: usize,
        paths: &[MPPath<'a>],
        start_depth: usize,
        carry: CarryOver,
        offset: usize,
    )
        requires
            old(self).wf(),
            parent < old(self)@.len(),
            all_wf(paths@),
            start_depth + paths@.len() <= usize::MAX,
            offset + paths@.len() <= usize::MAX,
            carry_in(carry@, old(self)@.len() as int),
            leaves_only(paths_view(paths@)) && carry@ == Map::<usize, Seq<usize>>::empty() ==> paths@.len() > 0
                && !paths_view(paths@)[0].last().is_empty && edge_of(old(self)@[parent as int], paths_view(paths@)[0]) is None,
            old(self).leafy@ ==> labelled(old(self)@, old(self).labels@, old(self).added@)
                && old(self).added@.contains(old(self).labels@[parent as int] + leaf_ids(paths_view(paths@))),
        ensures
            final(self).wf(),
            old(self)@.len() <= final(self)@.len(),
            leaves_only(paths_view(paths@)) && carry@ == Map::<usize, Seq<usize>>::empty() ==> extends(old(self)@, final(self)@)
                && walk(final(self)@, parent as int, paths_view(paths@)) is Some,
            final(self).added@ == old(self).added@,
            old(self).leafy@ && leaves_only(paths_view(paths@)) && carry@ == Map::<usize, Seq<usize>>::empty() ==> final(self).leafy@
                && labelled(final(self)@, final(self).labels@, final(self).added@),
            paths@.len() > 0 && !paths_view(paths@)[0].last().is_empty && identities_distinct(paths_view(paths@)) ==> forall|n: int|
                0 <= n < old(self)@.len() && (n == parent || carried_at(carry@, offset).contains(n as usize)) ==> edge_of(
                    #[trigger] final(self)@[n],
                    paths_view(paths@)[0],
                ) == Some(old(self)@.len() as usize),
            identities_distinct(paths_view(paths@)) && fact_shaped(paths_view(paths@)) ==> walk(final(self)@, parent as int, paths_view(paths@)) is Some,
            forall|n: int, p: Seq<SegView>|
                0 <= n < old(self)@.len() && !path_keys(paths_view(paths@)).contains(path_identity(p)) ==> #[trigger] edge_of(
                    final(self)@[n],
                    p,
                ) == edge_of(old(self)@[n], p),
            identities_distinct(paths_view(paths@)) && fact_shaped(paths_view(paths@)) ==> forall|j: int|
                #[trigger] compound_continues(paths_view(paths@), j) ==> {
                    let ps = paths_view(paths@);
                    let r = past_compound(ps, j);
                    &&& edge_of(final(self)@[node_of(final(self)@, parent as int, ps, j)], ps[r]) is Some
                    &&& edge_of(final(self)@[node_of(final(self)@, parent as int, ps, j)], ps[r]) == edge_of(
                        final(self)@[node_before(final(self)@, parent as int, ps, r)],
                        ps[r],
                    )
                },
            identities_distinct(paths_view(paths@)) && fact_shaped(paths_view(paths@)) ==> forall|x: usize, n: usize|
                #[trigger] carried_at(carry@, x).contains(n) && offset <= x < offset + paths@.len() && is_leafy(
                    paths_view(paths@)[x - offset],
                ) && n < old(self)@.len() ==> {
                    let ps = paths_view(paths@);
                    &&& walk(final(self)@, parent as int, ps.take(x - offset)) is Some
                    &&& edge_of(final(self)@[n as int], ps[x - offset]) is Some
                    &&& edge_of(final(self)@[n as int], ps[x - offset]) == edge_of(
                        final(self)@[node_before(final(self)@, parent as int, ps, x - offset)],
                        ps[x - offset],
                    )
                },
    {
        let ghost carry0 = carry@;
        let ghost len0 = self@.len();
        let ghost f0 = paths@.len() > 0 && !paths_view(paths@)[0].last().is_empty && identities_distinct(paths_view(paths@));
        let ghost ps = paths_view(paths@);
        let ghost c0 = leaves_only(ps) && carry@ == Map::<usize, Seq<usize>>::empty();
        let ghost lf = self.leafy@ && c0;
        self.leafy = Ghost(lf);
        let ghost parent0 = parent as int;
        let mut parent = parent;
        let mut depth = start_depth;
        let mut carry = carry;
        let mut path_index: usize = 0;
        proof {
            lemma_extends_refl(self@);
            assert(ps.take(0) =~= Seq::<Seq<SegView>>::empty());
        }
        let ghost g = identities_distinct(ps) && fact_shaped(ps);
        proof {
            if g {
                lemma_cinv_start(ps, parent0, carry@, offset as int, self@);
                lemma_kinv_start(ps, parent0, carry@, len0 as int, offset as int, self@);
            }
        }
        while path_index < paths.len()
            invariant
                0 <= path_index <= paths.len(),
                self.wf(),
                old(self)@.len() <= self@.len(),
                parent < self@.len(),
                all_wf(paths@),
                depth <= start_depth + path_index,
                start_depth + paths@.len() <= usize::MAX,
                offset + paths@.len() <= usize::MAX,
                carry_in(carry@, self@.len() as int),
                ps == paths_view(paths@),
                c0 ==> carry@ == Map::<usize, Seq<usize>>::empty(),
                c0 ==> leaves_only(ps),
                c0 ==> ps.len() > 0 && !ps[0].last().is_empty && edge_of(old(self)@[parent0], ps[0]) is None,
                c0 ==> extends(old(self)@, self@),
                c0 ==> walk(self@, parent0, ps.take(path_index as int)) == Some(parent as int),
                c0 && path_index == 0 ==> parent == parent0 && self@ == old(self)@,
                c0 && path_index > 0 ==> self@[parent as int].children.len() == 0 && self@[parent as int].lchildren.len() == 0,
                self.added@ == old(self).added@,
                self.leafy@ ==> c0 && labelled(self@, self.labels@, self.added@),
                self.leafy@ ==> self.added@.contains(self.labels@[parent0] + leaf_ids(ps)),
                self.leafy@ == lf,
                0 <= parent0 < old(self)@.len(),
                len0 == old(self)@.len(),
                carry0 == carry@ || path_index > 0,
                path_index == 0 ==> carry@ == carry0 && parent as int == parent0 && self@.len() == len0,
                f0 == (paths@.len() > 0 && !ps[0].last().is_empty && identities_distinct(ps)),
                f0 && path_index > 0 ==> forall|n: int|
                    0 <= n < len0 && (n == parent0 || carried_at(carry0, offset).contains(n as usize)) ==> edge_of(
                        #[trigger] self@[n],
                        ps[0],
                    ) == Some(len0 as usize),
                g == (identities_distinct(ps) && fact_shaped(ps)),
                g ==> cinv(ps, parent0, path_index as int, parent as int, carry@, offset as int, self@),
                g ==> kinv(ps, parent0, path_index as int, carry0, len0 as int, carry@, offset as int, self@),
                forall|n: int, p: Seq<SegView>|
                    0 <= n < old(self)@.len() && !path_keys(ps).contains(path_identity(p)) ==> #[trigger] edge_of(self@[n], p) == edge_of(
                        old(self)@[n],
                        p,
                    ),
            decreases paths.len() - path_index,
        {
            let path = &paths[path_index];
            assert(path.wf());
            assert(ps[path_index as int] == path@);
            let value = path.value();
            proof {
                assert(ps.take(path_index + 1).drop_last() =~= ps.take(path_index as int));
                assert(ps.take(path_index + 1).last() == ps[path_index as int]);
            }
            if value.is_empty {
                proof {
                    if g {
                        lemma_cinv_empty(ps, parent0, path_index as int, parent as int, carry@, offset as int, self@);
                        lemma_kinv_empty(ps, parent0, path_index as int, carry0, len0 as int, carry@, offset as int, self@);
                    }
                }
                path_index = path_index + 1;
                continue;
            }
            let ghost before = self@;
            depth = depth + 1;
            let child_node = FSNode::new(depth);
            let logic_node = value.in_var_range;
            let real_index = path_index + offset;
            let ghost carry_before = carry@;
            let ghost labels_before = self.labels@;
            proof {
                assert(forall|i: int| 0 <= i < self@.len() ==> edges_in(#[trigger] self@[i], i, self@.len() as int));
            }
            let ghost carried_now = carried_at(carry@, real_index);
            let ghost parent_now = parent as int;
            let (child, new_carry) = if logic_node {
                self.intern_lchild(parent, path, child_node, carry, real_index)
            } else {
                self.intern_child(parent, path, child_node, carry, real_index)
            };
            proof {
                let k = path_identity(path@);
                if f0 {
                    if path_index == 0 {
                        assert(parent_now == parent0);
                        assert(child == len0);
                        assert forall|n: int|
                            0 <= n < len0 && (n == parent0 || carried_at(carry0, offset).contains(n as usize)) implies edge_of(
                                #[trigger] self@[n],
                                ps[0],
                            ) == Some(len0 as usize) by {
                            lemma_interned_adds_edge(before, self@, parent_now, carried_now, k, child, logic_node, n, ps[0]);
                        }
                    } else {
                        assert(path_identity(ps[0]) != k) by {
                            reveal(identities_distinct);
                            assert(ps[path_index as int] == path@);
                            assert(!ps[path_index as int].last().is_empty);
                        }
                        assert forall|n: int|
                            0 <= n < len0 && (n == parent0 || carried_at(carry0, offset).contains(n as usize)) implies edge_of(
                                #[trigger] self@[n],
                                ps[0],
                            ) == Some(len0 as usize) by {
                            lemma_interned_keeps_edge(before, self@, parent_now, carried_now, k, child, logic_node, n, ps[0]);
                        }
                    }
                }
            }
            proof {
                if c0 {
                    assert(value@.is_leaf);
                    let k = path_identity(path@);
                    assert(!carry_before.contains_key(real_index));
                    assert(edge_added(before, self@, parent as int, k, child, logic_node));
                    if path_index == 0 {
                        assert(edge_of(before[parent as int], path@) is None);
                    } else {
                        assert(before[parent as int].children =~= Seq::<(Seq<SegView>, usize)>::empty());
                        assert(before[parent as int].lchildren =~= Seq::<(Seq<SegView>, usize)>::empty());
                    }
                    assert(logic_node ==> !edges_map(before[parent as int].lchildren).contains_key(k));
                    assert(!logic_node ==> !edges_map(before[parent as int].children).contains_key(k));
                    lemma_edge_added_extends(before, self@, parent as int, k, child, logic_node);
                    lemma_extends_trans(old(self)@, before, self@);
                    lemma_walk_extends(before, self@, parent0, ps.take(path_index as int));
                    assert(edge_of(self@[parent as int], path@) == Some(child));
                    assert(walk(self@, parent0, ps.take(path_index + 1)) == Some(child as int));
                }
            }
            let ghost l1 = labels_before.push(labels_before[parent as int].push(path_identity(path@)));
            self.labels = Ghost(l1);
            proof {
                if self.leafy@ {
                    let k = path_identity(path@);
                    lemma_walk_label(before, labels_before, self.added@, parent0, ps.take(path_index as int));
                    assert(is_leafy(ps[path_index as int]));
                    assert(leaf_ids(ps.take(path_index + 1)) == leaf_ids(ps.take(path_index as int)).push(k));
                    assert(labels_before[parent as int].push(k) =~= labels_before[parent0] + leaf_ids(ps.take(path_index + 1)));
                    lemma_leaf_ids_take(ps, path_index + 1, labels_before[parent0]);
                    assert(self.added@.contains(labels_before[parent0] + leaf_ids(ps)));
                    assert(labels_before[parent as int].push(k).is_prefix_of(labels_before[parent0] + leaf_ids(ps)));
                    assert(begins_added(labels_before[parent as int].push(k), self.added@));
                    lemma_labelled_edge_added(before, self@, labels_before, self.added@, parent as int, k, child, logic_node);
                    assert(l1[parent0] == labels_before[parent0]);
                }
            }
            let ghost after = self@;
            proof {
                assert forall|n: int, p: Seq<SegView>|
                    0 <= n < old(self)@.len() && !path_keys(ps).contains(path_identity(p)) implies #[trigger] edge_of(self@[n], p) == edge_of(
                        old(self)@[n],
                        p,
                    ) by {
                    assert(path_keys(ps).contains(path_identity(ps[path_index as int])));
                    lemma_interned_keeps_edge(before, after, parent_now, carried_now, path_identity(path@), child, logic_node, n, p);
                    assert(edge_of(before[n], p) == edge_of(old(self)@[n], p));
                }
            }
            carry = new_carry;
            let reindex = path.paths_after(paths) + offset;
            if value.in_var_range && !value.is_leaf {
                carry = carry.add(reindex, child);
                proof {
                    if g {
                        assert(is_compound(ps[path_index as int]));
                        lemma_kinv_step(ps, parent0, path_index as int, parent_now, carry0, len0 as int, carry_before, offset as int, before, after, child, carry@);
                        lemma_cinv_step(ps, parent0, path_index as int, parent_now, carry_before, offset as int, before, after, child, carry@, parent as int);
                    }
                }
                path_index = path_index + 1;
                continue;
            }
            parent = child;
            proof {
                if g {
                    assert(!is_compound(ps[path_index as int]));
                    lemma_kinv_step(ps, parent0, path_index as int, parent_now, carry0, len0 as int, carry_before, offset as int, before, after, child, carry@);
                    lemma_cinv_step(ps, parent0, path_index as int, parent_now, carry_before, offset as int, before, after, child, carry@, parent as int);
                }
            }
            path_index = path_index + 1;
        }
        proof {
            assert(ps.take(paths@.len() as int) =~= ps);
            if g {
                lemma_cinv_end(ps, parent0, parent as int, carry@, offset as int, self@);
                reveal(kinv);
            }
        }
    }

    /// Adds `child` as a new node, reached from `parent`, and from the node carried to
    /// position `index` if there is one, by the non-logical edge for `path`.
    pub fn intern_child(
        &mut self,
        parent: usize,
        path: &MPPath<'a>,
        child: FSNode<'a>,
        carry: CarryOver,
        index: usize,
    ) -> (r: (usize, CarryOver))
        requires
            old(self).wf(),
            parent < old(self)@.len(),
            path.wf(),
            child.wf(),
            child@.children.len() == 0,
            child@.lchildren.len() == 0,
            carry_in(carry@, old(self)@.len() as int),
        ensures
            final(self).wf(),
            r.0 == old(self)@.len(),
            final(self)@.len() == old(self)@.len() + 1,
            r.1@ == carry@.remove(index),
            carry_in(r.1@, final(self)@.len() as int),
            final(self)@[r.0 as int].children.len() == 0,
            final(self)@[r.0 as int].lchildren.len() == 0,
            !carry@.contains_key(index) ==> edge_added(old(self)@, final(self)@, parent as int, path_identity(path@), r.0, false),
            interned(old(self)@, final(self)@, parent as int, carried_at(carry@, index), path_identity(path@), r.0, false),
            final(self)@[r.0 as int] == child@,
            final(self).ghosts() == old(self).ghosts(),
    {
        self.intern_edge(parent, path, child, carry, index, false)
    }

    /// Adds `child` as a new node, reached from `parent`, and from the node carried to
    /// position `index` if there is one, by the logical edge for `path`.
    pub fn intern_lchild(
        &mut self,
        parent: usize,
        path: &MPPath<'a>,
        child: FSNode<'a>,
        carry: CarryOver,
        index: usize,
    ) -> (r: (usize, CarryOver))
        requires
            old(self).wf(),
            parent < old(self)@.len(),
            path.wf(),
            child.wf(),
            child@.children.len() == 0,
            child@.lchildren.len() == 0,
            carry_in(carry@, old(self)@.len() as int),
        ensures
            final(self).wf(),
            r.0 == old(self)@.len(),
            final(self)@.len() == old(self)@.len() + 1,
            r.1@ == carry@.remove(index),
            carry_in(r.1@, final(self)@.len() as int),
            final(self)@[r.0 as int].children.len() == 0,
            final(self)@[r.0 as int].lchildren.len() == 0,
            !carry@.contains_key(index) ==> edge_added(old(self)@, final(self)@, parent as int, path_identity(path@), r.0, true),
            interned(old(self)@, final(self)@, parent as int, carried_at(carry@, index), path_identity(path@), r.0, true),
            final(self)@[r.0 as int] == child@,
            final(self).ghosts() == old(self).ghosts(),
    {
        self.intern_edge(parent, path, child, carry, index, true)
    }

    fn intern_edge(
        &mut self,
        parent: usize,
        path: &MPPath<'a>,
        child: FSNode<'a>,
        carry: CarryOver,
        index: usize,
        logical: bool,
    ) -> (r: (usize, CarryOver))
        requires
            old(self).wf(),
            parent < old(self)@.len(),
            path.wf(),
            child.wf(),
            child@.children.len() == 0,
            child@.lchildren.len() == 0,
            carry_in(carry@, old(self)@.len() as int),
        ensures
            final(self).wf(),
            r.0 == old(self)@.len(),
            final(self)@.len() == old(self)@.len() + 1,
            r.1@ == carry@.remove(index),
            carry_in(r.1@, final(self)@.len() as int),
            final(self)@[r.0 as int].children.len() == 0,
            final(self)@[r.0 as int].lchildren.len() == 0,
            !carry@.contains_key(index) ==> edge_added(old(self)@, final(self)@, parent as int, path_identity(path@), r.0, logical),
            interned(old(self)@, final(self)@, parent as int, carried_at(carry@, index), path_identity(path@), r.0, logical),
            final(self)@[r.0 as int] == child@,
            final(self).ghosts() == old(self).ghosts(),
    {
        let child_ref = self.nodes.len();
        self.nodes.push(child);
        proof {
            assert forall|i: int| 0 <= i < self.nodes@.len() implies (#[trigger] self.nodes@[i]).wf() by {
                if i < child_ref {
                    assert(self.nodes@[i] == old(self).nodes@[i]);
                }
            }
            assert forall|i: int| 0 <= i < self.nodes@.len() implies edges_in(#[trigger] self@[i], i, self@.len() as int) by {
                if i < child_ref {
                    assert(self@[i] == old(self)@[i]);
                    assert(edges_in(old(self)@[i], i, old(self)@.len() as int));
                } else {
                    assert(self@[i] == child@);
                }
            }
        }
        let ghost pushed = self@;
        assert(pushed == old(self)@.push(child@));
        let (new_carry, more) = carry.node(index);
        let mut t: usize = 0;
        while t < more.len()
            invariant
                self.ghosts() == old(self).ghosts(),
                0 <= t <= more@.len(),
                self.wf(),
                self@.len() == old(self)@.len() + 1,
                child_ref == old(self)@.len(),
                parent < child_ref,
                path.wf(),
                self@[child_ref as int] == child@,
                more@ == (if carry@.contains_key(index) { carry@[index] } else { Seq::<usize>::empty() }),
                forall|i: int| 0 <= i < more@.len() ==> more@[i] < child_ref,
                more@.len() == 0 ==> self@ == pushed,
                pushed == old(self)@.push(child@),
                forall|i: int| 0 <= i < old(self)@.len() && more@.take(t as int).contains(i as usize) ==> edges_of(#[trigger] self@[i], logical) == edges_of(pushed[i], logical).insert(path_identity(path@), child_ref),
                forall|i: int| 0 <= i < old(self)@.len() && !more@.take(t as int).contains(i as usize) ==> #[trigger] self@[i] == pushed[i],
                forall|i: int| 0 <= i < old(self)@.len() ==> other_edges(#[trigger] self@[i], logical) == other_edges(pushed[i], logical),
            decreases more@.len() - t,
        {
            let m = more[t];
            let ghost s0 = self@;
            self.add_edge(m, path, child_ref, logical);
            proof {
                let k = path_identity(path@);
                assert(more@.take(t + 1) =~= more@.take(t as int).push(m));
                assert forall|i: int| 0 <= i < old(self)@.len() && more@.take(t + 1).contains(i as usize) implies edges_of(#[trigger] self@[i], logical) == edges_of(pushed[i], logical).insert(k, child_ref) by {
                    if i == m as int {
                        if more@.take(t as int).contains(i as usize) {
                            assert(edges_of(self@[i], logical) =~= edges_of(pushed[i], logical).insert(k, child_ref));
                        } else {
                            assert(s0[i] == pushed[i]);
                        }
                    } else {
                        assert(self@[i] == s0[i]);
                        assert(more@.take(t as int).contains(i as usize)) by {
                            let w = choose|w: int| 0 <= w < more@.take(t + 1).len() && #[trigger] more@.take(t + 1)[w] == i as usize;
                            assert(w < t);
                            assert(more@.take(t as int)[w] == i as usize);
                        }
                    }
                }
                assert forall|i: int| 0 <= i < old(self)@.len() && !more@.take(t + 1).contains(i as usize) implies #[trigger] self@[i] == pushed[i] by {
                    assert(i != m as int) by {
                        if i == m as int {
                            assert(more@.take(t + 1)[t as int] == m);
                        }
                    }
                    assert(!more@.take(t as int).contains(i as usize)) by {
                        if more@.take(t as int).contains(i as usize) {
                            let w = choose|w: int| 0 <= w < more@.take(t as int).len() && #[trigger] more@.take(t as int)[w] == i as usize;
                            assert(more@.take(t + 1)[w] == i as usize);
                        }
                    }
                    assert(self@[i] == s0[i]);
                }
                assert forall|i: int| 0 <= i < old(self)@.len() implies other_edges(#[trigger] self@[i], logical) == other_edges(pushed[i], logical) by {
                    if i != m as int {
                        assert(self@[i] == s0[i]);
                    }
                }
            }
            t = t + 1;
        }
        let ghost before = self@;
        self.add_edge(parent, path, child_ref, logical);
        proof {
            let k = path_identity(path@);
            let cs = carried_at(carry@, index);
            assert(more@.take(more@.len() as int) =~= more@);
            assert(cs == more@);
            assert forall|i: int| 0 <= i < old(self)@.len() && (i == parent || cs.contains(i as usize)) implies edges_of(#[trigger] self@[i], logical) == edges_of(old(self)@[i], logical).insert(k, child_ref) by {
                assert(pushed[i] == old(self)@[i]);
                if i == parent {
                    if cs.contains(i as usize) {
                        assert(edges_of(self@[i], logical) =~= edges_of(old(self)@[i], logical).insert(k, child_ref));
                    } else {
                        assert(before[i] == pushed[i]);
                    }
                } else {
                    assert(self@[i] == before[i]);
                }
            }
            assert forall|i: int| 0 <= i < old(self)@.len() && !(i == parent || cs.contains(i as usize)) implies #[trigger] self@[i] == old(self)@[i] by {
                assert(self@[i] == before[i]);
                assert(pushed[i] == old(self)@[i]);
            }
            assert forall|i: int| 0 <= i < old(self)@.len() implies other_edges(#[trigger] self@[i], logical) == other_edges(old(self)@[i], logical) by {
                assert(pushed[i] == old(self)@[i]);
                if i != parent {
                    assert(self@[i] == before[i]);
                }
            }
            assert(self@[child_ref as int] == before[child_ref as int]);
            if !carry@.contains_key(index) {
                assert(before == pushed);
                assert forall|i: int| 0 <= i < old(self)@.len() && i != parent implies #[trigger] self@[i] == old(self)@[i] by {
                    assert(self@[i] == pushed[i]);
                }
            }
        }
        (child_ref, new_carry)
    }

    /// Makes the edge for `path` out of node `from` lead to node `to`, a later node.
    fn add_edge(&mut self, from: usize, path: &MPPath<'a>, to: usize, logical: bool)
        requires
            old(self).wf(),
            from < to < old(self)@.len(),
            path.wf(),
        ensures
            final(self).wf(),
            final(self)@.len() == old(self)@.len(),
            forall|i: int| 0 <= i < final(self)@.len() && i != from ==> final(self)@[i] == old(self)@[i],
            logical ==> edges_map(final(self)@[from as int].lchildren) == edges_map(old(self)@[from as int].lchildren).insert(path_identity(path@), to)
                && final(self)@[from as int].children == old(self)@[from as int].children,
            !logical ==> edges_map(final(self)@[from as int].children) == edges_map(old(self)@[from as int].children).insert(path_identity(path@), to)
                && final(self)@[from as int].lchildren == old(self)@[from as int].lchildren,
            final(self).ghosts() == old(self).ghosts(),
    {
        let mut node = FSNode::new(1);
        std::mem::swap(&mut node, &mut self.nodes[from]);
        let ghost pv = path@;
        let ghost nv0 = node@;
        assert(node == old(self).nodes@[from as int]);
        assert(nv0 == old(self)@[from as int]);
        assert(old(self).nodes@[from as int].wf());
        assert(node.wf());
        if logical {
            node.lchildren.insert(path.duplicate(), to);
        } else {
            node.children.insert(path.duplicate(), to);
        }
        proof {
            assert(edges_in(nv0, from as int, self@.len() as int));
            assert(edges_in(node@, from as int, self@.len() as int)) by {
                assert forall|i: int| 0 <= i < node@.children.len() implies from < (#[trigger] node@.children[i]).1 && node@.children[i].1 < self@.len() by {
                    if i < nv0.children.len() {
                        assert(node@.children[i].1 == nv0.children[i].1 || node@.children[i].1 == to);
                    }
                }
                assert forall|i: int| 0 <= i < node@.lchildren.len() implies from < (#[trigger] node@.lchildren[i]).1 && node@.lchildren[i].1 < self@.len() by {
                    if i < nv0.lchildren.len() {
                        assert(node@.lchildren[i].1 == nv0.lchildren[i].1 || node@.lchildren[i].1 == to);
                    }
                }
            }
        }
        let ghost nvf = node@;
        self.nodes.set(from, node);
        proof {
            assert(self@[from as int] == nvf);
            assert forall|i: int| 0 <= i < self@.len() && i != from implies self@[i] == old(self)@[i] by {
                assert(self.nodes@[i] == old(self).nodes@[i]);
            }
            assert forall|i: int| 0 <= i < self.nodes@.len() implies (#[trigger] self.nodes@[i]).wf() by {
                if i != from {
                    assert(self.nodes@[i] == old(self).nodes@[i]);
                }
            }
            assert forall|i: int| 0 <= i < self.nodes@.len() implies edges_in(#[trigger] self@[i], i, self@.len() as int) by {
                if i != from {
                    assert(self@[i] == old(self)@[i]);
                    assert(edges_in(old(self)@[i], i, old(self)@.len() as int));
                }
            }
        }
    }
}
} // verus!
