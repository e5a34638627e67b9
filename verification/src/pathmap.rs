//! Maps from paths to node numbers, keyed by path identity: the edges out of a node of the
//! fact and rule trees.
use vstd::prelude::*;

use crate::path::{path_identity, MPPath};
use crate::segment::SegView;

verus! {

/// Some position of `es` whose path has identity `k`.
pub open spec fn path_index(es: Seq<(Seq<SegView>, usize)>, k: Seq<char>) -> int {
    choose|i: int| 0 <= i < es.len() && path_identity(es[i].0) == k
}

/// `es` holds no two paths with the same identity.
pub open spec fn identities_distinct(es: Seq<(Seq<SegView>, usize)>) -> bool {
    forall|i: int, j: int|
        0 <= i < es.len() && 0 <= j < es.len() && i != j ==> path_identity(#[trigger] es[i].0)
            != path_identity(#[trigger] es[j].0)
}

/// The map from identities to node numbers that a list of entries with distinct identities
/// stands for.
pub open spec fn edges_map(es: Seq<(Seq<SegView>, usize)>) -> Map<Seq<char>, usize> {
    Map::new(
        |k: Seq<char>| exists|i: int| 0 <= i < es.len() && path_identity(es[i].0) == k,
        |k: Seq<char>| es[path_index(es, k)].1,
    )
}

pub proof fn lemma_path_index(es: Seq<(Seq<SegView>, usize)>, i: int)
    requires
        identities_distinct(es),
        0 <= i < es.len(),
    ensures
        path_index(es, path_identity(es[i].0)) == i,
{
    let k = path_identity(es[i].0);
    assert(0 <= i < es.len() && path_identity(es[i].0) == k);
    let j = path_index(es, k);
    assert(path_identity(es[j].0) == k);
}

/// Edges to node numbers, keyed by path; a path's entry keeps the path first inserted under
/// its identity, and entries keep the order of their first insertion.
#[derive(Debug)]
pub struct PathMap<'a> {
    entries: Vec<(MPPath<'a>, usize)>,
}

impl<'a> View for PathMap<'a> {
    type V = Map<Seq<char>, usize>;

    open spec fn view(&self) -> Map<Seq<char>, usize> {
        edges_map(self.entries())
    }
}

impl<'a> PathMap<'a> {
    /// The entries as plain values, in order.
    pub closed spec fn entries(&self) -> Seq<(Seq<SegView>, usize)> {
        self.entries@.map_values(|e: (MPPath<'a>, usize)| (e.0@, e.1))
    }

    /// Every path is well formed and no two share an identity.
    pub closed spec fn wf(&self) -> bool {
        &&& forall|i: int| 0 <= i < self.entries@.len() ==> (#[trigger] self.entries@[i]).0.wf()
        &&& identities_distinct(self.entries())
    }

    /// No edges.
    pub fn new() -> (r: PathMap<'a>)
        ensures
            r.wf(),
            r.entries() == Seq::<(Seq<SegView>, usize)>::empty(),
            r@ == Map::<Seq<char>, usize>::empty(),
    {
        let r = PathMap { entries: Vec::new() };
        assert(r.entries() =~= Seq::<(Seq<SegView>, usize)>::empty());
        assert(r@ =~= Map::<Seq<char>, usize>::empty());
        r
    }

    /// The number of edges.
    pub fn len(&self) -> (r: usize)
        ensures
            r == self.entries().len(),
    {
        self.entries.len()
    }

    /// The `i`-th edge: its path and its node.
    pub fn entry(&self, i: usize) -> (r: (&MPPath<'a>, usize))
        requires
            self.wf(),
            i < self.entries().len(),
        ensures
            r.0.wf(),
            (r.0@, r.1) == self.entries()[i as int],
    {
        let e = &self.entries[i];
        (&e.0, e.1)
    }

    /// The position of the edge whose path has the identity of `path`, if any.
    fn find(&self, path: &MPPath) -> (r: Option<usize>)
        requires
            self.wf(),
            path.wf(),
        ensures
            match r {
                Some(i) => i < self.entries().len() && path_identity(self.entries()[i as int].0)
                    == path_identity(path@),
                None => !self@.contains_key(path_identity(path@)),
            },
    {
        let mut i: usize = 0;
        while i < self.entries.len()
            invariant
                0 <= i <= self.entries.len(),
                self.wf(),
                path.wf(),
                forall|j: int|
                    0 <= j < i ==> path_identity(#[trigger] self.entries()[j].0) != path_identity(
                        path@,
                    ),
            decreases self.entries.len() - i,
        {
            let e = &self.entries[i];
            assert(e.0.wf());
            assert(self.entries()[i as int].0 == e.0@);
            if e.0 == *path {
                return Some(i);
            }
            i = i + 1;
        }
        None
    }

    /// The node that the edge keyed by the identity of `path` leads to, if any.
    pub fn get(&self, path: &MPPath) -> (r: Option<usize>)
        requires
            self.wf(),
            path.wf(),
        ensures
            r == (if self@.contains_key(path_identity(path@)) {
                Some(self@[path_identity(path@)])
            } else {
                None::<usize>
            }),
    {
        match self.find(path) {
            Some(i) => {
                proof {
                    lemma_path_index(self.entries(), i as int);
                }
                Some(self.entries[i].1)
            },
            None => None,
        }
    }

    /// Makes the edge keyed by the identity of `path` lead to `node`; an edge already there
    /// keeps its place and its path.
    pub fn insert(&mut self, path: MPPath<'a>, node: usize)
        requires
            old(self).wf(),
            path.wf(),
        ensures
            final(self).wf(),
            final(self)@ == old(self)@.insert(path_identity(path@), node),
            old(self)@.contains_key(path_identity(path@)) ==> final(self).entries().len() == old(
                self,
            ).entries().len() && exists|i: int|
                0 <= i < old(self).entries().len() && path_identity(old(self).entries()[i].0)
                    == path_identity(path@) && final(self).entries() == old(self).entries().update(
                    i,
                    (old(self).entries()[i].0, node),
                ),
            !old(self)@.contains_key(path_identity(path@)) ==> final(self).entries() == old(
                self,
            ).entries().push((path@, node)),
    {
        let ghost es0 = self.entries();
        let ghost pv = path@;
        match self.find(&path) {
            Some(i) => {
                let ghost kept = es0[i as int].0;
                self.entries[i].1 = node;
                proof {
                    let es = self.entries();
                    assert(es =~= es0.update(i as int, (kept, node)));
                    assert forall|a: int| 0 <= a < self.entries@.len() implies (
                    #[trigger] self.entries@[a]).0.wf() by {
                        assert(self.entries@[a].0 == old(self).entries@[a].0);
                    }
                    assert forall|a: int, b: int|
                        0 <= a < es.len() && 0 <= b < es.len() && a != b implies path_identity(
                        #[trigger] es[a].0,
                    ) != path_identity(#[trigger] es[b].0) by {
                        assert(es[a].0 == es0[a].0);
                        assert(es[b].0 == es0[b].0);
                    }
                    assert forall|kk: Seq<char>| #[trigger] self@.contains_key(kk) implies old(
                        self,
                    )@.insert(path_identity(pv), node).contains_key(kk) && self@[kk] == old(
                        self,
                    )@.insert(path_identity(pv), node)[kk] by {
                        let j = path_index(es, kk);
                        assert(path_identity(es0[j].0) == kk);
                        lemma_path_index(es, j);
                        lemma_path_index(es0, j);
                    }
                    assert forall|kk: Seq<char>| #[trigger] old(self)@.insert(
                        path_identity(pv),
                        node,
                    ).contains_key(kk) implies self@.contains_key(kk) by {
                        if kk != path_identity(pv) {
                            let j = path_index(es0, kk);
                            assert(path_identity(es[j].0) == kk);
                        } else {
                            assert(path_identity(es[i as int].0) == kk);
                        }
                    }
                    assert(self@ =~= old(self)@.insert(path_identity(pv), node));
                }
            },
            None => {
                self.entries.push((path, node));
                proof {
                    let es = self.entries();
                    assert(es =~= es0.push((pv, node)));
                    let n = es0.len() as int;
                    assert forall|a: int| 0 <= a < self.entries@.len() implies (
                    #[trigger] self.entries@[a]).0.wf() by {
                        if a < n {
                            assert(self.entries@[a].0 == old(self).entries@[a].0);
                        }
                    }
                    assert forall|kk: Seq<char>| #[trigger] self@.contains_key(kk) implies old(
                        self,
                    )@.insert(path_identity(pv), node).contains_key(kk) && self@[kk] == old(
                        self,
                    )@.insert(path_identity(pv), node)[kk] by {
                        let j = path_index(es, kk);
                        lemma_path_index(es, j);
                        if j < n {
                            lemma_path_index(es0, j);
                            assert(path_identity(es0[j].0) == kk);
                        }
                    }
                    assert forall|kk: Seq<char>| #[trigger] old(self)@.insert(
                        path_identity(pv),
                        node,
                    ).contains_key(kk) implies self@.contains_key(kk) by {
                        if kk != path_identity(pv) {
                            let j = path_index(es0, kk);
                            assert(path_identity(es[j].0) == kk);
                        } else {
                            assert(path_identity(es[n].0) == kk);
                        }
                    }
                    assert(self@ =~= old(self)@.insert(path_identity(pv), node));
                }
            },
        }
    }
}

} // verus!
