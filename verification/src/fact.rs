//! Facts: sentences of the knowledge grammar, each held as the list of the paths of its parse
//! tree, and the store where facts are interned by their text.
use vstd::prelude::*;

use crate::lexicon::leak;
use crate::path::{all_wf, paths_view, MPPath};
use crate::segment::SegView;
use crate::text::str_eq;

verus! {

/// The texts of the leaf values of the paths, one after the other: the text of the fact
/// they make up, without the white space that the grammar skips.
pub open spec fn leaf_text(ps: Seq<Seq<SegView>>) -> Seq<char>
    decreases ps.len(),
{
    if ps.len() == 0 {
        Seq::empty()
    } else {
        leaf_text(ps.drop_last()) + (if ps.last().last().is_leaf {
            ps.last().last().text
        } else {
            Seq::empty()
        })
    }
}

#[derive(Debug)]
pub struct Fact<'a> {
    pub text: String,
    pub paths: Vec<MPPath<'a>>,
}

impl<'a> Fact<'a> {
    /// A fact with the given text and paths.
    pub fn new(text: String, paths: Vec<MPPath<'a>>) -> (r: Fact<'a>)
        ensures
            r.text == text,
            r.paths == paths,
    {
        Fact { text, paths }
    }

    /// The fact's paths are all well formed.
    pub open spec fn wf(&self) -> bool {
        all_wf(self.paths@)
    }

    /// The fact shown as its text.
    pub fn to_display_string(&self) -> (r: String)
        ensures
            r@ == self.text@,
    {
        self.text.clone()
    }
}

impl<'a> PartialEq for Fact<'a> {
    fn eq(&self, other: &Self) -> (r: bool) {
        self.text == other.text
    }
}

impl<'a> vstd::std_specs::cmp::PartialEqSpecImpl for Fact<'a> {
    open spec fn obeys_eq_spec() -> bool {
        true
    }

    open spec fn eq_spec(&self, other: &Self) -> bool {
        self.text@ == other.text@
    }
}

impl<'a> Eq for Fact<'a> {

}

/// The store of facts, each interned once by its text.
pub struct FLexicon<'a> {
    facts: Vec<&'a Fact<'a>>,
}

impl<'a> FLexicon<'a> {
    /// The texts of the interned facts.
    pub closed spec fn texts(&self) -> Seq<Seq<char>> {
        self.facts@.map_values(|f: &'a Fact<'a>| f.text@)
    }

    /// Every interned fact is well formed and no two share a text.
    pub closed spec fn wf(&self) -> bool {
        &&& forall|i: int| 0 <= i < self.facts@.len() ==> (#[trigger] self.facts@[i]).wf()
        &&& forall|i: int, j: int|
            0 <= i < self.facts@.len() && 0 <= j < self.facts@.len() && i != j ==> (
            #[trigger] self.texts()[i]) != (#[trigger] self.texts()[j])
    }

    /// An empty store.
    pub fn new() -> (r: FLexicon<'a>)
        ensures
            r.wf(),
            r.texts() == Seq::<Seq<char>>::empty(),
    {
        let r = FLexicon { facts: Vec::new() };
        assert(r.texts() =~= Seq::<Seq<char>>::empty());
        r
    }

    /// The fact with the given text: the one interned before, where there is one, else a new
    /// one made of `text` and `paths`.
    pub fn from_paths_and_string(&mut self, text: String, paths: Vec<MPPath<'a>>) -> (r: &'a Fact<'a>)
        requires
            old(self).wf(),
            all_wf(paths@),
        ensures
            final(self).wf(),
            r.wf(),
            r.text@ == text@,
            old(self).texts().contains(text@) ==> final(self).texts() == old(self).texts(),
            !old(self).texts().contains(text@) ==> final(self).texts() == old(self).texts().push(
                text@,
            ) && r.paths@ == paths@,
    {
        let mut i: usize = 0;
        while i < self.facts.len()
            invariant
                0 <= i <= self.facts.len(),
                self.wf(),
                forall|j: int| 0 <= j < i ==> (#[trigger] self.texts()[j]) != text@,
            decreases self.facts.len() - i,
        {
            let f = self.facts[i];
            assert(self.texts()[i as int] == f.text@);
            if str_eq(f.text.as_str(), text.as_str()) {
                assert(self.facts@[i as int].wf());
                return f;
            }
            i = i + 1;
        }
        assert(!self.texts().contains(text@));
        let r: &'a Fact<'a> = leak(Box::new(Fact::new(text, paths)));
        let ghost before = self.texts();
        self.facts.push(r);
        proof {
            assert(self.texts() =~= before.push(text@));
            assert(self.facts@[before.len() as int] == r);
        }
        r
    }

    /// The fact made of the given paths, whose text is that of their leaf values one after
    /// the other; interned as `from_paths_and_string` does.
    pub fn from_paths(&mut self, paths: Vec<MPPath<'a>>) -> (r: &'a Fact<'a>)
        requires
            old(self).wf(),
            all_wf(paths@),
        ensures
            final(self).wf(),
            r.wf(),
            r.text@ == leaf_text(paths_view(paths@)),
            !old(self).texts().contains(r.text@) ==> r.paths@ == paths@,
    {
        let mut text = String::new();
        let mut i: usize = 0;
        while i < paths.len()
            invariant
                0 <= i <= paths.len(),
                all_wf(paths@),
                text@ == leaf_text(paths_view(paths@).take(i as int)),
            decreases paths.len() - i,
        {
            let path = &paths[i];
            assert(path.wf());
            proof {
                let pv = paths_view(paths@);
                assert(pv.take(i + 1).drop_last() =~= pv.take(i as int));
                assert(pv.take(i + 1).last() == path@);
            }
            let value = path.value();
            if value.is_leaf {
                text.append(value.text.as_str());
            }
            i = i + 1;
        }
        proof {
            assert(paths_view(paths@).take(paths@.len() as int) =~= paths_view(paths@));
        }
        self.from_paths_and_string(text, paths)
    }
}

} // verus!
