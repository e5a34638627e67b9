//! Paths: the chains of segments from the root of a fact's parse tree down to one of its
//! nodes. A fact is the list of its paths.
use vstd::prelude::*;

use crate::matching::{get_or_key, get_or_key_owning, subst_seg, MPMatching, SegKey};
use crate::segment::{seg_key, MPSegment, SegView};

verus! {

/// The segments of a list of segment references, as plain values.
pub open spec fn segs_view(s: Seq<&MPSegment>) -> Seq<SegView> {
    s.map_values(|x: &MPSegment| x@)
}

/// The names of the segments, one after the other.
pub open spec fn names_concat(s: Seq<SegView>) -> Seq<char>
    decreases s.len(),
{
    if s.len() == 0 {
        Seq::empty()
    } else {
        names_concat(s.drop_last()) + s.last().name
    }
}

/// The identity of a path, by which paths compare equal: the names of all its segments
/// followed by the text of its last segment.
pub open spec fn path_identity(s: Seq<SegView>) -> Seq<char> {
    names_concat(s) + s.last().text
}

/// `p` starts with the segments of `q`, compared by name and text.
pub open spec fn seq_starts_with(p: Seq<SegView>, q: Seq<SegView>) -> bool {
    &&& q.len() <= p.len()
    &&& forall|i: int| 0 <= i < q.len() ==> seg_key(#[trigger] p[i]) == seg_key(q[i])
}

/// Where the search of `paths_after` ends: past the first run of paths that start with
/// `p`; paths whose value is empty are passed over.
pub open spec fn paths_after_from(p: Seq<SegView>, ps: Seq<Seq<SegView>>, i: int, seen: bool) -> int
    decreases ps.len() - i,
{
    if i >= ps.len() || i < 0 {
        ps.len() as int
    } else if ps[i].last().is_empty {
        paths_after_from(p, ps, i + 1, seen)
    } else if seq_starts_with(ps[i], p) {
        paths_after_from(p, ps, i + 1, true)
    } else if seen {
        i
    } else {
        paths_after_from(p, ps, i + 1, seen)
    }
}

/// The position of the first path from `i` on whose value is a non-empty leaf that does not
/// start with `s`, or the length of `ps` where there is none.
pub open spec fn after_slice_index(ps: Seq<Seq<SegView>>, s: Seq<SegView>, i: int) -> int
    decreases ps.len() - i,
{
    if i >= ps.len() || i < 0 {
        ps.len() as int
    } else if is_leafy(ps[i]) && !seq_starts_with(ps[i], s) {
        i
    } else {
        after_slice_index(ps, s, i + 1)
    }
}

/// The paths left once those at the start that begin with `s`, and those on the way whose
/// value is empty or not a leaf, are passed over.
pub open spec fn after_slice(ps: Seq<Seq<SegView>>, s: Seq<SegView>) -> Seq<Seq<SegView>> {
    let i = after_slice_index(ps, s, 0);
    if 0 <= i <= ps.len() {
        ps.subrange(i, ps.len() as int)
    } else {
        ps
    }
}

/// A path whose value is a non-empty leaf.
pub open spec fn is_leafy(p: Seq<SegView>) -> bool {
    !p.last().is_empty && p.last().is_leaf
}

/// The position of the first segment that `m` replaces by a segment of another identity,
/// or the length of `s` where there is none.
pub open spec fn first_change(m: Map<SegKey, SegView>, s: Seq<SegView>, i: int) -> int
    decreases s.len() - i,
{
    if i >= s.len() || i < 0 {
        s.len() as int
    } else if seg_key(subst_seg(m, s[i])) != seg_key(s[i]) {
        i
    } else {
        first_change(m, s, i + 1)
    }
}

/// The first `n` segments of `s`, each replaced by its value in `m`.
pub open spec fn subst_prefix(m: Map<SegKey, SegView>, s: Seq<SegView>, n: int) -> Seq<SegView> {
    s.take(n).map_values(|x: SegView| subst_seg(m, x))
}

/// What `substitute` gives: the path up to and including its first segment that the matching
/// changes, with the matching applied, and that same stretch of the path as it was; or, where
/// the matching changes nothing, the whole path with the matching applied and nothing more.
pub open spec fn substituted(m: Map<SegKey, SegView>, s: Seq<SegView>) -> (Seq<SegView>, Option<Seq<SegView>>) {
    let k = first_change(m, s, 0);
    if k < s.len() {
        (subst_prefix(m, s, k + 1), Some(s.take(k + 1)))
    } else {
        (subst_prefix(m, s, s.len() as int), None)
    }
}

/// What `substitute_paths` gives for the paths from `i` on, where `olds` holds the stretches
/// already replaced: a path that extends one of them is dropped; a path the matching changes
/// gives its changed stretch; an unchanged path is kept where it ends in a leaf.
pub open spec fn substituted_paths(
    m: Map<SegKey, SegView>,
    ps: Seq<Seq<SegView>>,
    i: int,
    olds: Seq<Seq<SegView>>,
) -> Seq<Seq<SegView>>
    decreases ps.len() - i,
{
    if i >= ps.len() || i < 0 {
        Seq::empty()
    } else if exists|j: int|
        0 <= j < olds.len() && ps[i].len() > olds[j].len() && seq_starts_with(ps[i], #[trigger] olds[j]) {
        substituted_paths(m, ps, i + 1, olds)
    } else {
        let (np, op) = substituted(m, ps[i]);
        if op is Some {
            seq![np] + substituted_paths(m, ps, i + 1, olds.push(op->0))
        } else if np.last().is_leaf {
            seq![np] + substituted_paths(m, ps, i + 1, olds)
        } else {
            substituted_paths(m, ps, i + 1, olds)
        }
    }
}

/// Every path starts with itself.
pub proof fn lemma_starts_with_self(p: Seq<SegView>)
    ensures
        seq_starts_with(p, p),
{
}

proof fn lemma_first_change_empty(s: Seq<SegView>, i: int)
    requires
        0 <= i,
    ensures
        first_change(Map::empty(), s, i) == s.len(),
    decreases s.len() - i,
{
    if i < s.len() {
        lemma_first_change_empty(s, i + 1);
    }
}

/// The empty matching changes no path: substituting with it gives the path back and reports
/// no changed stretch.
pub proof fn lemma_substitute_empty(s: Seq<SegView>)
    ensures
        substituted(Map::empty(), s) == (s, None::<Seq<SegView>>),
{
    lemma_first_change_empty(s, 0);
    assert(subst_prefix(Map::empty(), s, s.len() as int) =~= s);
}

#[derive(Debug)]
pub struct MPPath<'a> {
    pub value: &'a MPSegment,
    pub segments: Vec<&'a MPSegment>,
    identity: String,
}

impl<'a> View for MPPath<'a> {
    type V = Seq<SegView>;

    closed spec fn view(&self) -> Seq<SegView> {
        segs_view(self.segments@)
    }
}

/// The paths of a list, as plain values.
pub open spec fn paths_view(ps: Seq<MPPath>) -> Seq<Seq<SegView>> {
    ps.map_values(|p: MPPath| p@)
}

/// Every path of the list is well formed.
pub open spec fn all_wf(ps: Seq<MPPath>) -> bool {
    forall|i: int| 0 <= i < ps.len() ==> (#[trigger] ps[i]).wf()
}

impl<'a> MPPath<'a> {
    /// The identity string that the path keeps.
    pub closed spec fn identity_view(&self) -> Seq<char> {
        self.identity@
    }

    /// The value segment that the path keeps.
    pub closed spec fn value_view(&self) -> SegView {
        self.value@
    }

    /// The path has segments, its value is its last segment, and its identity is that of its
    /// segments.
    pub open spec fn wf(&self) -> bool {
        &&& self@.len() > 0
        &&& self.value_view() == self@.last()
        &&& self.identity_view() == path_identity(self@)
    }

    /// Builds the path of the given segments, which must be at least one; its value is the
    /// last of them.
    pub fn new(segments: Vec<&'a MPSegment>) -> (r: MPPath<'a>)
        requires
            segments@.len() > 0,
        ensures
            r.wf(),
            r@ == segs_view(segments@),
    {
        let value = segments[segments.len() - 1];
        let mut identity = String::new();
        let mut i: usize = 0;
        while i < segments.len()
            invariant
                0 <= i <= segments.len(),
                identity@ == names_concat(segs_view(segments@).take(i as int)),
            decreases segments.len() - i,
        {
            identity.append(segments[i].name.as_str());
            proof {
                let sv = segs_view(segments@);
                assert(sv.take(i + 1).drop_last() =~= sv.take(i as int));
            }
            i = i + 1;
        }
        identity.append(value.text.as_str());
        proof {
            assert(segs_view(segments@).take(segments@.len() as int) =~= segs_view(segments@));
        }
        MPPath { value, segments, identity }
    }

    /// The number of segments.
    pub fn len(&self) -> (r: usize)
        ensures
            r == self@.len(),
    {
        self.segments.len()
    }

    /// The value segment: the last one of a well formed path.
    pub fn value(&self) -> (r: &'a MPSegment)
        ensures
            r@ == self.value_view(),
    {
        self.value
    }

    /// The `i`-th segment.
    pub fn segment(&self, i: usize) -> (r: &'a MPSegment)
        requires
            i < self@.len(),
        ensures
            r@ == self@[i as int],
    {
        self.segments[i]
    }

    /// Whether the path begins with the segments of `path`.
    pub fn starts_with(&self, path: &MPPath) -> (r: bool)
        ensures
            r == seq_starts_with(self@, path@),
    {
        let lself = self.len();
        let lpath = path.len();
        if lself < lpath {
            return false;
        }
        let mut i: usize = 0;
        while i < lpath
            invariant
                0 <= i <= lpath,
                lpath == path@.len(),
                lpath <= lself,
                lself == self@.len(),
                forall|j: int| 0 <= j < i ==> seg_key(#[trigger] self@[j]) == seg_key(path@[j]),
            decreases lpath - i,
        {
            assert(self@[i as int] == self.segments@[i as int]@);
            assert(path@[i as int] == path.segments@[i as int]@);
            if !self.segments[i].same(path.segments[i]) {
                assert(seg_key(self@[i as int]) != seg_key(path@[i as int]));
                return false;
            }
            i = i + 1;
        }
        true
    }

    /// Whether the path begins with the segments of a slice.
    pub fn starts_with_slice(&self, path_slice: &[&MPSegment]) -> (r: bool)
        ensures
            r == seq_starts_with(self@, segs_view(path_slice@)),
    {
        let lself = self.len();
        let lpath = path_slice.len();
        if lself < lpath {
            return false;
        }
        let mut i: usize = 0;
        while i < lpath
            invariant
                0 <= i <= lpath,
                lpath == path_slice@.len(),
                lpath <= lself,
                lself == self@.len(),
                forall|j: int| 0 <= j < i ==> seg_key(#[trigger] self@[j]) == seg_key(segs_view(path_slice@)[j]),
            decreases lpath - i,
        {
            assert(self@[i as int] == self.segments@[i as int]@);
            assert(segs_view(path_slice@)[i as int] == path_slice@[i as int]@);
            if !self.segments[i].same(path_slice[i]) {
                assert(seg_key(self@[i as int]) != seg_key(segs_view(path_slice@)[i as int]));
                return false;
            }
            i = i + 1;
        }
        true
    }

    /// The path made of the first `lpath` segments.
    pub fn sub_path(&self, lpath: usize) -> (r: MPPath<'a>)
        requires
            0 < lpath <= self@.len(),
        ensures
            r.wf(),
            r@ == self@.take(lpath as int),
    {
        let mut new_segments: Vec<&'a MPSegment> = Vec::new();
        let mut i: usize = 0;
        while i < lpath
            invariant
                0 <= i <= lpath,
                lpath <= self.segments@.len(),
                new_segments@ == self.segments@.take(i as int),
            decreases lpath - i,
        {
            new_segments.push(self.segments[i]);
            i = i + 1;
            assert(new_segments@ =~= self.segments@.take(i as int));
        }
        let r = MPPath::new(new_segments);
        assert(r@ =~= self@.take(lpath as int));
        r
    }

    /// The first `lpath` segments, and the last of them.
    pub fn sub_slice(&self, lpath: usize) -> (r: (&[&'a MPSegment], &'a MPSegment))
        requires
            0 < lpath <= self@.len(),
        ensures
            segs_view(r.0@) == self@.take(lpath as int),
            r.1@ == self@[lpath - 1],
    {
        let all = self.segments.as_slice();
        let segments = &all[0..lpath];
        assert(segs_view(segments@) =~= self@.take(lpath as int));
        (segments, segments[lpath - 1])
    }

    /// The position in `paths` just past the first run of paths that start with this one;
    /// paths with an empty value are passed over.
    pub fn paths_after(&self, paths: &[MPPath]) -> (r: usize)
        requires
            all_wf(paths@),
        ensures
            r == paths_after_from(self@, paths_view(paths@), 0, false),
            r <= paths@.len(),
    {
        let ghost ps = paths_view(paths@);
        let mut seen = false;
        let mut i: usize = 0;
        while i < paths.len()
            invariant
                0 <= i <= paths.len(),
                ps == paths_view(paths@),
                all_wf(paths@),
                paths_after_from(self@, ps, i as int, seen) == paths_after_from(self@, ps, 0, false),
            decreases paths.len() - i,
        {
            let path = &paths[i];
            assert(path.wf());
            assert(ps[i as int] == path@);
            if path.value.is_empty {
                i = i + 1;
                continue;
            }
            let path_starts_with_self = path.starts_with(self);
            if path_starts_with_self {
                seen = true;
            } else if seen {
                return i;
            }
            i = i + 1;
        }
        i
    }

    /// The paths left after those, at the start of `paths`, that begin with `path_slice`;
    /// paths whose value is empty or not a leaf are passed over on the way.
    pub fn paths_after_slice<'b>(path_slice: &[&MPSegment], paths: &'b [MPPath<'a>]) -> (r: &'b [MPPath<'a>])
        requires
            all_wf(paths@),
        ensures
            0 <= after_slice_index(paths_view(paths@), segs_view(path_slice@), 0) <= paths@.len(),
            r@ == paths@.subrange(
                after_slice_index(paths_view(paths@), segs_view(path_slice@), 0),
                paths@.len() as int,
            ),
            paths_view(r@) == after_slice(paths_view(paths@), segs_view(path_slice@)),
    {
        let ghost ps = paths_view(paths@);
        let ghost sv = segs_view(path_slice@);
        let mut i: usize = 0;
        while i < paths.len()
            invariant
                0 <= i <= paths.len(),
                ps == paths_view(paths@),
                sv == segs_view(path_slice@),
                all_wf(paths@),
                after_slice_index(ps, sv, i as int) == after_slice_index(ps, sv, 0),
            ensures
                0 <= i <= paths.len(),
                after_slice_index(ps, sv, i as int) == i,
                after_slice_index(ps, sv, 0) == i,
            decreases paths.len() - i,
        {
            let path = &paths[i];
            assert(path.wf());
            assert(ps[i as int] == path@);
            let value = path.value();
            assert(value@ == ps[i as int].last());
            if value.is_empty || !value.is_leaf {
                assert(after_slice_index(ps, sv, i as int) == after_slice_index(ps, sv, i + 1));
                i = i + 1;
                continue;
            }
            let sw = path.starts_with_slice(path_slice);
            assert(sw == seq_starts_with(ps[i as int], sv));
            if !sw {
                assert(after_slice_index(ps, sv, i as int) == i);
                break;
            }
            assert(after_slice_index(ps, sv, i as int) == after_slice_index(ps, sv, i + 1));
            i = i + 1;
        }
        let r = &paths[i..paths.len()];
        assert(r@ == paths@.subrange(i as int, paths@.len() as int));
        assert(paths_view(r@) =~= ps.subrange(i as int, ps.len() as int));
        r
    }
}


impl<'a> MPPath<'a> {
    /// The path with the matching applied, up to and including its first segment that the
    /// matching changes, together with that same stretch of the path unchanged; or, where the
    /// matching changes no segment, the whole path with the matching applied and `None`.
    pub fn substitute(&self, matching: &MPMatching<'a>) -> (r: (MPPath<'a>, Option<MPPath<'a>>))
        requires
            self.wf(),
            matching.wf(),
        ensures
            r.0.wf(),
            r.0@ == substituted(matching@, self@).0,
            match r.1 {
                Some(p) => p.wf() && substituted(matching@, self@).1 == Some(p@),
                None => substituted(matching@, self@).1 is None,
            },
    {
        let n = self.segments.len();
        let mut new_segments: Vec<&'a MPSegment> = Vec::with_capacity(n);
        let mut old_segments: Vec<&'a MPSegment> = Vec::with_capacity(n);
        let mut is_new = false;
        let mut i: usize = 0;
        while i < n
            invariant
                0 <= i <= n,
                n == self@.len(),
                self.wf(),
                matching.wf(),
                !is_new,
                first_change(matching@, self@, i as int) == first_change(matching@, self@, 0),
                segs_view(new_segments@) == subst_prefix(matching@, self@, i as int),
                segs_view(old_segments@) == self@.take(i as int),
            decreases n - i,
        {
            let segment = self.segments[i];
            assert(segment@ == self@[i as int]);
            let new_segment = get_or_key(matching, segment);
            is_new = !new_segment.same(segment);
            let ghost prev = segs_view(new_segments@);
            new_segments.push(new_segment);
            old_segments.push(segment);
            proof {
                assert(segs_view(new_segments@) =~= prev.push(new_segment@));
                assert(subst_prefix(matching@, self@, i + 1) =~= subst_prefix(matching@, self@, i as int).push(subst_seg(matching@, self@[i as int])));
                assert(segs_view(new_segments@) =~= subst_prefix(matching@, self@, i + 1));
                assert(segs_view(old_segments@) =~= self@.take(i + 1));
            }
            if is_new {
                let new_path = MPPath::new(new_segments);
                let old_path = MPPath::new(old_segments);
                return (new_path, Some(old_path));
            }
            i = i + 1;
        }
        proof {
            assert(self@.take(n as int) =~= self@);
        }
        (MPPath::new(new_segments), None)
    }

    /// `substitute`, with the matching taken by value.
    pub fn substitute_owning(&self, matching: MPMatching<'a>) -> (r: (MPPath<'a>, Option<MPPath<'a>>))
        requires
            self.wf(),
            matching.wf(),
        ensures
            r.0.wf(),
            r.0@ == substituted(matching@, self@).0,
            match r.1 {
                Some(p) => p.wf() && substituted(matching@, self@).1 == Some(p@),
                None => substituted(matching@, self@).1 is None,
            },
    {
        let n = self.segments.len();
        let mut new_segments: Vec<&'a MPSegment> = Vec::with_capacity(n);
        let mut old_segments: Vec<&'a MPSegment> = Vec::with_capacity(n);
        let mut is_new = false;
        let mut i: usize = 0;
        while i < n
            invariant
                0 <= i <= n,
                n == self@.len(),
                self.wf(),
                matching.wf(),
                !is_new,
                first_change(matching@, self@, i as int) == first_change(matching@, self@, 0),
                segs_view(new_segments@) == subst_prefix(matching@, self@, i as int),
                segs_view(old_segments@) == self@.take(i as int),
            decreases n - i,
        {
            let segment = self.segments[i];
            assert(segment@ == self@[i as int]);
            let new_segment = get_or_key_owning(matching.duplicate(), segment);
            is_new = !new_segment.same(segment);
            let ghost prev = segs_view(new_segments@);
            new_segments.push(new_segment);
            old_segments.push(segment);
            proof {
                assert(segs_view(new_segments@) =~= prev.push(new_segment@));
                assert(subst_prefix(matching@, self@, i + 1) =~= subst_prefix(matching@, self@, i as int).push(subst_seg(matching@, self@[i as int])));
                assert(segs_view(new_segments@) =~= subst_prefix(matching@, self@, i + 1));
                assert(segs_view(old_segments@) =~= self@.take(i + 1));
            }
            if is_new {
                let new_path = MPPath::new(new_segments);
                let old_path = MPPath::new(old_segments);
                return (new_path, Some(old_path));
            }
            i = i + 1;
        }
        proof {
            assert(self@.take(n as int) =~= self@);
        }
        (MPPath::new(new_segments), None)
    }

    /// Applies the matching to a list of paths: a path that extends a stretch already
    /// replaced is dropped; a path the matching changes gives its changed stretch; a path the
    /// matching leaves alone is kept where its value is a leaf.
    pub fn substitute_paths(paths: &[MPPath<'a>], matching: &MPMatching<'a>) -> (r: Vec<MPPath<'a>>)
        requires
            all_wf(paths@),
            matching.wf(),
        ensures
            all_wf(r@),
            paths_view(r@) == substituted_paths(matching@, paths_view(paths@), 0, Seq::empty()),
    {
        let ghost ps = paths_view(paths@);
        let mut new_paths: Vec<MPPath<'a>> = Vec::with_capacity(paths.len());
        let mut old_paths: Vec<MPPath<'a>> = Vec::with_capacity(paths.len());
        assert(paths_view(old_paths@) =~= Seq::<Seq<SegView>>::empty());
        assert(paths_view(new_paths@) =~= Seq::<Seq<SegView>>::empty());
        let mut i: usize = 0;
        while i < paths.len()
            invariant
                0 <= i <= paths.len(),
                ps == paths_view(paths@),
                all_wf(paths@),
                matching.wf(),
                all_wf(new_paths@),
                paths_view(new_paths@) + substituted_paths(matching@, ps, i as int, paths_view(old_paths@))
                    == substituted_paths(matching@, ps, 0, Seq::empty()),
            decreases paths.len() - i,
        {
            let path = &paths[i];
            assert(path.wf());
            assert(ps[i as int] == path@);
            let ghost olds = paths_view(old_paths@);
            let seen = extends_any(path, &old_paths);
            let ghost rest = substituted_paths(matching@, ps, i + 1, olds);
            if !seen {
                assert(!(exists|l: int| 0 <= l < olds.len() && ps[i as int].len() > olds[l].len() && seq_starts_with(ps[i as int], #[trigger] olds[l])));
                let (new_path, old_path) = path.substitute(matching);
                match old_path {
                    Some(op) => {
                        let ghost opv = op@;
                        old_paths.push(op);
                        let ghost npv = new_path@;
                        new_paths.push(new_path);
                        proof {
                            assert(paths_view(old_paths@) =~= olds.push(opv));
                            assert(paths_view(new_paths@) =~= paths_view(new_paths@).drop_last().push(npv));
                            assert(paths_view(new_paths@).drop_last() =~= paths_view(new_paths@.drop_last()));
                            assert(all_wf(new_paths@));
                        }
                    },
                    None => {
                        assert(new_path.wf());
                        let nv = new_path.value();
                        if nv.is_leaf {
                            let ghost npv = new_path@;
                            new_paths.push(new_path);
                            proof {
                                assert(paths_view(new_paths@) =~= paths_view(new_paths@.drop_last()).push(npv));
                                assert(all_wf(new_paths@));
                            }
                        }
                    },
                }
            } else {
                assert(exists|l: int| 0 <= l < olds.len() && ps[i as int].len() > olds[l].len() && seq_starts_with(ps[i as int], #[trigger] olds[l]));
            }
            i = i + 1;
        }
        assert(paths_view(new_paths@) =~= paths_view(new_paths@) + Seq::<Seq<SegView>>::empty());
        new_paths
    }

    /// `substitute_paths`, with the matching taken by value.
    pub fn substitute_paths_owning(paths: &[MPPath<'a>], matching: MPMatching<'a>) -> (r: Vec<MPPath<'a>>)
        requires
            all_wf(paths@),
            matching.wf(),
        ensures
            all_wf(r@),
            paths_view(r@) == substituted_paths(matching@, paths_view(paths@), 0, Seq::empty()),
    {
        MPPath::substitute_paths(paths, &matching)
    }

    /// A copy of the path.
    pub fn duplicate(&self) -> (r: MPPath<'a>)
        requires
            self.wf(),
        ensures
            r.wf(),
            r@ == self@,
    {
        let mut segments: Vec<&'a MPSegment> = Vec::new();
        let mut i: usize = 0;
        while i < self.segments.len()
            invariant
                0 <= i <= self.segments.len(),
                segments@ == self.segments@.take(i as int),
            decreases self.segments.len() - i,
        {
            segments.push(self.segments[i]);
            i = i + 1;
            assert(segments@ =~= self.segments@.take(i as int));
        }
        assert(segments@ =~= self.segments@);
        MPPath::new(segments)
    }

    /// The path shown as its value between angle brackets.
    pub fn to_display_string(&self) -> (r: String)
        ensures
            r@ == seq!['<'] + self.value_view().name + seq![':', ' '] + self.value_view().text + seq!['>'],
    {
        proof {
            reveal_strlit("<");
            reveal_strlit(">");
        }
        let mut s = String::from_str("<");
        let v = self.value.to_display_string();
        s.append(v.as_str());
        s.append(">");
        s
    }
}

/// Whether `path` is longer than one of `olds` and starts with it.
fn extends_any(path: &MPPath, olds: &Vec<MPPath>) -> (r: bool)
    ensures
        r == exists|l: int|
            0 <= l < olds@.len() && path@.len() > paths_view(olds@)[l].len() && seq_starts_with(
                path@,
                #[trigger] paths_view(olds@)[l],
            ),
{
    let ghost ov = paths_view(olds@);
    let mut j: usize = 0;
    while j < olds.len()
        invariant
            0 <= j <= olds.len(),
            ov == paths_view(olds@),
            forall|l: int| 0 <= l < j ==> !(path@.len() > ov[l].len() && seq_starts_with(path@, #[trigger] ov[l])),
        decreases olds.len() - j,
    {
        let opath = &olds[j];
        assert(ov[j as int] == opath@);
        if path.len() > opath.len() && path.starts_with(opath) {
            return true;
        }
        j = j + 1;
    }
    false
}

impl<'a> PartialEq for MPPath<'a> {
    fn eq(&self, other: &Self) -> (r: bool) {
        self.identity == other.identity
    }
}

impl<'a> vstd::std_specs::cmp::PartialEqSpecImpl for MPPath<'a> {
    open spec fn obeys_eq_spec() -> bool {
        true
    }

    open spec fn eq_spec(&self, other: &Self) -> bool {
        self.identity_view() == other.identity_view()
    }
}

impl<'a> Eq for MPPath<'a> {

}

impl<'a> std::hash::Hash for MPPath<'a> {
    /// Feeds the path's identity string to the hasher, through std's `Hash` for `String`, so
    /// that equal paths hash alike.
    #[verifier::external_body]
    fn hash<H: std::hash::Hasher>(&self, state: &mut H) {
        self.identity.hash(state)
    }
}

} // verus!
