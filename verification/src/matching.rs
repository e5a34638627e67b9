//! Matchings: finite maps from segments (variables) to the segments bound to them.
use vstd::prelude::*;

use crate::segment::{seg_key, MPSegment, SegView};

verus! {

/// The identity of a segment, by which matchings look segments up.
pub type SegKey = (Seq<char>, Seq<char>);

/// Some position of `es` whose key segment has identity `k`.
pub open spec fn key_index(es: Seq<(SegView, SegView)>, k: SegKey) -> int {
    choose|i: int| 0 <= i < es.len() && seg_key(es[i].0) == k
}

/// `es` holds no two entries whose keys have the same identity.
pub open spec fn keys_distinct(es: Seq<(SegView, SegView)>) -> bool {
    forall|i: int, j: int|
        0 <= i < es.len() && 0 <= j < es.len() && i != j ==> seg_key(#[trigger] es[i].0) != seg_key(
            #[trigger] es[j].0,
        )
}

/// The map that a list of entries with distinct keys stands for.
pub open spec fn entries_map(es: Seq<(SegView, SegView)>) -> Map<SegKey, SegView> {
    Map::new(
        |k: SegKey| exists|i: int| 0 <= i < es.len() && seg_key(es[i].0) == k,
        |k: SegKey| es[key_index(es, k)].1,
    )
}

/// A matching: each variable segment bound to at most one value segment. The entries keep
/// the order in which keys were first inserted.
#[derive(Debug)]
pub struct MPMatching<'a> {
    entries: Vec<(&'a MPSegment, &'a MPSegment)>,
}

impl<'a> View for MPMatching<'a> {
    type V = Map<SegKey, SegView>;

    closed spec fn view(&self) -> Map<SegKey, SegView> {
        entries_map(self.entries())
    }
}

/// The value that `m` gives to `s`, or `s` itself where `m` has no value for it.
pub open spec fn subst_seg(m: Map<SegKey, SegView>, s: SegView) -> SegView {
    if m.contains_key(seg_key(s)) {
        m[seg_key(s)]
    } else {
        s
    }
}

proof fn lemma_key_index(es: Seq<(SegView, SegView)>, i: int)
    requires
        keys_distinct(es),
        0 <= i < es.len(),
    ensures
        key_index(es, seg_key(es[i].0)) == i,
{
    let k = seg_key(es[i].0);
    assert(0 <= i < es.len() && seg_key(es[i].0) == k);
    let j = key_index(es, k);
    assert(seg_key(es[j].0) == k);
}

impl<'a> MPMatching<'a> {
    /// The entries as plain values, in order.
    pub closed spec fn entries(&self) -> Seq<(SegView, SegView)> {
        self.entries@.map_values(|e: (&'a MPSegment, &'a MPSegment)| (e.0@, e.1@))
    }

    /// The entries keep keys distinct.
    pub closed spec fn wf(&self) -> bool {
        keys_distinct(self.entries())
    }

    /// An empty matching.
    pub fn new() -> (r: MPMatching<'a>)
        ensures
            r.wf(),
            r@ == Map::<SegKey, SegView>::empty(),
            r.entries() == Seq::<(SegView, SegView)>::empty(),
    {
        let r = MPMatching { entries: Vec::new() };
        assert(r@ =~= Map::<SegKey, SegView>::empty());
        r
    }

    /// The number of bound variables.
    pub fn len(&self) -> (r: usize)
        requires
            self.wf(),
        ensures
            r == self.entries().len(),
            r == self@.len(),
    {
        proof {
            self.lemma_len();
        }
        self.entries.len()
    }

    proof fn lemma_len(&self)
        requires
            self.wf(),
        ensures
            self@.len() == self.entries().len(),
            self@.dom().finite(),
        decreases self.entries().len(),
    {
        let es = self.entries();
        let f = |i: int| seg_key(es[i].0);
        let idx = Set::new(|i: int| 0 <= i < es.len());
        assert(idx =~= vstd::set_lib::set_int_range(0, es.len() as int));
        vstd::set_lib::lemma_int_range(0, es.len() as int);
        assert forall|k: SegKey| #[trigger] self@.dom().contains(k) implies idx.map(f).contains(k) by {
            let j = key_index(es, k);
            assert(idx.contains(j) && f(j) == k);
        }
        assert forall|k: SegKey| #[trigger] idx.map(f).contains(k) implies self@.dom().contains(k) by {
            let j = choose|j: int| idx.contains(j) && f(j) == k;
            assert(0 <= j < es.len() && seg_key(es[j].0) == k);
        }
        assert(self@.dom() =~= idx.map(f));
        assert forall|a: int, b: int| idx.contains(a) && idx.contains(b) && f(a) == f(b) implies a == b by {}
        vstd::set_lib::lemma_map_size(idx, self@.dom(), f);
    }

    /// The `i`-th entry, a key segment and its value.
    pub fn entry(&self, i: usize) -> (r: (&'a MPSegment, &'a MPSegment))
        requires
            i < self.entries().len(),
        ensures
            (r.0@, r.1@) == self.entries()[i as int],
    {
        self.entries[i]
    }

    /// The position of the entry whose key has the identity of `key`, if any.
    fn find(&self, key: &MPSegment) -> (r: Option<usize>)
        requires
            self.wf(),
        ensures
            match r {
                Some(i) => i < self.entries().len() && seg_key(self.entries()[i as int].0) == seg_key(key@),
                None => !self@.contains_key(seg_key(key@)),
            },
    {
        let mut i: usize = 0;
        while i < self.entries.len()
            invariant
                0 <= i <= self.entries.len(),
                forall|j: int| 0 <= j < i ==> seg_key(#[trigger] self.entries()[j].0) != seg_key(key@),
            decreases self.entries.len() - i,
        {
            if self.entries[i].0.same(key) {
                return Some(i);
            }
            i = i + 1;
        }
        None
    }

    /// Whether the matching binds the identity of `key`.
    pub fn contains_key(&self, key: &MPSegment) -> (r: bool)
        requires
            self.wf(),
        ensures
            r == self@.contains_key(seg_key(key@)),
    {
        match self.find(key) {
            Some(i) => true,
            None => false,
        }
    }

    /// The value bound to the identity of `key`, if any.
    pub fn get(&self, key: &MPSegment) -> (r: Option<&'a MPSegment>)
        requires
            self.wf(),
        ensures
            match r {
                Some(v) => self@.contains_key(seg_key(key@)) && v@ == self@[seg_key(key@)],
                None => !self@.contains_key(seg_key(key@)),
            },
    {
        match self.find(key) {
            Some(i) => {
                proof {
                    lemma_key_index(self.entries(), i as int);
                }
                Some(self.entries[i].1)
            },
            None => None,
        }
    }

    /// Binds `key` to `value`; where the key is bound already its value is replaced and the
    /// entry keeps its place and its key segment.
    pub fn insert(&mut self, key: &'a MPSegment, value: &'a MPSegment)
        requires
            old(self).wf(),
        ensures
            final(self).wf(),
            final(self)@ == old(self)@.insert(seg_key(key@), value@),
            old(self)@.contains_key(seg_key(key@)) ==> final(self).entries().len() == old(
                self,
            ).entries().len(),
            !old(self)@.contains_key(seg_key(key@)) ==> final(self).entries() == old(
                self,
            ).entries().push((key@, value@)),
    {
        let ghost es0 = self.entries();
        match self.find(key) {
            Some(i) => {
                let k = self.entries[i].0;
                self.entries.set(i, (k, value));
                proof {
                    let es = self.entries();
                    assert(es =~= es0.update(i as int, (k@, value@)));
                    assert forall|a: int, b: int|
                        0 <= a < es.len() && 0 <= b < es.len() && a != b implies seg_key(
                        #[trigger] es[a].0,
                    ) != seg_key(#[trigger] es[b].0) by {
                        assert(seg_key(es[a].0) == seg_key(es0[a].0));
                        assert(seg_key(es[b].0) == seg_key(es0[b].0));
                    }
                    assert forall|kk: SegKey| #[trigger] self@.contains_key(kk) implies old(
                        self,
                    )@.insert(seg_key(key@), value@).contains_key(kk) && self@[kk] == old(
                        self,
                    )@.insert(seg_key(key@), value@)[kk] by {
                        let j = key_index(es, kk);
                        assert(seg_key(es0[j].0) == kk);
                        lemma_key_index(es, j);
                        lemma_key_index(es0, j);
                    }
                    assert forall|kk: SegKey| #[trigger] old(self)@.insert(seg_key(key@), value@).contains_key(kk) implies self@.contains_key(kk) by {
                        if kk != seg_key(key@) {
                            let j = key_index(es0, kk);
                            assert(seg_key(es[j].0) == kk);
                        } else {
                            assert(seg_key(es[i as int].0) == kk);
                        }
                    }
                    assert(self@ =~= old(self)@.insert(seg_key(key@), value@));
                }
            },
            None => {
                self.entries.push((key, value));
                proof {
                    let es = self.entries();
                    assert(es =~= es0.push((key@, value@)));
                    let n = es0.len() as int;
                    assert forall|kk: SegKey| #[trigger] self@.contains_key(kk) implies old(
                        self,
                    )@.insert(seg_key(key@), value@).contains_key(kk) && self@[kk] == old(
                        self,
                    )@.insert(seg_key(key@), value@)[kk] by {
                        let j = key_index(es, kk);
                        lemma_key_index(es, j);
                        if j < n {
                            lemma_key_index(es0, j);
                            assert(seg_key(es0[j].0) == kk);
                        }
                    }
                    assert forall|kk: SegKey| #[trigger] old(self)@.insert(seg_key(key@), value@).contains_key(kk) implies self@.contains_key(kk) by {
                        if kk != seg_key(key@) {
                            let j = key_index(es0, kk);
                            assert(seg_key(es[j].0) == kk);
                        } else {
                            assert(seg_key(es[n].0) == kk);
                        }
                    }
                    assert(self@ =~= old(self)@.insert(seg_key(key@), value@));
                }
            },
        }
    }

    /// A copy of the matching, with the same entries in the same order.
    pub fn duplicate(&self) -> (r: MPMatching<'a>)
        ensures
            r.entries() == self.entries(),
            r@ == self@,
            r.wf() == self.wf(),
    {
        let mut es: Vec<(&'a MPSegment, &'a MPSegment)> = Vec::new();
        let mut i: usize = 0;
        while i < self.entries.len()
            invariant
                0 <= i <= self.entries.len(),
                es@ == self.entries@.take(i as int),
            decreases self.entries.len() - i,
        {
            es.push(self.entries[i]);
            i = i + 1;
            assert(es@ =~= self.entries@.take(i as int));
        }
        assert(es@ =~= self.entries@);
        let r = MPMatching { entries: es };
        assert(r.entries() =~= self.entries());
        r
    }

    /// Adds every binding of `other`, in its order, as `insert` does.
    pub fn extend(&mut self, other: &MPMatching<'a>)
        requires
            old(self).wf(),
            other.wf(),
        ensures
            final(self).wf(),
            final(self)@ == old(self)@.union_prefer_right(other@),
    {
        let mut i: usize = 0;
        while i < other.entries.len()
            invariant
                0 <= i <= other.entries.len(),
                self.wf(),
                other.wf(),
                self@ == old(self)@.union_prefer_right(entries_map(other.entries().take(i as int))),
            decreases other.entries.len() - i,
        {
            let (k, v) = other.entries[i];
            let ghost pre = self@;
            self.insert(k, v);
            proof {
                let es = other.entries();
                let t0 = es.take(i as int);
                let t1 = es.take(i + 1);
                assert(t1 =~= t0.push((k@, v@)));
                assert forall|a: int, b: int|
                    0 <= a < t1.len() && 0 <= b < t1.len() && a != b implies seg_key(
                    #[trigger] t1[a].0,
                ) != seg_key(#[trigger] t1[b].0) by {
                    assert(t1[a] == es[a]);
                    assert(t1[b] == es[b]);
                }
                assert forall|a: int, b: int|
                    0 <= a < t0.len() && 0 <= b < t0.len() && a != b implies seg_key(
                    #[trigger] t0[a].0,
                ) != seg_key(#[trigger] t0[b].0) by {
                    assert(t0[a] == es[a]);
                    assert(t0[b] == es[b]);
                }
                let m0 = entries_map(t0);
                let m1 = entries_map(t1);
                assert forall|kk: SegKey| #[trigger] m1.contains_key(kk) implies m0.insert(seg_key(k@), v@).contains_key(kk) && m1[kk] == m0.insert(seg_key(k@), v@)[kk] by {
                    let j = key_index(t1, kk);
                    lemma_key_index(t1, j);
                    assert(t1[i as int] == (k@, v@));
                    if j < i {
                        assert(seg_key(t1[j].0) != seg_key(t1[i as int].0));
                        assert(t0[j] == t1[j]);
                        lemma_key_index(t0, j);
                    }
                }
                assert forall|kk: SegKey| #[trigger] m0.insert(seg_key(k@), v@).contains_key(kk) implies m1.contains_key(kk) by {
                    if kk != seg_key(k@) {
                        let j = key_index(t0, kk);
                        assert(t1[j] == t0[j]);
                    } else {
                        assert(t1[i as int] == (k@, v@));
                    }
                }
                assert(m1 =~= m0.insert(seg_key(k@), v@));
                assert(self@ =~= old(self)@.union_prefer_right(m1));
            }
            i = i + 1;
        }
        assert(other.entries().take(other.entries.len() as int) =~= other.entries());
    }
}

} // verus!

verus! {

/// The last position of `es` whose value has identity `k`: its key is what an inverted
/// matching binds to `k`.
pub open spec fn last_value_index(es: Seq<(SegView, SegView)>, k: SegKey) -> int {
    choose|i: int|
        0 <= i < es.len() && seg_key(es[i].1) == k && forall|j: int|
            i < j < es.len() ==> seg_key(#[trigger] es[j].1) != k
}

/// The matching read backwards: each value bound to its key. Where two keys share a value,
/// the key of the later entry wins.
pub open spec fn inverted(es: Seq<(SegView, SegView)>) -> Map<SegKey, SegView> {
    Map::new(
        |k: SegKey| exists|i: int| 0 <= i < es.len() && seg_key(es[i].1) == k,
        |k: SegKey| es[last_value_index(es, k)].0,
    )
}

/// The matching whose keys are renamed through `varmap`: each key `k` becomes the value that
/// `varmap` binds to it. Where two keys are renamed alike, the value of the later entry wins.
pub open spec fn renamed(es: Seq<(SegView, SegView)>, varmap: Map<SegKey, SegView>) -> Map<SegKey, SegView> {
    inverted(es.map_values(|e: (SegView, SegView)| (e.1, varmap[seg_key(e.0)])))
}

pub proof fn lemma_last_value_index(es: Seq<(SegView, SegView)>, i: int)
    requires
        0 <= i < es.len(),
        forall|j: int| i < j < es.len() ==> seg_key(#[trigger] es[j].1) != seg_key(es[i].1),
    ensures
        last_value_index(es, seg_key(es[i].1)) == i,
{
    let k = seg_key(es[i].1);
    let w = last_value_index(es, k);
    assert(0 <= i < es.len() && seg_key(es[i].1) == k && forall|j: int|
        i < j < es.len() ==> seg_key(#[trigger] es[j].1) != k);
    if w < i {
        assert(seg_key(es[i].1) != k);
    }
    if w > i {
        assert(seg_key(es[w].1) != k);
    }
}

/// Where some value has identity `k`, a last such value exists.
proof fn lemma_last_exists(es: Seq<(SegView, SegView)>, k: SegKey, i: int)
    requires
        0 <= i < es.len(),
        seg_key(es[i].1) == k,
    ensures
        exists|w: int|
            0 <= w < es.len() && seg_key(es[w].1) == k && forall|j: int|
                w < j < es.len() ==> seg_key(#[trigger] es[j].1) != k,
    decreases es.len() - i,
{
    if exists|j: int| i < j < es.len() && seg_key(#[trigger] es[j].1) == k {
        let j = choose|j: int| i < j < es.len() && seg_key(#[trigger] es[j].1) == k;
        lemma_last_exists(es, k, j);
    } else {
        assert(forall|j: int| i < j < es.len() ==> seg_key(#[trigger] es[j].1) != k);
    }
}

/// The inverse of a prefix of entries, one entry later.
pub proof fn lemma_inverted_push(es: Seq<(SegView, SegView)>, i: int)
    requires
        0 <= i < es.len(),
    ensures
        inverted(es.take(i + 1)) == inverted(es.take(i)).insert(seg_key(es[i].1), es[i].0),
{
    let t0 = es.take(i);
    let t1 = es.take(i + 1);
    let k = seg_key(es[i].1);
    let m0 = inverted(t0);
    let m1 = inverted(t1);
    assert(t1[i] == es[i]);
    lemma_last_value_index(t1, i);
    assert forall|kk: SegKey| #[trigger] m1.contains_key(kk) implies m0.insert(k, es[i].0).contains_key(kk) && m1[kk] == m0.insert(k, es[i].0)[kk] by {
        if kk != k {
            let j0 = choose|j0: int| 0 <= j0 < t1.len() && seg_key(t1[j0].1) == kk;
            lemma_last_exists(t1, kk, j0);
            let j = last_value_index(t1, kk);
            assert(j != i);
            assert(t0[j] == t1[j]);
            assert forall|l: int| j < l < t0.len() implies seg_key(#[trigger] t0[l].1) != kk by {
                assert(t0[l] == t1[l]);
            }
            lemma_last_value_index(t0, j);
        }
    }
    assert forall|kk: SegKey| #[trigger] m0.insert(k, es[i].0).contains_key(kk) implies m1.contains_key(kk) by {
        if kk != k {
            let j = choose|j: int| 0 <= j < t0.len() && seg_key(t0[j].1) == kk;
            assert(t0[j] == t1[j]);
        }
    }
    assert(m1 =~= m0.insert(k, es[i].0));
}

/// No two entries of `es` have values of the same identity.
pub open spec fn values_distinct(es: Seq<(SegView, SegView)>) -> bool {
    forall|i: int, j: int|
        0 <= i < es.len() && 0 <= j < es.len() && i != j ==> seg_key(#[trigger] es[i].1) != seg_key(
            #[trigger] es[j].1,
        )
}

/// The entries with each key and value swapped.
pub open spec fn swapped(es: Seq<(SegView, SegView)>) -> Seq<(SegView, SegView)> {
    es.map_values(|e: (SegView, SegView)| (e.1, e.0))
}

/// Reading backwards, twice, a matching in which no two keys share a value gives the
/// matching back: the inverse of the swapped entries is the map of the entries, and the
/// swapped entries again have distinct keys and distinct values.
pub proof fn lemma_invert_twice(es: Seq<(SegView, SegView)>)
    requires
        keys_distinct(es),
        values_distinct(es),
    ensures
        keys_distinct(swapped(es)),
        values_distinct(swapped(es)),
        swapped(swapped(es)) == es,
        inverted(swapped(es)) == entries_map(es),
{
    let sw = swapped(es);
    let a = inverted(sw);
    let b = entries_map(es);
    assert forall|k: SegKey| #[trigger] a.contains_key(k) <==> b.contains_key(k) by {
        if a.contains_key(k) {
            let i = choose|i: int| 0 <= i < sw.len() && seg_key(sw[i].1) == k;
            assert(seg_key(es[i].0) == k);
        }
        if b.contains_key(k) {
            let i = choose|i: int| 0 <= i < es.len() && seg_key(es[i].0) == k;
            assert(seg_key(sw[i].1) == k);
        }
    }
    assert forall|k: SegKey| #[trigger] a.contains_key(k) implies a[k] == b[k] by {
        let i = choose|i: int| 0 <= i < sw.len() && seg_key(sw[i].1) == k;
        assert forall|j: int| i < j < sw.len() implies seg_key(#[trigger] sw[j].1) != seg_key(sw[i].1) by {
            assert(sw[j].1 == es[j].0);
        }
        lemma_last_value_index(sw, i);
        lemma_key_index(es, i);
    }
    assert(a =~= b);
    assert(swapped(sw) =~= es);
}

/// The matching read backwards: each value bound to its key. Where no two keys share a
/// value, its entries are those of `matching` swapped, in order.
pub fn invert<'a>(matching: &MPMatching<'a>) -> (r: MPMatching<'a>)
    requires
        matching.wf(),
    ensures
        r.wf(),
        r@ == inverted(matching.entries()),
        values_distinct(matching.entries()) ==> r.entries() == swapped(matching.entries()),
{
    let mut inv = MPMatching::new();
    let mut i: usize = 0;
    let n = matching.len();
    while i < n
        invariant
            0 <= i <= n,
            n == matching.entries().len(),
            inv.wf(),
            inv@ == inverted(matching.entries().take(i as int)),
            values_distinct(matching.entries()) ==> inv.entries() == swapped(matching.entries().take(i as int)),
        decreases n - i,
    {
        let (k, v) = matching.entry(i);
        let ghost before = inv.entries();
        proof {
            let es = matching.entries();
            if values_distinct(es) {
                assert(!inv@.contains_key(seg_key(v@))) by {
                    if inv@.contains_key(seg_key(v@)) {
                        let j = choose|j: int| 0 <= j < es.take(i as int).len() && seg_key(es.take(i as int)[j].1) == seg_key(v@);
                        assert(es.take(i as int)[j] == es[j]);
                        assert(es[i as int].1 == v@);
                        assert(seg_key(es[j].1) != seg_key(es[i as int].1));
                    }
                }
            }
        }
        inv.insert(v, k);
        proof {
            lemma_inverted_push(matching.entries(), i as int);
            if values_distinct(matching.entries()) {
                assert(swapped(matching.entries().take(i + 1)) =~= swapped(matching.entries().take(i as int)).push((v@, k@)));
            }
        }
        i = i + 1;
    }
    assert(matching.entries().take(n as int) =~= matching.entries());
    inv
}

/// The value that `matching` binds to `key`, or `key` itself.
pub fn get_or_key<'a>(matching: &MPMatching<'a>, key: &'a MPSegment) -> (r: &'a MPSegment)
    requires
        matching.wf(),
    ensures
        r@ == subst_seg(matching@, key@),
{
    match matching.get(key) {
        Some(matched) => matched,
        None => key,
    }
}

/// The value that `matching`, taken by value, binds to `key`, or `key` itself.
pub fn get_or_key_owning<'a>(matching: MPMatching<'a>, key: &'a MPSegment) -> (r: &'a MPSegment)
    requires
        matching.wf(),
    ensures
        r@ == subst_seg(matching@, key@),
{
    match matching.get(key) {
        Some(matched) => matched,
        None => key,
    }
}

/// The matching whose keys are renamed through `varmap`, which must bind every key of
/// `matching`.
pub fn get_real_matching<'a>(matching: &MPMatching<'a>, varmap: &MPMatching<'a>) -> (r: MPMatching<'a>)
    requires
        matching.wf(),
        varmap.wf(),
        forall|k: SegKey| #[trigger] matching@.contains_key(k) ==> varmap@.contains_key(k),
    ensures
        r.wf(),
        r@ == renamed(matching.entries(), varmap@),
{
    let mut real_matching = MPMatching::new();
    let n = matching.len();
    let ghost es = matching.entries();
    let ghost sw = es.map_values(|e: (SegView, SegView)| (e.1, varmap@[seg_key(e.0)]));
    let mut i: usize = 0;
    while i < n
        invariant
            0 <= i <= n,
            n == es.len(),
            es == matching.entries(),
            sw == es.map_values(|e: (SegView, SegView)| (e.1, varmap@[seg_key(e.0)])),
            matching.wf(),
            varmap.wf(),
            forall|k: SegKey| #[trigger] matching@.contains_key(k) ==> varmap@.contains_key(k),
            real_matching.wf(),
            real_matching@ == inverted(sw.take(i as int)),
        decreases n - i,
    {
        let (key, value) = matching.entry(i);
        proof {
            assert(0 <= i < es.len() && seg_key(es[i as int].0) == seg_key(key@));
            assert(matching@.contains_key(seg_key(key@)));
        }
        let new_key = varmap.get(key).unwrap();
        real_matching.insert(new_key, value);
        proof {
            lemma_inverted_push(sw, i as int);
        }
        i = i + 1;
    }
    assert(sw.take(n as int) =~= sw);
    real_matching
}


/// Whether `varmap` binds every variable that `matching` binds.
pub fn keys_covered<'a>(matching: &MPMatching<'a>, varmap: &MPMatching<'a>) -> (r: bool)
    requires
        matching.wf(),
        varmap.wf(),
    ensures
        r == forall|k: SegKey| #[trigger] matching@.contains_key(k) ==> varmap@.contains_key(k),
{
    let n = matching.len();
    let ghost es = matching.entries();
    let mut i: usize = 0;
    while i < n
        invariant
            0 <= i <= n,
            n == es.len(),
            es == matching.entries(),
            matching.wf(),
            varmap.wf(),
            forall|j: int| 0 <= j < i ==> varmap@.contains_key(seg_key(#[trigger] es[j].0)),
        decreases n - i,
    {
        let (k, v) = matching.entry(i);
        if !varmap.contains_key(k) {
            assert(0 <= i < es.len() && seg_key(es[i as int].0) == seg_key(k@));
            assert(matching@.contains_key(seg_key(k@)));
            return false;
        }
        i = i + 1;
    }
    assert forall|k: SegKey| #[trigger] matching@.contains_key(k) implies varmap@.contains_key(k) by {
        let j = choose|j: int| 0 <= j < es.len() && seg_key(es[j].0) == k;
        assert(varmap@.contains_key(seg_key(es[j].0)));
    }
    true
}

/// What a matching gives for a variable once the variable is bound to a value is that value,
/// and the bindings of the other variables stay as they were.
pub proof fn lemma_get_after_insert(m: Map<SegKey, SegView>, k: SegKey, v: SegView, other: SegKey)
    ensures
        m.insert(k, v).contains_key(k),
        m.insert(k, v)[k] == v,
        other != k ==> m.insert(k, v).contains_key(other) == m.contains_key(other),
        other != k && m.contains_key(other) ==> m.insert(k, v)[other] == m[other],
{
}

/// A segment shown as its name, a colon, a space and its text.
pub open spec fn seg_text(s: SegView) -> Seq<char> {
    s.name + seq![':', ' '] + s.text
}

/// The entries of a matching shown one after the other, separated by a comma and a space,
/// each as its key, an arrow and its value.
pub open spec fn entries_text(es: Seq<(SegView, SegView)>) -> Seq<char>
    decreases es.len(),
{
    if es.len() == 0 {
        Seq::empty()
    } else {
        entries_text(es.drop_last()) + (if es.len() > 1 {
            seq![',', ' ']
        } else {
            Seq::empty()
        }) + seg_text(es.last().0) + seq![' ', '-', '>', ' '] + seg_text(es.last().1)
    }
}

impl<'a> MPMatching<'a> {
    /// The matching shown as its entries, in order, between braces.
    pub fn to_display_string(&self) -> (r: String)
        ensures
            r@ == seq!['{'] + entries_text(self.entries()) + seq!['}'],
    {
        proof {
            reveal_strlit("{");
            reveal_strlit("}");
            reveal_strlit(", ");
            reveal_strlit(" -> ");
        }
        let ghost es = self.entries();
        let mut s = String::from_str("{");
        let mut i: usize = 0;
        assert(es.take(0) =~= Seq::<(SegView, SegView)>::empty());
        while i < self.entries.len()
            invariant
                0 <= i <= es.len(),
                es == self.entries(),
                es.len() == self.entries@.len(),
                s@ == seq!['{'] + entries_text(es.take(i as int)),
                ", "@ == seq![',', ' '],
                " -> "@ == seq![' ', '-', '>', ' '],
            decreases es.len() - i,
        {
            let (k, v) = self.entries[i];
            assert(es[i as int] == (k@, v@));
            assert(es.take(i + 1).drop_last() =~= es.take(i as int));
            assert(es.take(i + 1).last() == es[i as int]);
            if i > 0 {
                s.append(", ");
            }
            let kt = k.to_display_string();
            s.append(kt.as_str());
            s.append(" -> ");
            let vt = v.to_display_string();
            s.append(vt.as_str());
            i = i + 1;
        }
        assert(es.take(es.len() as int) =~= es);
        s.append("}");
        s
    }
}

} // verus!
