//! The lexicon: the store where segments are interned, so that each segment exists once and
//! lives as long as the program.
use vstd::prelude::*;

use crate::constants::{fact_rule_name, fact_rule_name_str, var_rule_name, var_rule_name_str};
use crate::path::{segs_view, MPPath};
use crate::segment::{make_seg, seg_wf, MPSegment, SegView};
use crate::text::{decimal, str_eq, usize_decimal};

verus! {

/// Gives up ownership of a boxed value for good, through std's `Box::leak`, and hands back a
/// shared reference to it that lives as long as the value's type allows.
#[verifier::external_body]
pub(crate) fn leak<'a, T: 'a>(b: Box<T>) -> (r: &'a T)
    ensures
        *r == *b,
{
    Box::leak(b)
}

/// The text of the `n`-th normalized variable: `<__X`, the number in decimal, `>`.
pub open spec fn var_text(n: nat) -> Seq<char> {
    seq!['<', '_', '_', 'X'] + decimal(n) + seq!['>']
}

/// The identity under which a segment is interned: its name, text and whether it is a leaf.
pub open spec fn intern_key(s: SegView) -> (Seq<char>, Seq<char>, bool) {
    (s.name, s.text, s.is_leaf)
}

pub struct Lexicon {
    segments: Vec<&'static MPSegment>,
}

impl View for Lexicon {
    type V = Seq<SegView>;

    closed spec fn view(&self) -> Seq<SegView> {
        segs_view(self.segments@)
    }
}

impl Lexicon {
    /// Every interned segment is well formed, and no two share name, text and leafness.
    pub closed spec fn wf(&self) -> bool {
        &&& forall|i: int| 0 <= i < self@.len() ==> seg_wf(#[trigger] self@[i])
        &&& forall|i: int, j: int|
            0 <= i < self@.len() && 0 <= j < self@.len() && i != j ==> intern_key(
                #[trigger] self@[i],
            ) != intern_key(#[trigger] self@[j])
    }

    /// An empty lexicon.
    pub fn new() -> (r: Lexicon)
        ensures
            r.wf(),
            r@ == Seq::<SegView>::empty(),
    {
        let r = Lexicon { segments: Vec::new() };
        assert(r@ =~= Seq::<SegView>::empty());
        r
    }

    /// The segment with this name, text and leafness: the one interned before where there is
    /// one, else a new one, which the lexicon keeps from then on.
    pub fn intern(&mut self, name: &str, text: &str, is_leaf: bool) -> (r: &'static MPSegment)
        requires
            old(self).wf(),
        ensures
            final(self).wf(),
            r@ == make_seg(name@, text@, is_leaf),
            final(self)@.contains(r@),
            old(self)@.contains(r@) ==> final(self)@ == old(self)@,
            !old(self)@.contains(r@) ==> final(self)@ == old(self)@.push(r@),
    {
        let ghost want = make_seg(name@, text@, is_leaf);
        let mut i: usize = 0;
        while i < self.segments.len()
            invariant
                0 <= i <= self.segments.len(),
                self.wf(),
                want == make_seg(name@, text@, is_leaf),
                forall|j: int| 0 <= j < i ==> intern_key(#[trigger] self@[j]) != intern_key(want),
            decreases self.segments.len() - i,
        {
            let s = self.segments[i];
            assert(s@ == self@[i as int]);
            let same = s.is_leaf == is_leaf && str_eq(s.name.as_str(), name) && str_eq(s.text.as_str(), text);
            assert(same == (intern_key(self@[i as int]) == intern_key(want)));
            if same {
                assert(seg_wf(self@[i as int]));
                assert(s@ == want);
                return s;
            }
            i = i + 1;
        }
        assert(!self@.contains(want)) by {
            if self@.contains(want) {
                let j = choose|j: int| 0 <= j < self@.len() && self@[j] == want;
                assert(intern_key(self@[j]) == intern_key(want));
            }
        }
        let seg = MPSegment::new(name.to_string(), text.to_string(), is_leaf);
        let r: &'static MPSegment = leak(Box::new(seg));
        let ghost before = self@;
        self.segments.push(r);
        proof {
            assert(self@ =~= before.push(r@));
            assert(self@[before.len() as int] == r@);
        }
        r
    }

    /// The normalized variable numbered `n`: a leaf named `VAR_RULE_NAME` whose text is
    /// `<__X`, the number and `>`.
    pub fn make_var(&mut self, n: usize) -> (r: &'static MPSegment)
        requires
            old(self).wf(),
        ensures
            final(self).wf(),
            r@ == make_seg(var_rule_name(), var_text(n as nat), true),
            final(self)@.contains(r@),
    {
        proof {
            reveal_strlit("<__X");
            reveal_strlit(">");
        }
        let mut text = String::from_str("<__X");
        let digits = usize_decimal(n);
        text.append(digits.as_str());
        text.append(">");
        assert(text@ =~= var_text(n as nat));
        self.intern(var_rule_name_str(), text.as_str(), true)
    }

    /// The path of a lone fact root: a non-leaf segment named `FACT_RULE_NAME` with text `0`.
    pub fn empty_path(&mut self) -> (r: MPPath<'static>)
        requires
            old(self).wf(),
        ensures
            final(self).wf(),
            r.wf(),
            r@ == seq![make_seg(fact_rule_name(), seq!['0'], false)],
    {
        proof {
            reveal_strlit("0");
        }
        let zero = "0";
        assert(zero@ =~= seq!['0']);
        let root = self.intern(fact_rule_name_str(), zero, false);
        let mut segments: Vec<&'static MPSegment> = Vec::new();
        segments.push(root);
        let r = MPPath::new(segments);
        assert(segments@[0]@ == root@);
        assert(r@ =~= seq![make_seg(fact_rule_name(), seq!['0'], false)]);
        r
    }
}

} // verus!
