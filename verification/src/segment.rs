//! Segments: the nodes of a fact's parse tree, each a grammar production's name and the text
//! it matched.
use vstd::prelude::*;

use crate::constants::{var_range_prefix, var_range_prefix_str, var_rule_name, var_rule_name_str};
use crate::text::{blank, has_prefix, is_blank, str_eq, str_starts_with};

verus! {

/// What a segment is, as plain values.
pub struct SegView {
    pub name: Seq<char>,
    pub text: Seq<char>,
    pub is_leaf: bool,
    pub is_var: bool,
    pub in_var_range: bool,
    pub is_empty: bool,
}

/// The identity of a segment, by which segments compare equal: its name and its text.
pub open spec fn seg_key(s: SegView) -> (Seq<char>, Seq<char>) {
    (s.name, s.text)
}

/// The segment that `MPSegment::new` builds from a name, a text and whether it is a leaf.
pub open spec fn make_seg(name: Seq<char>, text: Seq<char>, is_leaf: bool) -> SegView {
    SegView {
        name,
        text,
        is_leaf,
        is_var: name == var_rule_name(),
        in_var_range: has_prefix(name, var_range_prefix()),
        is_empty: is_blank(text),
    }
}

/// A segment whose flags agree with its name and text.
pub open spec fn seg_wf(s: SegView) -> bool {
    s == make_seg(s.name, s.text, s.is_leaf)
}

#[derive(Debug, Hash)]
pub struct MPSegment {
    pub text: String,
    pub name: String,
    pub is_leaf: bool,
    pub is_var: bool,
    pub in_var_range: bool,
    pub is_empty: bool,
}

impl View for MPSegment {
    type V = SegView;

    open spec fn view(&self) -> SegView {
        SegView {
            name: self.name@,
            text: self.text@,
            is_leaf: self.is_leaf,
            is_var: self.is_var,
            in_var_range: self.in_var_range,
            is_empty: self.is_empty,
        }
    }
}

impl MPSegment {
    /// Builds a segment; it is a variable when its name is `VAR_RULE_NAME`, it can stand for a
    /// variable when its name starts with `VAR_RANGE_PREFIX`, and it is empty when its text is
    /// white space only.
    pub fn new(name: String, text: String, is_leaf: bool) -> (r: MPSegment)
        ensures
            r@ == make_seg(name@, text@, is_leaf),
    {
        let is_var = str_eq(name.as_str(), var_rule_name_str());
        let in_var_range = str_starts_with(name.as_str(), var_range_prefix_str());
        let is_empty = blank(text.as_str());
        MPSegment { name, text, is_leaf, is_var, in_var_range, is_empty }
    }

    /// A copy of the segment.
    pub fn duplicate(&self) -> (r: MPSegment)
        ensures
            r@ == self@,
    {
        MPSegment {
            name: self.name.clone(),
            text: self.text.clone(),
            is_leaf: self.is_leaf,
            is_var: self.is_var,
            in_var_range: self.in_var_range,
            is_empty: self.is_empty,
        }
    }

    /// Whether two segments have the same name and text.
    pub fn same(&self, other: &MPSegment) -> (r: bool)
        ensures
            r == (seg_key(self@) == seg_key(other@)),
    {
        self.name == other.name && self.text == other.text
    }

    /// The segment shown as its name, a colon, a space and its text.
    pub fn to_display_string(&self) -> (r: String)
        ensures
            r@ == self.name@ + seq![':', ' '] + self.text@,
    {
        let mut s = self.name.clone();
        proof {
            reveal_strlit(": ");
        }
        s.append(": ");
        s.append(self.text.as_str());
        s
    }
}

impl PartialEq for MPSegment {
    fn eq(&self, other: &Self) -> (r: bool) {
        self.name == other.name && self.text == other.text
    }
}

impl vstd::std_specs::cmp::PartialEqSpecImpl for MPSegment {
    open spec fn obeys_eq_spec() -> bool {
        true
    }

    open spec fn eq_spec(&self, other: &Self) -> bool {
        self.name@ == other.name@ && self.text@ == other.text@
    }
}

impl Eq for MPSegment {

}

} // verus!
