//! Positioned segments: a production's name and text together with where the text starts
//! and ends in the source, in bytes.
use vstd::prelude::*;

use crate::constants::{var_rule_name, var_rule_name_str};
use vstd::string::StringSliceAdditionalSpecFns;
use crate::lexicon::var_text;
use crate::text::{decimal, lemma_decimal_ascii, str_eq, usize_decimal};

verus! {

#[derive(Debug)]
pub struct Segment {
    pub text: String,
    pub name: String,
    pub start: usize,
    pub end: usize,
    pub is_leaf: bool,
    pub is_var: bool,
}

impl Segment {
    /// A segment whose text starts at byte `start` and ends after its UTF-8 bytes; it is a
    /// variable when its name is `VAR_RULE_NAME`.
    pub fn make_segment(name: &str, text: &str, start: usize, is_leaf: bool) -> (r: Segment)
        requires
            start + text.spec_bytes().len() <= usize::MAX,
        ensures
            r.name@ == name@,
            r.text@ == text@,
            r.start == start,
            r.end == start + text.spec_bytes().len(),
            r.is_leaf == is_leaf,
            r.is_var == (name@ == var_rule_name()),
    {
        let end = start + text.len();
        let is_var = str_eq(name, var_rule_name_str());
        Segment {
            name: name.to_string(),
            text: text.to_string(),
            start: start,
            end: end,
            is_leaf: is_leaf,
            is_var: is_var,
        }
    }

    /// The variable numbered `n`: a leaf named `VAR_RULE_NAME` with text `<__X`, the number,
    /// `>`, starting at byte 0.
    pub fn make_var(n: u16) -> (r: Segment)
        ensures
            r.name@ == var_rule_name(),
            r.text@ == var_text(n as nat),
            r.start == 0,
            r.end == r.text@.len(),
            r.is_leaf,
            r.is_var,
    {
        proof {
            reveal_strlit("<__X");
            reveal_strlit(">");
        }
        let mut text = String::from_str("<__X");
        let digits = usize_decimal(n as usize);
        text.append(digits.as_str());
        text.append(">");
        let ts = text.as_str();
        proof {
            lemma_decimal_ascii(n as nat);
            let t = text@;
            assert(t =~= var_text(n as nat));
            assert(vstd::utf8::is_ascii_chars(t)) by {
                assert forall|i: int| 0 <= i < t.len() implies '\0' <= #[trigger] t[i] <= '\u{7f}' by {
                    if 4 <= i < t.len() - 1 {
                        assert(t[i] == decimal(n as nat)[i - 4]);
                    }
                }
            }
            vstd::utf8::is_ascii_chars_encode_utf8(t);
            assert(ts.spec_bytes().len() == t.len());
        }
        Segment::make_segment(var_rule_name_str(), ts, 0, true)
    }
}

impl PartialEq for Segment {
    fn eq(&self, other: &Self) -> (r: bool) {
        self.name == other.name && self.text == other.text
    }
}

impl vstd::std_specs::cmp::PartialEqSpecImpl for Segment {
    open spec fn obeys_eq_spec() -> bool {
        true
    }

    open spec fn eq_spec(&self, other: &Self) -> bool {
        self.name@ == other.name@ && self.text@ == other.text@
    }
}

impl Eq for Segment {

}

impl std::hash::Hash for Segment {
    /// Feeds the name and then the text to the hasher, through std's `Hash` for `String`, so
    /// that equal segments hash alike.
    #[verifier::external_body]
    fn hash<H: std::hash::Hasher>(&self, state: &mut H) {
        self.name.hash(state);
        self.text.hash(state);
    }
}

} // verus!
