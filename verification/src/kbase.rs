//! The interface of a knowledge base: what is told is kept with its consequences, and can be
//! asked.
use vstd::prelude::*;

use crate::knowledge::KBError;
use crate::text::trimmed;

verus! {

/// A knowledge base: what is told is kept, with its consequences, and can be asked.
pub trait KBase {
    /// The knowledge base is well formed.
    spec fn kb_wf(&self) -> bool;

    /// The texts of the facts of a text of knowledge, in order, as the grammar reads it;
    /// `None` where the grammar does not read it.
    spec fn kb_facts_of(&self, knowledge: Seq<char>) -> Option<Seq<Seq<char>>>;

    /// The text `t` was read as a fact and, where that fact is ground and of leaf values and
    /// every fact stored is of leaf values, it is found.
    spec fn kb_told_found(&self, t: Seq<char>) -> bool;

    /// The text `t` was read as a ground fact of leaf values, and every fact stored is of
    /// leaf values.
    spec fn kb_ground(&self, t: Seq<char>) -> bool;

    /// The text `t` was read as a fact, and that fact, as a query, has an answer.
    spec fn kb_answered(&self, t: Seq<char>) -> bool;

    /// Tells a text of knowledge, without the white space around it; says whether all its
    /// consequences were drawn. Where they were, every fact of the text is found as told.
    fn tell(&mut self, knowledge: &str) -> (r: Result<bool, KBError>)
        requires
            old(self).kb_wf(),
        ensures
            final(self).kb_wf(),
            forall|k: Seq<char>| #[trigger] final(self).kb_facts_of(k) == old(self).kb_facts_of(k),
            forall|t: Seq<char>| #[trigger] old(self).kb_told_found(t) ==> final(self).kb_told_found(t),
            (r matches Err(KBError::Knowledge(_))) <==> old(self).kb_facts_of(trimmed(knowledge@)) is None,
            r == Ok::<bool, KBError>(true) ==> forall|i: int|
                0 <= i < old(self).kb_facts_of(trimmed(knowledge@))->0.len() ==> final(self).kb_told_found(
                    #[trigger] old(self).kb_facts_of(trimmed(knowledge@))->0[i],
                ),
    ;

    /// Whether the last fact of a text, used as a query, has an answer. A fact found as told,
    /// ground and of leaf values, is answered.
    fn ask(&mut self, knowledge: &str) -> (r: Result<bool, KBError>)
        requires
            old(self).kb_wf(),
        ensures
            final(self).kb_wf(),
            forall|k: Seq<char>| #[trigger] final(self).kb_facts_of(k) == old(self).kb_facts_of(k),
            forall|t: Seq<char>| #[trigger] old(self).kb_told_found(t) ==> final(self).kb_told_found(t),
            (r matches Err(KBError::Knowledge(_))) <==> old(self).kb_facts_of(knowledge@) is None,
            (r matches Err(KBError::NoFact)) <==> (old(self).kb_facts_of(knowledge@) matches Some(ts) && ts.len() == 0),
            r matches Ok(b) ==> (old(self).kb_facts_of(knowledge@) matches Some(ts) && ts.len() > 0 && b == final(self).kb_answered(ts.last())),
            (old(self).kb_facts_of(knowledge@) matches Some(ts) && ts.len() > 0 && old(self).kb_told_found(ts.last())
                && old(self).kb_ground(ts.last())) ==> r == Ok::<bool, KBError>(true),
    ;
}

/// A maker of knowledge bases over one grammar.
pub trait KBGen {
    type Output: KBase;

    /// A new, empty knowledge base.
    fn gen_kb() -> Self::Output;
}

} // verus!
