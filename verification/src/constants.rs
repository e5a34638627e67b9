//! Names that the knowledge grammar reserves.
use vstd::prelude::*;

verus! {

/// Name of the grammar production that holds variables.
pub const VAR_RULE_NAME: &'static str = "var";

/// Prefix of the names of the productions that variables can stand for.
pub const VAR_RANGE_PREFIX: &'static str = "v_";

/// Name of the production at the root of every fact.
pub const FACT_RULE_NAME: &'static str = "fact";

/// The characters of `VAR_RULE_NAME`.
pub open spec fn var_rule_name() -> Seq<char> {
    seq!['v', 'a', 'r']
}

/// The characters of `VAR_RANGE_PREFIX`.
pub open spec fn var_range_prefix() -> Seq<char> {
    seq!['v', '_']
}

/// The characters of `FACT_RULE_NAME`.
pub open spec fn fact_rule_name() -> Seq<char> {
    seq!['f', 'a', 'c', 't']
}

/// `VAR_RULE_NAME`, with the knowledge of its characters.
pub fn var_rule_name_str() -> (r: &'static str)
    ensures
        r@ == var_rule_name(),
{
    proof {
        reveal_strlit("var");
    }
    VAR_RULE_NAME
}

/// `VAR_RANGE_PREFIX`, with the knowledge of its characters.
pub fn var_range_prefix_str() -> (r: &'static str)
    ensures
        r@ == var_range_prefix(),
{
    proof {
        reveal_strlit("v_");
    }
    VAR_RANGE_PREFIX
}

/// `FACT_RULE_NAME`, with the knowledge of its characters.
pub fn fact_rule_name_str() -> (r: &'static str)
    ensures
        r@ == fact_rule_name(),
{
    proof {
        reveal_strlit("fact");
    }
    FACT_RULE_NAME
}

}
