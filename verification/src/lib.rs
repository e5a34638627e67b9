use vstd::prelude::*;

pub mod activation;
pub mod constants;
pub mod fact;
pub mod facttree;
pub mod kbase;
pub mod knowledge;
pub mod lexicon;
pub mod matching;
pub mod parser;
pub mod parsetree;
pub mod path;
pub mod ruletree;
pub mod pathmap;
pub mod segment;
pub mod str_expr;
pub mod syntax;
pub mod text;
pub mod transform;
pub mod transform_num;
pub mod transform_str;
pub mod transform_text;

verus! {
}
