//! Transforms: new bindings that a rule computes from those it matched, with numeric
//! expressions (which the grammar's parser evaluates) or string expressions.
use vstd::prelude::*;

use crate::matching::{MPMatching, SegKey};
use crate::parser::{FactParser, MPParser};
use crate::segment::{seg_key, SegView};
use crate::str_expr::str_expr_value;
use crate::transform_num::TNParser;
use crate::transform_str::TSParser;
use crate::transform_text::{read_transforms, transforms_of, transforms_view, Transform, TransformView};

verus! {

/// The parser of transforms: it reads a list of transforms and computes, for each, the value
/// it binds to its variable.
pub struct TParser {}

/// The variable that a transform binds, as a variable's key.
pub open spec fn transform_key(t: TransformView) -> SegKey {
    ("var"@, t.1)
}

/// The variables that the transforms bind.
pub open spec fn transform_keys(ts: Seq<TransformView>) -> Set<SegKey> {
    Set::new(|k: SegKey| exists|i: int| 0 <= i < ts.len() && transform_key(#[trigger] ts[i]) == k)
}

/// Whether every transform of `ts` binds a string expression.
pub open spec fn all_string(ts: Seq<TransformView>) -> bool {
    forall|i: int| 0 <= i < ts.len() ==> !(#[trigger] ts[i]).0
}

/// The bindings after the string transforms `ts` are applied in turn to `m`: each binds its
/// variable to the value of its expression under the bindings so far; `None` where one of
/// them has no value.
pub open spec fn str_transforms_applied(ts: Seq<TransformView>, m: Map<SegKey, SegView>) -> Option<Map<SegKey, SegView>>
    decreases ts.len(),
{
    if ts.len() == 0 {
        Some(m)
    } else {
        match str_expr_value(ts[0].2, m) {
            Some(v) => str_transforms_applied(ts.drop_first(), m.insert(transform_key(ts[0]), v)),
            None => None,
        }
    }
}

impl TParser {
    /// A parser of transforms.
    pub fn new() -> (r: TParser) {
        TParser {}
    }

    /// The matching with the bindings of the transforms written in `source` added in turn,
    /// as `apply_transforms` adds them; `None` where `source` does not start with a
    /// transform.
    pub fn process_transforms<G: FactParser>(&self, parser: &mut MPParser<G>, source: &str, matching: MPMatching<'static>) -> (r: Option<MPMatching<'static>>)
        requires
            old(parser).wf(),
            matching.wf(),
        ensures
            final(parser).wf(),
            final(parser).grammar == old(parser).grammar,
            final(parser).flexicon == old(parser).flexicon,
            transforms_of(source@) is None ==> r is None,
            transforms_of(source@) is Some && all_string(transforms_of(source@)->0) ==> match r {
                Some(m) => str_transforms_applied(transforms_of(source@)->0, matching@) == Some(m@),
                None => str_transforms_applied(transforms_of(source@)->0, matching@) is None,
            },
            r matches Some(m) ==> {
                &&& transforms_of(source@) matches Some(ts)
                &&& m.wf()
                &&& m@.dom() == matching@.dom().union(transform_keys(ts))
                &&& forall|k: SegKey|
                    #[trigger] matching@.contains_key(k) && !transform_keys(ts).contains(k) ==> m@[k] == matching@[k]
            },
    {
        let list = match read_transforms(source) {
            Some(l) => l,
            None => {
                return None;
            },
        };
        self.apply_transforms(parser, &list, matching)
    }

    /// The matching with the bindings of the transforms of `list` added in turn: each binds
    /// its variable to the value of its numeric or string expression under the bindings so
    /// far. The other bindings stay as they were. `None` where an expression has no value.
    pub fn apply_transforms<G: FactParser>(&self, parser: &mut MPParser<G>, list: &Vec<Transform>, bindings: MPMatching<'static>) -> (r: Option<MPMatching<'static>>)
        requires
            old(parser).wf(),
            bindings.wf(),
        ensures
            final(parser).wf(),
            final(parser).grammar == old(parser).grammar,
            final(parser).flexicon == old(parser).flexicon,
            list@.len() == 0 ==> (r matches Some(m) && m@ == bindings@),
            all_string(transforms_view(list@)) ==> match r {
                Some(m) => str_transforms_applied(transforms_view(list@), bindings@) == Some(m@),
                None => str_transforms_applied(transforms_view(list@), bindings@) is None,
            },
            r matches Some(m) ==> {
                &&& m.wf()
                &&& m@.dom() == bindings@.dom().union(transform_keys(transforms_view(list@)))
                &&& forall|k: SegKey|
                    #[trigger] bindings@.contains_key(k) && !transform_keys(transforms_view(list@)).contains(k) ==> m@[k] == bindings@[k]
            },
    {
        let ghost ts = transforms_view(list@);
        let ghost m0 = bindings@;
        let mut matching = bindings;
        let num_parser = TNParser::new();
        let str_parser = TSParser::new();
        let mut i: usize = 0;
        proof {
            assert(transform_keys(ts.take(0)) =~= Set::<SegKey>::empty());
            assert(m0.dom().union(Set::<SegKey>::empty()) =~= m0.dom());
            assert(ts.skip(0) =~= ts);
        }
        while i < list.len()
            invariant
                0 <= i <= list@.len(),
                ts == transforms_view(list@),
                m0 == bindings@,
                parser.wf(),
                parser.grammar == old(parser).grammar,
                parser.flexicon == old(parser).flexicon,
                matching.wf(),
                matching@.dom() == m0.dom().union(transform_keys(ts.take(i as int))),
                forall|k: SegKey|
                    #[trigger] m0.contains_key(k) && !transform_keys(ts.take(i as int)).contains(k) ==> matching@[k] == m0[k],
                all_string(ts) ==> str_transforms_applied(ts, m0) == str_transforms_applied(ts.skip(i as int), matching@),
            decreases list@.len() - i,
        {
            let t = &list[i];
            let ghost tv = ts[i as int];
            let ghost mb = matching@;
            assert(tv == (t.numeric, t.var@, t.expr@));
            proof {
                assert(ts.skip(i as int)[0] == tv);
                assert(ts.skip(i as int).drop_first() =~= ts.skip(i + 1));
                assert(ts.take(i + 1).drop_last() =~= ts.take(i as int));
                assert(ts.take(i + 1).last() == tv);
            }
            let var = parser.lexicon.intern("var", t.var.as_str(), true);
            let value = if t.numeric {
                num_parser.compile(parser, t.expr.as_str(), &matching)
            } else {
                str_parser.compile(parser, t.expr.as_str(), &matching)
            };
            match value {
                Some(v) => {
                    matching.insert(var, v);
                    proof {
                        reveal_strlit("var");
                        assert(seg_key(var@) == transform_key(tv));
                        let ks = transform_keys(ts.take(i + 1));
                        assert(ks =~= transform_keys(ts.take(i as int)).insert(transform_key(tv))) by {
                            assert forall|k: SegKey| ks.contains(k) implies transform_keys(ts.take(i as int)).insert(transform_key(tv)).contains(k) by {
                                let j = choose|j: int| 0 <= j < ts.take(i + 1).len() && transform_key(#[trigger] ts.take(i + 1)[j]) == k;
                                if j < i {
                                    assert(ts.take(i as int)[j] == ts.take(i + 1)[j]);
                                }
                            }
                            assert forall|k: SegKey| transform_keys(ts.take(i as int)).insert(transform_key(tv)).contains(k) implies ks.contains(k) by {
                                if k == transform_key(tv) {
                                    assert(ts.take(i + 1)[i as int] == tv);
                                } else {
                                    let j = choose|j: int| 0 <= j < ts.take(i as int).len() && transform_key(#[trigger] ts.take(i as int)[j]) == k;
                                    assert(ts.take(i + 1)[j] == ts.take(i as int)[j]);
                                }
                            }
                        }
                        assert(matching@.dom() =~= m0.dom().union(ks));
                    }
                },
                None => {
                    proof {
                        if all_string(ts) {
                            assert(!tv.0);
                            assert(str_expr_value(tv.2, mb) is None);
                            assert(str_transforms_applied(ts.skip(i as int), mb) is None);
                            assert(str_transforms_applied(ts, m0) is None);
                        }
                    }
                    return None;
                },
            }
            proof {
                if all_string(ts) {
                    assert(!tv.0);
                    reveal_strlit("var");
                    assert(seg_key(var@) == transform_key(tv));
                    assert(str_transforms_applied(ts.skip(i as int), mb) == str_transforms_applied(ts.skip(i + 1), matching@));
                }
            }
            i = i + 1;
        }
        assert(ts.take(ts.len() as int) =~= ts);
        assert(ts.skip(ts.len() as int) =~= Seq::<TransformView>::empty());
        proof {
            if ts.len() == 0 {
                assert(transform_keys(ts) =~= Set::<SegKey>::empty());
                assert(matching@ =~= m0);
            }
        }
        Some(matching)
    }
}

} // verus!
