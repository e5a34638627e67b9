//! The text of a string expression, read and evaluated at once: `len(e)`,
//! `index_of(e, e)`, `concat(e, e)`, `substring(e, e, e)`, `replace(e, e, e)`, a number
//! (`-`, digits, and a fraction), a string between single quotes, or a variable; spaces and
//! tabs may stand between the parts of an operator. The expression is read from the start
//! of the text; what follows it is not read.
use vstd::prelude::*;

use crate::lexicon::Lexicon;
use crate::matching::{MPMatching, SegKey};
use crate::parsetree::ParseNode;
use crate::segment::{seg_key, MPSegment, SegView};
use crate::transform_str::{dyadic_value, leaf, monadic_value, triadic_value, TSParser};
use crate::transform_text::{digits_end, digits_end_exec, slice_string, var_end, var_end_exec};

verus! {

/// Where the spaces and tabs from `i` on end.
pub open spec fn sws(cs: Seq<char>, i: int) -> int
    decreases cs.len() - i,
{
    if 0 <= i < cs.len() && (cs[i] == ' ' || cs[i] == '\t') {
        sws(cs, i + 1)
    } else {
        i
    }
}

/// `w` is written at position `i`.
pub open spec fn word_at(cs: Seq<char>, i: int, w: Seq<char>) -> bool {
    0 <= i && i + w.len() <= cs.len() && cs.subrange(i, i + w.len()) == w
}

/// The operator written at `i`, with the number of its operands.
pub open spec fn op_at(cs: Seq<char>, i: int) -> Option<(Seq<char>, nat)> {
    if word_at(cs, i, "substring"@) {
        Some(("substring"@, 3))
    } else if word_at(cs, i, "replace"@) {
        Some(("replace"@, 3))
    } else if word_at(cs, i, "index_of"@) {
        Some(("index_of"@, 2))
    } else if word_at(cs, i, "concat"@) {
        Some(("concat"@, 2))
    } else if word_at(cs, i, "len"@) {
        Some(("len"@, 1))
    } else {
        None
    }
}

/// Where a number written at `i` ends: an optional `-`, digits, and optionally `.` and
/// digits.
pub open spec fn number_end(cs: Seq<char>, i: int) -> Option<int> {
    let j = if 0 <= i < cs.len() && cs[i] == '-' { i + 1 } else { i };
    let k = digits_end(cs, j);
    if k == j {
        None
    } else if k < cs.len() && cs[k] == '.' && digits_end(cs, k + 1) > k + 1 {
        Some(digits_end(cs, k + 1))
    } else {
        Some(k)
    }
}

/// Where the text up to the next single quote from `i` on ends.
pub open spec fn quote_end(cs: Seq<char>, i: int) -> int
    decreases cs.len() - i,
{
    if 0 <= i < cs.len() && cs[i] != '\'' {
        quote_end(cs, i + 1)
    } else {
        i
    }
}

/// What an operator gives for the values of its operands, where they all have one.
pub open spec fn op_value(w: Seq<char>, vs: Seq<Option<SegView>>) -> Option<SegView> {
    if exists|i: int| 0 <= i < vs.len() && #[trigger] vs[i] is None {
        None
    } else if vs.len() == 1 {
        monadic_value(w, vs[0]->0)
    } else if vs.len() == 2 {
        dyadic_value(w, vs[0]->0, vs[1]->0)
    } else if vs.len() == 3 {
        triadic_value(w, vs[0]->0, vs[1]->0, vs[2]->0)
    } else {
        None
    }
}

/// The expression written at `i` under the bindings `m`: its value, if it has one, and
/// where it ends; `None` where no expression is written there.
pub open spec fn expr_at(cs: Seq<char>, i: int, m: Map<SegKey, SegView>) -> Option<(Option<SegView>, int)>
    decreases cs.len() - i, 0int,
{
    if i < 0 || i >= cs.len() {
        None
    } else {
        match op_at(cs, i) {
            Some((w, n)) => {
                let o = sws(cs, i + w.len());
                if o < cs.len() && cs[o] == '(' && o + 1 > i {
                    let p = sws(cs, o + 1);
                    if p > i && p <= cs.len() {
                        match args_at(cs, p, n, m) {
                            Some((vs, e)) => {
                                let c = sws(cs, e);
                                if c < cs.len() && cs[c] == ')' {
                                    Some((op_value(w, vs), c + 1))
                                } else {
                                    None
                                }
                            },
                            None => None,
                        }
                    } else {
                        None
                    }
                } else {
                    None
                }
            },
            None => if cs[i] == '-' || ('0' <= cs[i] <= '9') {
                match number_end(cs, i) {
                    Some(e) => Some((Some(leaf("v_decimal"@, cs.subrange(i, e))), e)),
                    None => None,
                }
            } else if cs[i] == '\'' {
                let q = quote_end(cs, i + 1);
                if q < cs.len() {
                    Some((Some(leaf("v_string"@, cs.subrange(i, q + 1))), q + 1))
                } else {
                    None
                }
            } else {
                match var_end(cs, i) {
                    Some(e) => {
                        let k = seg_key(leaf("var"@, cs.subrange(i, e)));
                        Some((if m.contains_key(k) { Some(m[k]) } else { None }, e))
                    },
                    None => None,
                }
            },
        }
    }
}

/// The `n` operands written from `p` on, separated by commas: their values and where the
/// last ends.
pub open spec fn args_at(cs: Seq<char>, p: int, n: nat, m: Map<SegKey, SegView>) -> Option<(Seq<Option<SegView>>, int)>
    decreases cs.len() - p, 1int, n,
{
    if p < 0 || p > cs.len() || n == 0 {
        None
    } else {
        match expr_at(cs, p, m) {
            Some((v, e)) => if n == 1 {
                Some((seq![v], e))
            } else {
                let c = sws(cs, e);
                if e >= p && c < cs.len() && cs[c] == ',' {
                    let q = sws(cs, c + 1);
                    if q > p && q <= cs.len() {
                        match args_at(cs, q, (n - 1) as nat, m) {
                            Some((vs, e2)) => Some((seq![v] + vs, e2)),
                            None => None,
                        }
                    } else {
                        None
                    }
                } else {
                    None
                }
            },
            None => None,
        }
    }
}

/// The value of the string expression that a text starts with, under the bindings `m`;
/// `None` where it starts with none or the expression has no value.
pub open spec fn str_expr_value(cs: Seq<char>, m: Map<SegKey, SegView>) -> Option<SegView> {
    match expr_at(cs, 0, m) {
        Some((v, _)) => v,
        None => None,
    }
}

fn sws_exec(cs: &Vec<char>, i: usize) -> (r: usize)
    requires
        i <= cs@.len(),
    ensures
        r == sws(cs@, i as int),
        i <= r <= cs@.len(),
{
    let mut j = i;
    while j < cs.len() && (cs[j] == ' ' || cs[j] == '\t')
        invariant
            i <= j <= cs@.len(),
            sws(cs@, j as int) == sws(cs@, i as int),
        decreases cs@.len() - j,
    {
        j = j + 1;
    }
    j
}

fn word_at_exec(cs: &Vec<char>, i: usize, w: &str) -> (r: bool)
    requires
        i <= cs@.len(),
    ensures
        r == word_at(cs@, i as int, w@),
{
    let ws = crate::text::chars_of(w);
    if ws.len() > cs.len() - i {
        return false;
    }
    let mut k: usize = 0;
    while k < ws.len()
        invariant
            0 <= k <= ws@.len(),
            ws@ == w@,
            i + ws@.len() <= cs@.len(),
            i + ws.len() <= cs.len(),
            forall|j: int| 0 <= j < k ==> cs@[i + j] == ws@[j],
        decreases ws@.len() - k,
    {
        if cs[i + k] != ws[k] {
            assert(cs@.subrange(i as int, i + ws@.len())[k as int] != w@[k as int]);
            return false;
        }
        k = k + 1;
    }
    assert(cs@.subrange(i as int, i + ws@.len()) =~= w@);
    true
}

/// The values of a list, as plain values.
pub open spec fn values_view(v: Seq<Option<&MPSegment>>) -> Seq<Option<SegView>> {
    v.map_values(|o: Option<&MPSegment>| match o {
        Some(s) => Some(s@),
        None => None,
    })
}

impl TSParser {
    /// The expression written at `i` in `cs`, read and evaluated under `matching`, as
    /// `expr_at` says; values are interned in the lexicon.
    pub fn eval_at(&self, lexicon: &mut Lexicon, cs: &Vec<char>, i: usize, matching: &MPMatching<'static>) -> (r: Option<(Option<&'static MPSegment>, usize)>)
        requires
            old(lexicon).wf(),
            matching.wf(),
            i <= cs@.len(),
        ensures
            final(lexicon).wf(),
            match r {
                Some((v, e)) => expr_at(cs@, i as int, matching@) == Some((
                    match v {
                        Some(s) => Some(s@),
                        None => None,
                    },
                    e as int,
                )) && e <= cs@.len(),
                None => expr_at(cs@, i as int, matching@) is None,
            },
        decreases cs@.len() - i, 0int,
    {
        proof {
            reveal_strlit("substring");
            reveal_strlit("replace");
            reveal_strlit("index_of");
            reveal_strlit("concat");
            reveal_strlit("len");
        }
        if i >= cs.len() {
            return None;
        }
        let (word, n, wl): (&str, usize, usize) = if word_at_exec(cs, i, "substring") {
            ("substring", 3, 9)
        } else if word_at_exec(cs, i, "replace") {
            ("replace", 3, 7)
        } else if word_at_exec(cs, i, "index_of") {
            ("index_of", 2, 8)
        } else if word_at_exec(cs, i, "concat") {
            ("concat", 2, 6)
        } else if word_at_exec(cs, i, "len") {
            ("len", 1, 3)
        } else {
            ("", 0, 0)
        };
        if n > 0 {
            assert(op_at(cs@, i as int) == Some((word@, n as nat)));
            assert(wl == word@.len());
            let o = sws_exec(cs, i + wl);
            if !(o < cs.len() && cs[o] == '(') {
                return None;
            }
            let p = sws_exec(cs, o + 1);
            let (vs, e) = match self.args_at(lexicon, cs, p, n, matching) {
                Some(x) => x,
                None => {
                    return None;
                },
            };
            let c = sws_exec(cs, e);
            if !(c < cs.len() && cs[c] == ')') {
                return None;
            }
            let op = ParseNode { name: String::from_str("op"), text: String::from_str(word), children: Vec::new() };
            let value = self.apply_op(lexicon, &op, &vs);
            Some((value, c + 1))
        } else {
            assert(op_at(cs@, i as int) is None);
            if cs[i] == '-' || ('0' <= cs[i] && cs[i] <= '9') {
                let j = if cs[i] == '-' { i + 1 } else { i };
                let k = digits_end_exec(cs, j);
                if k == j {
                    return None;
                }
                let e = if k < cs.len() && cs[k] == '.' {
                    let f = digits_end_exec(cs, k + 1);
                    if f > k + 1 { f } else { k }
                } else {
                    k
                };
                let text = slice_string(cs, i, e);
                let s = lexicon.intern("v_decimal", text.as_str(), true);
                proof {
                    reveal_strlit("v_decimal");
                }
                Some((Some(s), e))
            } else if cs[i] == '\'' {
                let mut q = i + 1;
                while q < cs.len() && cs[q] != '\''
                    invariant
                        i + 1 <= q <= cs@.len(),
                        quote_end(cs@, q as int) == quote_end(cs@, i + 1),
                    decreases cs@.len() - q,
                {
                    q = q + 1;
                }
                if q >= cs.len() {
                    return None;
                }
                let text = slice_string(cs, i, q + 1);
                let s = lexicon.intern("v_string", text.as_str(), true);
                proof {
                    reveal_strlit("v_string");
                }
                Some((Some(s), q + 1))
            } else {
                let e = match var_end_exec(cs, i) {
                    Some(e) => e,
                    None => {
                        return None;
                    },
                };
                let text = slice_string(cs, i, e);
                let var = lexicon.intern("var", text.as_str(), true);
                proof {
                    reveal_strlit("var");
                }
                Some((matching.get(var), e))
            }
        }
    }

    /// The `n` operands written from `p` on, as `args_at` says.
    fn args_at(&self, lexicon: &mut Lexicon, cs: &Vec<char>, p: usize, n: usize, matching: &MPMatching<'static>) -> (r: Option<(Vec<Option<&'static MPSegment>>, usize)>)
        requires
            old(lexicon).wf(),
            matching.wf(),
            p <= cs@.len(),
            1 <= n <= 3,
        ensures
            final(lexicon).wf(),
            match r {
                Some((vs, e)) => args_at(cs@, p as int, n as nat, matching@) == Some((values_view(vs@), e as int)) && e <= cs@.len(),
                None => args_at(cs@, p as int, n as nat, matching@) is None,
            },
        decreases cs@.len() - p, 1int, n,
    {
        let (v, e) = match self.eval_at(lexicon, cs, p, matching) {
            Some(x) => x,
            None => {
                return None;
            },
        };
        let mut vs: Vec<Option<&'static MPSegment>> = Vec::new();
        vs.push(v);
        if n == 1 {
            assert(values_view(vs@) =~= seq![match v { Some(s) => Some(s@), None => None }]);
            return Some((vs, e));
        }
        let c = sws_exec(cs, e);
        if !(e >= p && c < cs.len() && cs[c] == ',') {
            return None;
        }
        let q = sws_exec(cs, c + 1);
        if !(q > p) {
            return None;
        }
        let (rest, e2) = match self.args_at(lexicon, cs, q, n - 1, matching) {
            Some(x) => x,
            None => {
                return None;
            },
        };
        let mut k: usize = 0;
        while k < rest.len()
            invariant
                0 <= k <= rest@.len(),
                values_view(vs@) == seq![match v { Some(s) => Some(s@), None => None }] + values_view(rest@).take(k as int),
            decreases rest@.len() - k,
        {
            let ghost before = vs@;
            vs.push(rest[k]);
            assert(values_view(rest@).take(k + 1) =~= values_view(rest@).take(k as int).push(values_view(rest@)[k as int]));
            assert(values_view(vs@) =~= values_view(before).push(values_view(rest@)[k as int]));
            k = k + 1;
        }
        assert(values_view(rest@).take(rest@.len() as int) =~= values_view(rest@));
        Some((vs, e2))
    }

    /// What the operator `op` gives for the values `vs`, as `op_value` says.
    fn apply_op(&self, lexicon: &mut Lexicon, op: &ParseNode, vs: &Vec<Option<&'static MPSegment>>) -> (r: Option<&'static MPSegment>)
        requires
            old(lexicon).wf(),
        ensures
            final(lexicon).wf(),
            match r {
                Some(s) => op_value(op.text@, values_view(vs@)) == Some(s@),
                None => op_value(op.text@, values_view(vs@)) is None,
            },
    {
        let ghost w = values_view(vs@);
        let mut k: usize = 0;
        while k < vs.len()
            invariant
                0 <= k <= vs@.len(),
                lexicon.wf(),
                w == values_view(vs@),
                forall|j: int| 0 <= j < k ==> w[j] is Some,
            decreases vs@.len() - k,
        {
            if vs[k].is_none() {
                assert(w[k as int] is None);
                return None;
            }
            k = k + 1;
        }
        assert(!(exists|i: int| 0 <= i < w.len() && #[trigger] w[i] is None));
        if vs.len() == 1 {
            let a = vs[0].unwrap();
            self.parse_monadic_op(lexicon, op, a)
        } else if vs.len() == 2 {
            let a = vs[0].unwrap();
            let b = vs[1].unwrap();
            self.parse_dyadic_op(lexicon, op, a, b)
        } else if vs.len() == 3 {
            let a = vs[0].unwrap();
            let b = vs[1].unwrap();
            let c = vs[2].unwrap();
            self.parse_triadic_op(lexicon, op, a, b, c)
        } else {
            None
        }
    }
}

} // verus!
