//! String expressions of transforms: their values, computed from the values of their
//! operands with string operators.
use vstd::prelude::*;

use crate::lexicon::Lexicon;
use crate::matching::{MPMatching, SegKey};
use crate::parser::{FactParser, MPParser};
use crate::parsetree::ParseNode;
use crate::segment::{make_seg, seg_key, MPSegment, SegView};
use crate::str_expr::str_expr_value;
use crate::text::{chars_of, decimal, str_eq, string_from_chars, usize_decimal};

verus! {

/// `p` occurs in `s` at position `i`.
pub open spec fn occurs_at(s: Seq<char>, p: Seq<char>, i: int) -> bool {
    0 <= i && i + p.len() <= s.len() && s.subrange(i, i + p.len()) == p
}

/// The first position from `i` on where `p` occurs in `s`, if any.
pub open spec fn find_from(s: Seq<char>, p: Seq<char>, i: int) -> Option<int>
    decreases s.len() - i,
{
    if i < 0 || i + p.len() > s.len() {
        None
    } else if occurs_at(s, p, i) {
        Some(i)
    } else if i >= s.len() {
        None
    } else {
        find_from(s, p, i + 1)
    }
}

proof fn lemma_find_from_occurs(s: Seq<char>, p: Seq<char>, i: int)
    requires
        find_from(s, p, i) is Some,
    ensures
        occurs_at(s, p, find_from(s, p, i)->0),
    decreases s.len() - i,
{
    if !(i < 0 || i + p.len() > s.len()) && !occurs_at(s, p, i) && i < s.len() {
        lemma_find_from_occurs(s, p, i + 1);
    }
}

/// `s` with every occurrence of `p`, taken from the left without overlaps, replaced by `to`;
/// an empty `p` occurs before every character and at the end.
pub open spec fn replaced(s: Seq<char>, p: Seq<char>, to: Seq<char>) -> Seq<char>
    decreases s.len(),
{
    if p.len() == 0 {
        if s.len() == 0 {
            to
        } else {
            to + seq![s[0]] + replaced(s.drop_first(), p, to)
        }
    } else if s.len() == 0 {
        Seq::empty()
    } else if occurs_at(s, p, 0) {
        to + replaced(s.skip(p.len() as int), p, to)
    } else {
        seq![s[0]] + replaced(s.drop_first(), p, to)
    }
}

/// The value of a decimal digit character, 0 for any other character.
pub open spec fn digit_value(c: char) -> nat {
    if '0' <= c && c <= '9' {
        (c as nat - '0' as nat) as nat
    } else {
        0
    }
}

/// The number that a string of decimal digits writes.
pub open spec fn digits_value(d: Seq<char>) -> nat
    decreases d.len(),
{
    if d.len() == 0 {
        0
    } else {
        digits_value(d.drop_last()) * 10 + digit_value(d.last())
    }
}

/// Every character is a decimal digit.
pub open spec fn all_digits(d: Seq<char>) -> bool {
    forall|i: int| 0 <= i < d.len() ==> '0' <= #[trigger] d[i] && d[i] <= '9'
}

/// What std's `usize::from_str` reads from a text: an optional `+`, then decimal digits, at
/// least one, whose number fits in a `usize`.
pub open spec fn parse_usize(s: Seq<char>) -> Option<nat> {
    let d = if s.len() > 0 && s[0] == '+' {
        s.drop_first()
    } else {
        s
    };
    if d.len() > 0 && all_digits(d) && digits_value(d) <= usize::MAX {
        Some(digits_value(d))
    } else {
        None
    }
}

/// The number of bytes of the UTF-8 encoding of a text.
pub open spec fn utf8_len(s: Seq<char>) -> nat {
    vstd::utf8::encode_utf8(s).len()
}

/// A leaf segment with the given name and text.
pub open spec fn leaf(name: Seq<char>, text: Seq<char>) -> SegView {
    make_seg(name, text, true)
}

/// What a one-place string operator gives.
pub open spec fn monadic_value(op: Seq<char>, a: SegView) -> Option<SegView> {
    if op == "len"@ {
        Some(leaf("v_decimal"@, decimal(utf8_len(a.text))))
    } else {
        None
    }
}

/// What a two-place string operator gives.
pub open spec fn dyadic_value(op: Seq<char>, a: SegView, b: SegView) -> Option<SegView> {
    if op == "index_of"@ {
        Some(
            leaf(
                "v_decimal"@,
                match find_from(a.text, b.text, 0) {
                    Some(p) => decimal(utf8_len(a.text.take(p))),
                    None => "-1"@,
                },
            ),
        )
    } else if op == "concat"@ {
        Some(leaf(a.name, a.text + b.text))
    } else {
        None
    }
}

/// What a three-place string operator gives.
pub open spec fn triadic_value(op: Seq<char>, a: SegView, b: SegView, c: SegView) -> Option<SegView> {
    if op == "substring"@ {
        match (parse_usize(b.text), parse_usize(c.text)) {
            (Some(x), Some(y)) => {
                let n = a.text.len();
                let start = if x < n {
                    x as int
                } else {
                    n as int
                };
                let end = if start + y < n {
                    start + y
                } else {
                    n as int
                };
                Some(leaf(a.name, a.text.subrange(start, end)))
            },
            _ => None,
        }
    } else if op == "replace"@ {
        Some(leaf(a.name, replaced(a.text, b.text, c.text)))
    } else {
        None
    }
}

/// The value of a string expression under the bindings `m`: numbers and strings stand for
/// themselves, a variable for its value, an operator applies to the values of its operands;
/// `None` where a variable is unbound or an operator or production is not known.
pub open spec fn str_value(t: ParseNode, m: Map<SegKey, SegView>) -> Option<SegView>
    decreases t,
{
    let n = t.name@;
    let cs = t.children@;
    if n == "monadicExpr"@ {
        if cs.len() >= 2 {
            match str_value(cs[1], m) {
                Some(a) => monadic_value(cs[0].text@, a),
                None => None,
            }
        } else {
            None
        }
    } else if n == "dyadicExpr"@ {
        if cs.len() >= 3 {
            match (str_value(cs[1], m), str_value(cs[2], m)) {
                (Some(a), Some(b)) => dyadic_value(cs[0].text@, a, b),
                _ => None,
            }
        } else {
            None
        }
    } else if n == "triadicExpr"@ {
        if cs.len() >= 4 {
            match (str_value(cs[1], m), str_value(cs[2], m), str_value(cs[3], m)) {
                (Some(a), Some(b), Some(c)) => triadic_value(cs[0].text@, a, b, c),
                _ => None,
            }
        } else {
            None
        }
    } else if n == "v_decimal"@ {
        Some(leaf("v_decimal"@, t.text@))
    } else if n == "v_string"@ {
        Some(leaf("v_string"@, t.text@))
    } else if n == "var"@ {
        let k = seg_key(leaf("var"@, t.text@));
        if m.contains_key(k) {
            Some(m[k])
        } else {
            None
        }
    } else {
        None
    }
}

/// Whether `p` occurs in `s` at position `i`.
fn occurs(s: &Vec<char>, p: &Vec<char>, i: usize) -> (r: bool)
    ensures
        r == occurs_at(s@, p@, i as int),
{
    if i > s.len() || p.len() > s.len() - i {
        return false;
    }
    let mut k: usize = 0;
    while k < p.len()
        invariant
            0 <= k <= p.len(),
            i + p.len() <= s.len(),
            forall|j: int| 0 <= j < k ==> s@[i + j] == p@[j],
        decreases p.len() - k,
    {
        if s[i + k] != p[k] {
            assert(s@.subrange(i as int, i + p.len())[k as int] != p@[k as int]);
            return false;
        }
        k = k + 1;
    }
    assert(s@.subrange(i as int, i + p.len()) =~= p@);
    true
}

/// The first position where `p` occurs in `s`, if any.
fn find_chars(s: &Vec<char>, p: &Vec<char>) -> (r: Option<usize>)
    ensures
        match r {
            Some(i) => find_from(s@, p@, 0) == Some(i as int),
            None => find_from(s@, p@, 0) is None,
        },
{
    if p.len() > s.len() {
        return None;
    }
    if p.len() == 0 {
        assert(s@.subrange(0, 0) =~= p@);
        return Some(0);
    }
    let last = s.len() - p.len();
    let mut i: usize = 0;
    while i <= last
        invariant
            0 <= i <= last + 1,
            last + p.len() == s.len(),
            p.len() > 0,
            find_from(s@, p@, 0) == find_from(s@, p@, i as int),
        decreases last + 1 - i,
    {
        if occurs(s, p, i) {
            return Some(i);
        }
        i = i + 1;
    }
    None
}

proof fn lemma_replaced_step(s: Seq<char>, p: Seq<char>, to: Seq<char>, i: int)
    requires
        0 <= i < s.len(),
    ensures
        p.len() == 0 ==> replaced(s.skip(i), p, to) == to + seq![s[i]] + replaced(s.skip(i + 1), p, to),
        p.len() > 0 && occurs_at(s, p, i) ==> replaced(s.skip(i), p, to) == to + replaced(s.skip(i + p.len()), p, to),
        p.len() > 0 && !occurs_at(s, p, i) ==> replaced(s.skip(i), p, to) == seq![s[i]] + replaced(s.skip(i + 1), p, to),
{
    let t = s.skip(i);
    assert(t.drop_first() =~= s.skip(i + 1));
    assert(t[0] == s[i]);
    if p.len() > 0 && i + p.len() <= s.len() {
        assert(t.subrange(0, p.len() as int) =~= s.subrange(i, i + p.len()));
        assert(t.skip(p.len() as int) =~= s.skip(i + p.len()));
    }
}

/// `s` with the occurrences of `p` replaced by `to`, as std's `str::replace` does it.
fn replace_chars(s: &Vec<char>, p: &Vec<char>, to: &Vec<char>) -> (r: Vec<char>)
    ensures
        r@ == replaced(s@, p@, to@),
{
    let mut out: Vec<char> = Vec::new();
    let mut i: usize = 0;
    assert(s@.skip(0) =~= s@);
    while i < s.len()
        invariant
            0 <= i <= s.len(),
            out@ + replaced(s@.skip(i as int), p@, to@) == replaced(s@, p@, to@),
        decreases s.len() - i,
    {
        proof {
            lemma_replaced_step(s@, p@, to@, i as int);
        }
        let ghost before = out@;
        if p.len() == 0 {
            let mut k: usize = 0;
            while k < to.len()
                invariant
                    0 <= k <= to.len(),
                    out@ == before + to@.take(k as int),
                decreases to.len() - k,
            {
                out.push(to[k]);
                k = k + 1;
                assert(out@ =~= before + to@.take(k as int));
            }
            out.push(s[i]);
            assert(out@ =~= before + to@ + seq![s@[i as int]]);
            assert(before + (to@ + seq![s@[i as int]] + replaced(s@.skip(i + 1), p@, to@)) =~= out@ + replaced(s@.skip(i + 1), p@, to@));
            i = i + 1;
        } else if occurs(s, p, i) {
            let mut k: usize = 0;
            while k < to.len()
                invariant
                    0 <= k <= to.len(),
                    out@ == before + to@.take(k as int),
                decreases to.len() - k,
            {
                out.push(to[k]);
                k = k + 1;
                assert(out@ =~= before + to@.take(k as int));
            }
            assert(to@.take(to@.len() as int) =~= to@);
            assert(before + (to@ + replaced(s@.skip(i + p@.len()), p@, to@)) =~= out@ + replaced(s@.skip(i + p@.len()), p@, to@));
            i = i + p.len();
        } else {
            out.push(s[i]);
            assert(before + (seq![s@[i as int]] + replaced(s@.skip(i + 1), p@, to@)) =~= out@ + replaced(s@.skip(i + 1), p@, to@));
            i = i + 1;
        }
    }
    if p.len() == 0 {
        let ghost before = out@;
        let mut k: usize = 0;
        while k < to.len()
            invariant
                0 <= k <= to.len(),
                out@ == before + to@.take(k as int),
            decreases to.len() - k,
        {
            out.push(to[k]);
            k = k + 1;
            assert(out@ =~= before + to@.take(k as int));
        }
        assert(to@.take(to@.len() as int) =~= to@);
    }
    assert(s@.skip(i as int) =~= Seq::<char>::empty());
    assert(out@ + Seq::<char>::empty() =~= out@);
    out
}

proof fn lemma_digits_monotone(d: Seq<char>, k: int)
    requires
        0 <= k <= d.len(),
    ensures
        digits_value(d.take(k)) <= digits_value(d),
    decreases d.len() - k,
{
    if k < d.len() {
        lemma_digits_monotone(d, k + 1);
        assert(d.take(k + 1).drop_last() =~= d.take(k));
    } else {
        assert(d.take(k) =~= d);
    }
}

/// The number that `s` writes, read as std's `usize::from_str` reads it.
fn parse_usize_chars(s: &Vec<char>) -> (r: Option<usize>)
    ensures
        match r {
            Some(v) => parse_usize(s@) == Some(v as nat),
            None => parse_usize(s@) is None,
        },
{
    let start: usize = if s.len() > 0 && s[0] == '+' { 1 } else { 0 };
    let ghost d = if s@.len() > 0 && s@[0] == '+' { s@.drop_first() } else { s@ };
    assert(d =~= s@.skip(start as int));
    if start >= s.len() {
        assert(d.len() == 0);
        return None;
    }
    let mut v: usize = 0;
    let mut i: usize = start;
    assert(d.take(0) =~= Seq::<char>::empty());
    while i < s.len()
        invariant
            start <= i <= s.len(),
            d =~= s@.skip(start as int),
            d == (if s@.len() > 0 && s@[0] == '+' { s@.drop_first() } else { s@ }),
            v as nat == digits_value(d.take(i - start)),
            all_digits(d.take(i - start)),
        decreases s.len() - i,
    {
        let c = s[i];
        let k: usize = i - start;
        assert(d[k as int] == c);
        assert(d.take(k + 1).drop_last() =~= d.take(k as int));
        if c < '0' || c > '9' {
            assert(!all_digits(d));
            return None;
        }
        let dv: usize = if c == '0' { 0 } else if c == '1' { 1 } else if c == '2' { 2 } else if c == '3' { 3 }
            else if c == '4' { 4 } else if c == '5' { 5 } else if c == '6' { 6 } else if c == '7' { 7 }
            else if c == '8' { 8 } else { 9 };
        assert(dv == digit_value(c));
        assert(d.take(k + 1).last() == c);
        assert(digits_value(d.take(k + 1)) == v * 10 + dv);
        match v.checked_mul(10) {
            Some(t) => {
                match t.checked_add(dv) {
                    Some(w) => {
                        v = w;
                    },
                    None => {
                        proof {
                            lemma_digits_monotone(d, k + 1);
                        }
                        assert(digits_value(d) > usize::MAX);
                        return None;
                    },
                }
            },
            None => {
                proof {
                    lemma_digits_monotone(d, k + 1);
                }
                assert(digits_value(d) > usize::MAX);
                return None;
            },
        }
        i = i + 1;
        assert(all_digits(d.take(i - start))) by {
            assert forall|j: int| 0 <= j < d.take(i - start).len() implies '0' <= #[trigger] d.take(i - start)[j] && d.take(i - start)[j] <= '9' by {
                if j < k {
                    assert(d.take(i - start)[j] == d.take(k as int)[j]);
                }
            }
        }
    }
    assert(d.take(i - start) =~= d);
    Some(v)
}

/// The evaluator of string expressions.
pub struct TSParser {}

impl TSParser {
    /// An evaluator.
    pub fn new() -> (r: TSParser) {
        TSParser {}
    }

    /// The value of the string expression that `source` starts with, under `matching`,
    /// as `str_expr_value` says; `None` where no expression is written there or it has no
    /// value (an unbound variable, an operand that is no number where one is needed).
    pub fn compile<G: FactParser>(&self, parser: &mut MPParser<G>, source: &str, matching: &MPMatching<'static>) -> (r: Option<&'static MPSegment>)
        requires
            old(parser).wf(),
            matching.wf(),
        ensures
            final(parser).wf(),
            final(parser).grammar == old(parser).grammar,
            final(parser).flexicon == old(parser).flexicon,
            match r {
                Some(s) => str_expr_value(source@, matching@) == Some(s@),
                None => str_expr_value(source@, matching@) is None,
            },
    {
        let cs = chars_of(source);
        match self.eval_at(&mut parser.lexicon, &cs, 0, matching) {
            Some((v, _)) => v,
            None => None,
        }
    }

    /// The value of the string expression `node` under `matching`, interned in the lexicon.
    pub fn compile_expr(&self, lexicon: &mut Lexicon, node: &ParseNode, matching: &MPMatching<'static>) -> (r: Option<&'static MPSegment>)
        requires
            old(lexicon).wf(),
            matching.wf(),
        ensures
            final(lexicon).wf(),
            match r {
                Some(s) => str_value(*node, matching@) == Some(s@),
                None => str_value(*node, matching@) is None,
            },
        decreases *node,
    {
        let cs = &node.children;
        if str_eq(node.name.as_str(), "monadicExpr") {
            if cs.len() < 2 {
                return None;
            }
            let a = match self.compile_expr(lexicon, &cs[1], matching) {
                Some(a) => a,
                None => {
                    return None;
                },
            };
            self.parse_monadic_op(lexicon, &cs[0], a)
        } else if str_eq(node.name.as_str(), "dyadicExpr") {
            if cs.len() < 3 {
                return None;
            }
            let a = match self.compile_expr(lexicon, &cs[1], matching) {
                Some(a) => a,
                None => {
                    return None;
                },
            };
            let b = match self.compile_expr(lexicon, &cs[2], matching) {
                Some(b) => b,
                None => {
                    return None;
                },
            };
            self.parse_dyadic_op(lexicon, &cs[0], a, b)
        } else if str_eq(node.name.as_str(), "triadicExpr") {
            if cs.len() < 4 {
                return None;
            }
            let a = match self.compile_expr(lexicon, &cs[1], matching) {
                Some(a) => a,
                None => {
                    return None;
                },
            };
            let b = match self.compile_expr(lexicon, &cs[2], matching) {
                Some(b) => b,
                None => {
                    return None;
                },
            };
            let c = match self.compile_expr(lexicon, &cs[3], matching) {
                Some(c) => c,
                None => {
                    return None;
                },
            };
            self.parse_triadic_op(lexicon, &cs[0], a, b, c)
        } else if str_eq(node.name.as_str(), "v_decimal") {
            Some(lexicon.intern("v_decimal", node.text.as_str(), true))
        } else if str_eq(node.name.as_str(), "v_string") {
            Some(lexicon.intern("v_string", node.text.as_str(), true))
        } else if str_eq(node.name.as_str(), "var") {
            let var = lexicon.intern("var", node.text.as_str(), true);
            matching.get(var)
        } else {
            None
        }
    }

    /// What the one-place operator `op` gives for `a`.
    pub(crate) fn parse_monadic_op(&self, lexicon: &mut Lexicon, op: &ParseNode, a: &MPSegment) -> (r: Option<&'static MPSegment>)
        requires
            old(lexicon).wf(),
        ensures
            final(lexicon).wf(),
            match r {
                Some(s) => monadic_value(op.text@, a@) == Some(s@),
                None => monadic_value(op.text@, a@) is None,
            },
    {
        if str_eq(op.text.as_str(), "len") {
            let n = a.text.as_str().as_bytes().len();
            let digits = usize_decimal(n);
            Some(lexicon.intern("v_decimal", digits.as_str(), true))
        } else {
            None
        }
    }

    /// What the two-place operator `op` gives for `a` and `b`.
    pub(crate) fn parse_dyadic_op(&self, lexicon: &mut Lexicon, op: &ParseNode, a: &MPSegment, b: &MPSegment) -> (r: Option<&'static MPSegment>)
        requires
            old(lexicon).wf(),
        ensures
            final(lexicon).wf(),
            match r {
                Some(s) => dyadic_value(op.text@, a@, b@) == Some(s@),
                None => dyadic_value(op.text@, a@, b@) is None,
            },
    {
        if str_eq(op.text.as_str(), "index_of") {
            let ca = chars_of(a.text.as_str());
            let cb = chars_of(b.text.as_str());
            match find_chars(&ca, &cb) {
                Some(p) => {
                    proof {
                        lemma_find_from_occurs(ca@, cb@, 0);
                    }
                    let mut head: Vec<char> = Vec::new();
                    let mut k: usize = 0;
                    while k < p
                        invariant
                            0 <= k <= p,
                            p <= ca@.len(),
                            head@ == ca@.take(k as int),
                        decreases p - k,
                    {
                        head.push(ca[k]);
                        k = k + 1;
                        assert(head@ =~= ca@.take(k as int));
                    }
                    let hs = string_from_chars(&head);
                    let n = hs.as_str().as_bytes().len();
                    let digits = usize_decimal(n);
                    Some(lexicon.intern("v_decimal", digits.as_str(), true))
                },
                None => Some(lexicon.intern("v_decimal", "-1", true)),
            }
        } else if str_eq(op.text.as_str(), "concat") {
            let mut t = a.text.clone();
            t.append(b.text.as_str());
            Some(lexicon.intern(a.name.as_str(), t.as_str(), true))
        } else {
            None
        }
    }

    /// What the three-place operator `op` gives for `a`, `b` and `c`.
    pub(crate) fn parse_triadic_op(&self, lexicon: &mut Lexicon, op: &ParseNode, a: &MPSegment, b: &MPSegment, c: &MPSegment) -> (r: Option<&'static MPSegment>)
        requires
            old(lexicon).wf(),
        ensures
            final(lexicon).wf(),
            match r {
                Some(s) => triadic_value(op.text@, a@, b@, c@) == Some(s@),
                None => triadic_value(op.text@, a@, b@, c@) is None,
            },
    {
        if str_eq(op.text.as_str(), "substring") {
            let x = match parse_usize_chars(&chars_of(b.text.as_str())) {
                Some(x) => x,
                None => {
                    return None;
                },
            };
            let y = match parse_usize_chars(&chars_of(c.text.as_str())) {
                Some(y) => y,
                None => {
                    return None;
                },
            };
            let ca = chars_of(a.text.as_str());
            let n = ca.len();
            let start = if x < n { x } else { n };
            let end = if y < n - start { start + y } else { n };
            let mut sub: Vec<char> = Vec::new();
            let mut k: usize = start;
            while k < end
                invariant
                    start <= k <= end,
                    end <= ca@.len(),
                    sub@ == ca@.subrange(start as int, k as int),
                decreases end - k,
            {
                sub.push(ca[k]);
                k = k + 1;
                assert(sub@ =~= ca@.subrange(start as int, k as int));
            }
            let t = string_from_chars(&sub);
            Some(lexicon.intern(a.name.as_str(), t.as_str(), true))
        } else if str_eq(op.text.as_str(), "replace") {
            let ca = chars_of(a.text.as_str());
            let cb = chars_of(b.text.as_str());
            let cc = chars_of(c.text.as_str());
            let out = replace_chars(&ca, &cb, &cc);
            let t = string_from_chars(&out);
            Some(lexicon.intern(a.name.as_str(), t.as_str(), true))
        } else {
            None
        }
    }
}

} // verus!
