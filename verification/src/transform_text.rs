//! The text of a list of transforms: `<X1> = expr` binds a numeric expression, `<X1> := expr`
//! a string one; transforms are separated by `;`, with white space allowed around the
//! separators and the binding signs. Each expression runs up to the next `;`.
use vstd::prelude::*;

use crate::text::{chars_of, string_from_chars};

verus! {

/// A transform as plain values: whether its expression is numeric, the text of its
/// variable, and the text of its expression.
pub type TransformView = (bool, Seq<char>, Seq<char>);

/// White space between the parts of a transform.
pub open spec fn is_space(c: char) -> bool {
    c == ' ' || c == '\t' || c == '\r' || c == '\n'
}

/// Where the white space from `i` on ends.
pub open spec fn ws_end(cs: Seq<char>, i: int) -> int
    decreases cs.len() - i,
{
    if 0 <= i < cs.len() && is_space(cs[i]) {
        ws_end(cs, i + 1)
    } else {
        i
    }
}

/// Where the decimal digits from `i` on end.
pub open spec fn digits_end(cs: Seq<char>, i: int) -> int
    decreases cs.len() - i,
{
    if 0 <= i < cs.len() && '0' <= cs[i] <= '9' {
        digits_end(cs, i + 1)
    } else {
        i
    }
}

/// Where the text up to the next `;` from `i` on ends.
pub open spec fn expr_end(cs: Seq<char>, i: int) -> int
    decreases cs.len() - i,
{
    if 0 <= i < cs.len() && cs[i] != ';' {
        expr_end(cs, i + 1)
    } else {
        i
    }
}

/// Where a variable written at `i` ends: `<`, an optional `__`, `X`, digits and `>`.
pub open spec fn var_end(cs: Seq<char>, i: int) -> Option<int> {
    if 0 <= i < cs.len() && cs[i] == '<' {
        let j = if cs.len() - i > 2 && cs[i + 1] == '_' && cs[i + 2] == '_' {
            i + 3
        } else {
            i + 1
        };
        if j < cs.len() && cs[j] == 'X' {
            let k = digits_end(cs, j + 1);
            if k > j + 1 && k < cs.len() && cs[k] == '>' {
                Some(k + 1)
            } else {
                None
            }
        } else {
            None
        }
    } else {
        None
    }
}

/// The transform written at `i`, and where it ends: its variable, then `:=` and a string
/// expression, or `=` and a numeric one; an expression is not empty.
pub open spec fn transform_at(cs: Seq<char>, i: int) -> Option<(TransformView, int)> {
    match var_end(cs, i) {
        Some(ve) => {
            let a = ws_end(cs, ve);
            let var = cs.subrange(i, ve);
            if a < cs.len() && cs.len() - a > 1 && cs[a] == ':' && cs[a + 1] == '=' {
                let b = ws_end(cs, a + 2);
                let e = expr_end(cs, b);
                if e > b {
                    Some(((false, var, cs.subrange(b, e)), e))
                } else {
                    None
                }
            } else if a < cs.len() && cs[a] == '=' {
                let b = ws_end(cs, a + 1);
                let e = expr_end(cs, b);
                if e > b {
                    Some(((true, var, cs.subrange(b, e)), e))
                } else {
                    None
                }
            } else {
                None
            }
        },
        None => None,
    }
}

/// The transforms that follow a transform ending at `i`, each after a `;`; the list stops
/// where no `;` and transform follow.
pub open spec fn transforms_after(cs: Seq<char>, i: int) -> Seq<TransformView>
    decreases cs.len() - i,
{
    let a = ws_end(cs, i);
    if i >= 0 && a >= i && a < cs.len() && cs[a] == ';' {
        match transform_at(cs, ws_end(cs, a + 1)) {
            Some((t, e)) => if e > a && e <= cs.len() {
                seq![t] + transforms_after(cs, e)
            } else {
                Seq::empty()
            },
            None => Seq::empty(),
        }
    } else {
        Seq::empty()
    }
}

/// The transforms that a text starts with, `None` where it does not start with one.
pub open spec fn transforms_of(cs: Seq<char>) -> Option<Seq<TransformView>> {
    match transform_at(cs, 0) {
        Some((t, e)) => Some(seq![t] + transforms_after(cs, e)),
        None => None,
    }
}

/// A transform read from its text.
pub struct Transform {
    pub numeric: bool,
    pub var: String,
    pub expr: String,
}

/// The transforms of a list, as plain values.
pub open spec fn transforms_view(v: Seq<Transform>) -> Seq<TransformView> {
    v.map_values(|t: Transform| (t.numeric, t.var@, t.expr@))
}

fn ws_end_exec(cs: &Vec<char>, i: usize) -> (r: usize)
    requires
        i <= cs@.len(),
    ensures
        r == ws_end(cs@, i as int),
        i <= r <= cs@.len(),
{
    let mut j = i;
    while j < cs.len() && (cs[j] == ' ' || cs[j] == '\t' || cs[j] == '\r' || cs[j] == '\n')
        invariant
            i <= j <= cs@.len(),
            ws_end(cs@, j as int) == ws_end(cs@, i as int),
        decreases cs@.len() - j,
    {
        j = j + 1;
    }
    j
}

pub(crate) fn digits_end_exec(cs: &Vec<char>, i: usize) -> (r: usize)
    requires
        i <= cs@.len(),
    ensures
        r == digits_end(cs@, i as int),
        i <= r <= cs@.len(),
{
    let mut j = i;
    while j < cs.len() && '0' <= cs[j] && cs[j] <= '9'
        invariant
            i <= j <= cs@.len(),
            digits_end(cs@, j as int) == digits_end(cs@, i as int),
        decreases cs@.len() - j,
    {
        j = j + 1;
    }
    j
}

fn expr_end_exec(cs: &Vec<char>, i: usize) -> (r: usize)
    requires
        i <= cs@.len(),
    ensures
        r == expr_end(cs@, i as int),
        i <= r <= cs@.len(),
{
    let mut j = i;
    while j < cs.len() && cs[j] != ';'
        invariant
            i <= j <= cs@.len(),
            expr_end(cs@, j as int) == expr_end(cs@, i as int),
        decreases cs@.len() - j,
    {
        j = j + 1;
    }
    j
}

pub(crate) fn var_end_exec(cs: &Vec<char>, i: usize) -> (r: Option<usize>)
    requires
        i <= cs@.len(),
    ensures
        r matches Some(e) ==> var_end(cs@, i as int) == Some(e as int) && e <= cs@.len(),
        r is None ==> var_end(cs@, i as int) is None,
{
    if i < cs.len() && cs[i] == '<' {
        let j = if cs.len() - i > 2 && cs[i + 1] == '_' && cs[i + 2] == '_' {
            i + 3
        } else {
            i + 1
        };
        if j < cs.len() && cs[j] == 'X' {
            let k = digits_end_exec(cs, j + 1);
            if k > j + 1 && k < cs.len() && cs[k] == '>' {
                Some(k + 1)
            } else {
                None
            }
        } else {
            None
        }
    } else {
        None
    }
}

/// The characters of `cs` from `a` to `b`, as a string.
pub(crate) fn slice_string(cs: &Vec<char>, a: usize, b: usize) -> (r: String)
    requires
        a <= b <= cs@.len(),
    ensures
        r@ == cs@.subrange(a as int, b as int),
{
    let mut out: Vec<char> = Vec::new();
    let mut k = a;
    while k < b
        invariant
            a <= k <= b,
            b <= cs@.len(),
            out@ == cs@.subrange(a as int, k as int),
        decreases b - k,
    {
        out.push(cs[k]);
        k = k + 1;
        assert(out@ =~= cs@.subrange(a as int, k as int));
    }
    string_from_chars(&out)
}

fn transform_at_exec(cs: &Vec<char>, i: usize) -> (r: Option<(Transform, usize)>)
    requires
        i <= cs@.len(),
    ensures
        match r {
            Some((t, e)) => transform_at(cs@, i as int) == Some(((t.numeric, t.var@, t.expr@), e as int)) && e <= cs@.len(),
            None => transform_at(cs@, i as int) is None,
        },
{
    let ve = match var_end_exec(cs, i) {
        Some(ve) => ve,
        None => {
            return None;
        },
    };
    let a = ws_end_exec(cs, ve);
    let numeric: bool;
    let b: usize;
    if a < cs.len() && cs.len() - a > 1 && cs[a] == ':' && cs[a + 1] == '=' {
        numeric = false;
        b = ws_end_exec(cs, a + 2);
    } else if a < cs.len() && cs[a] == '=' {
        numeric = true;
        b = ws_end_exec(cs, a + 1);
    } else {
        return None;
    }
    let e = expr_end_exec(cs, b);
    if e > b {
        let var = slice_string(cs, i, ve);
        let expr = slice_string(cs, b, e);
        Some((Transform { numeric, var, expr }, e))
    } else {
        None
    }
}

/// The transforms that a text starts with, read as `transforms_of` says; `None` where it
/// does not start with one.
pub fn read_transforms(source: &str) -> (r: Option<Vec<Transform>>)
    ensures
        match r {
            Some(v) => transforms_of(source@) == Some(transforms_view(v@)),
            None => transforms_of(source@) is None,
        },
{
    let cs = chars_of(source);
    let (first, mut pos) = match transform_at_exec(&cs, 0) {
        Some(p) => p,
        None => {
            return None;
        },
    };
    let ghost t0 = (first.numeric, first.var@, first.expr@);
    let mut out: Vec<Transform> = Vec::new();
    out.push(first);
    proof {
        assert(transforms_view(out@) =~= seq![t0]);
    }
    loop
        invariant
            pos <= cs@.len(),
            cs@ == source@,
            transform_at(cs@, 0) matches Some((t, e)) && seq![t] + transforms_after(cs@, e)
                == transforms_view(out@) + transforms_after(cs@, pos as int),
        ensures
            transforms_after(cs@, pos as int) == Seq::<TransformView>::empty(),
        decreases cs@.len() - pos,
    {
        let a = ws_end_exec(&cs, pos);
        if !(a < cs.len() && cs[a] == ';') {
            assert(transforms_after(cs@, pos as int) =~= Seq::<TransformView>::empty());
            break;
        }
        let b = ws_end_exec(&cs, a + 1);
        match transform_at_exec(&cs, b) {
            Some((t, e)) => {
                if e > a {
                    let ghost tv = (t.numeric, t.var@, t.expr@);
                    let ghost before = transforms_view(out@);
                    out.push(t);
                    proof {
                        assert(transforms_view(out@) =~= before.push(tv));
                        assert(transforms_after(cs@, pos as int) == seq![tv] + transforms_after(cs@, e as int));
                        assert(before + (seq![tv] + transforms_after(cs@, e as int)) =~= before.push(tv) + transforms_after(cs@, e as int));
                    }
                    pos = e;
                } else {
                    assert(transforms_after(cs@, pos as int) =~= Seq::<TransformView>::empty());
                    break;
                }
            },
            None => {
                assert(transforms_after(cs@, pos as int) =~= Seq::<TransformView>::empty());
                break;
            },
        }
    }
    proof {
        assert(transforms_view(out@) + Seq::<TransformView>::empty() =~= transforms_view(out@));
        let (t, e) = transform_at(cs@, 0)->0;
        assert(transforms_of(cs@) == Some(seq![t] + transforms_after(cs@, e)));
        assert(transforms_of(source@) == Some(transforms_view(out@)));
    }
    Some(out)
}

} // verus!
