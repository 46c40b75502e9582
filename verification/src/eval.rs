use vstd::prelude::*;
use vstd::string::StrSliceExecFns;

use crate::error::EvalError;
use crate::parse::{lemma_norm_add_sub, norm_char, norm_glyphs, parse_add_sub, sp_add_sub};
use crate::value::Value;

verus! {

/// A character the evaluator ignores before parsing: the Unicode whitespace
/// set (the characters with the White_Space property).
pub open spec fn is_space_char(c: char) -> bool {
    let u = c as u32;
    (9 <= u <= 13) || u == 32 || u == 0x85 || u == 0xa0 || u == 0x1680 || (0x2000 <= u <= 0x200a)
        || u == 0x2028 || u == 0x2029 || u == 0x202f || u == 0x205f || u == 0x3000
}

fn space_char(c: char) -> (r: bool)
    ensures
        r == is_space_char(c),
{
    let u = c as u32;
    (9 <= u && u <= 13) || u == 32 || u == 0x85 || u == 0xa0 || u == 0x1680 || (0x2000 <= u && u
        <= 0x200a) || u == 0x2028 || u == 0x2029 || u == 0x202f || u == 0x205f || u == 0x3000
}

/// `s` with every whitespace character removed, the rest kept in order.
pub open spec fn strip_spaces(s: Seq<char>) -> Seq<char>
    decreases s.len(),
{
    if s.len() == 0 {
        Seq::empty()
    } else if is_space_char(s.last()) {
        strip_spaces(s.drop_last())
    } else {
        strip_spaces(s.drop_last()).push(s.last())
    }
}

/// Removes every whitespace character of `text`, keeping the rest in order.
pub fn strip_whitespace(text: &str) -> (r: Vec<char>)
    ensures
        r@ == strip_spaces(text@),
{
    let n = text.unicode_len();
    let mut out: Vec<char> = Vec::new();
    let mut i: usize = 0;
    while i < n
        invariant
            n == text@.len(),
            i <= n,
            out@ == strip_spaces(text@.take(i as int)),
        decreases n - i,
    {
        let c = text.get_char(i);
        proof {
            assert(text@.take(i as int + 1).drop_last() =~= text@.take(i as int));
        }
        if !space_char(c) {
            out.push(c);
        }
        i += 1;
    }
    proof {
        assert(text@.take(n as int) =~= text@);
    }
    out
}

/// The outcome of one whole evaluation of `s`: the expression's exact value
/// as a rational `(numerator, denominator)`, or the first error met in
/// left-to-right parsing order. Whitespace is removed first; a complete parse
/// that leaves characters behind is rejected.
pub open spec fn sp_evaluate(s: Seq<char>) -> Result<(int, int), EvalError> {
    let t = strip_spaces(s);
    match sp_add_sub(t, 0) {
        Ok((n, d, j)) => {
            if j == t.len() {
                Ok((n, d))
            } else {
                Err(EvalError::TrailingInput)
            }
        },
        Err(e) => Err(e),
    }
}

/// Everything `evaluate` promises of its result for the text `s`.
pub open spec fn evaluate_post(s: Seq<char>, r: Result<Value, EvalError>) -> bool {
    match r {
        Ok(v) => v.wf() && sp_evaluate(s) == Ok::<(int, int), EvalError>(
            (v.num as int, v.den as int),
        ),
        Err(e) => sp_evaluate(s) == Err::<(int, int), EvalError>(e),
    }
}

/// Evaluates an arithmetic expression: non-negative decimal literals,
/// `+ - * /` (with `×` and `÷` accepted for `*` and `/`), and parentheses,
/// with the usual precedence and left-to-right association, in exact rational
/// arithmetic. Whitespace anywhere in the text is ignored.
pub fn evaluate(text: &str) -> (r: Result<Value, EvalError>)
    ensures
        evaluate_post(text@, r),
{
    let t = strip_whitespace(text);
    match parse_add_sub(&t, 0) {
        Ok((v, j)) => {
            if j == t.len() {
                Ok(v)
            } else {
                Err(EvalError::TrailingInput)
            }
        },
        Err(e) => Err(e),
    }
}

// ---------------------------------------------------------------------------
// Laws.
// ---------------------------------------------------------------------------

pub(crate) proof fn lemma_strip_of_spaceless(s: Seq<char>)
    requires
        forall|k: int| 0 <= k < s.len() ==> !is_space_char(s[k]),
    ensures
        strip_spaces(s) == s,
    decreases s.len(),
{
    if s.len() == 0 {
        assert(strip_spaces(s) =~= s);
    } else {
        lemma_strip_of_spaceless(s.drop_last());
        assert(s.drop_last().push(s.last()) =~= s);
    }
}

proof fn lemma_strip_spaceless(s: Seq<char>)
    ensures
        forall|k: int|
            0 <= k < strip_spaces(s).len() ==> !is_space_char(#[trigger] strip_spaces(s)[k]),
    decreases s.len(),
{
    if s.len() != 0 {
        lemma_strip_spaceless(s.drop_last());
        if !is_space_char(s.last()) {
            assert forall|k: int| 0 <= k < strip_spaces(s).len() implies !is_space_char(
                strip_spaces(s)[k],
            ) by {
                if k < strip_spaces(s.drop_last()).len() {
                    assert(strip_spaces(s)[k] == strip_spaces(s.drop_last())[k]);
                } else {
                    assert(strip_spaces(s)[k] == s.last());
                }
            }
        }
    }
}

/// Stripping whitespace distributes over concatenation.
pub(crate) proof fn lemma_strip_concat(x: Seq<char>, y: Seq<char>)
    ensures
        strip_spaces(x + y) == strip_spaces(x) + strip_spaces(y),
    decreases y.len(),
{
    if y.len() == 0 {
        assert(x + y =~= x);
        assert(strip_spaces(x) + strip_spaces(y) =~= strip_spaces(x));
    } else {
        lemma_strip_concat(x, y.drop_last());
        assert((x + y).drop_last() =~= x + y.drop_last());
        assert((x + y).last() == y.last());
        if !is_space_char(y.last()) {
            assert((strip_spaces(x) + strip_spaces(y.drop_last())).push(y.last())
                =~= strip_spaces(x) + strip_spaces(y.drop_last()).push(y.last()));
        }
    }
}

/// Stripping whitespace is idempotent: a stripped text strips to itself.
pub proof fn lemma_strip_idempotent(s: Seq<char>)
    ensures
        strip_spaces(strip_spaces(s)) == strip_spaces(s),
{
    lemma_strip_spaceless(s);
    lemma_strip_of_spaceless(strip_spaces(s));
}

/// Whitespace is insignificant: two texts that agree once whitespace is
/// removed evaluate to the same outcome. In particular a text and its
/// stripped form do (the second conclusion).
pub proof fn lemma_whitespace_insignificant(s1: Seq<char>, s2: Seq<char>)
    requires
        strip_spaces(s1) == strip_spaces(s2),
    ensures
        sp_evaluate(s1) == sp_evaluate(s2),
        sp_evaluate(strip_spaces(s1)) == sp_evaluate(s1),
{
    lemma_strip_idempotent(s1);
}

proof fn lemma_norm_strip(s: Seq<char>)
    ensures
        strip_spaces(norm_glyphs(s)) == norm_glyphs(strip_spaces(s)),
    decreases s.len(),
{
    if s.len() == 0 {
        assert(strip_spaces(norm_glyphs(s)) =~= norm_glyphs(strip_spaces(s)));
    } else {
        lemma_norm_strip(s.drop_last());
        assert(norm_glyphs(s).drop_last() =~= norm_glyphs(s.drop_last()));
        if !is_space_char(s.last()) {
            assert(norm_glyphs(strip_spaces(s.drop_last())).push(norm_char(s.last()))
                =~= norm_glyphs(strip_spaces(s.drop_last()).push(s.last())));
        }
    }
}

/// The multiplication and division glyphs behave identically to their ASCII
/// forms: a text evaluates to the same outcome as the text with every `×`
/// replaced by `*` and every `÷` replaced by `/`.
pub proof fn lemma_glyphs_insignificant(s: Seq<char>)
    ensures
        sp_evaluate(norm_glyphs(s)) == sp_evaluate(s),
{
    lemma_norm_strip(s);
    lemma_norm_add_sub(strip_spaces(s), 0);
}

/// Evaluation is a pure function of the text: any two results that meet
/// `evaluate`'s contract for the same text are equal, so re-evaluating the
/// same text any number of times yields the identical result.
pub proof fn lemma_evaluate_deterministic(
    s: Seq<char>,
    r1: Result<Value, EvalError>,
    r2: Result<Value, EvalError>,
)
    requires
        evaluate_post(s, r1),
        evaluate_post(s, r2),
    ensures
        r1 == r2,
{
    match (r1, r2) {
        (Ok(v1), Ok(v2)) => {
            assert(v1.num == v2.num && v1.den == v2.den);
        },
        _ => {},
    }
}

} // verus!
