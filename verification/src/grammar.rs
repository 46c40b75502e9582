use vstd::prelude::*;

use crate::error::EvalError;
use crate::parse::{
    digit_val, digits_in, dots_in, frac_digits, is_add_op, is_digit_char, is_mul_op, is_num_char,
    is_times, mant_from, next_at, pow10, same_at, scan_end, sp_add_sub, sp_mul_div, sp_mul_rest,
    sp_add_rest, sp_number, sp_primary,
};
use crate::eval::{
    is_space_char, lemma_strip_concat, lemma_strip_of_spaceless, sp_evaluate, strip_spaces,
};
use crate::value::{rat_add, rat_div, rat_mul, rat_sub};

verus! {

// ---------------------------------------------------------------------------
// Law: every valid expression text evaluates to its standard left-to-right,
// precedence-respecting value.
//
// A valid text is one printed from a grammar tree: literals, products of
// them, and sums of those, with parenthesized groups as atoms. The theorem
// at the end of this module states that evaluating such a text succeeds with
// exactly the value the tree denotes, unless a division by zero or an
// overflow of the exact representation occurs, in which case it fails with
// exactly that error: a valid text never draws a syntax error.
// ---------------------------------------------------------------------------

/// An atom: a numeric literal (its characters), or a parenthesized sum.
pub ghost enum Atom {
    Lit(Seq<char>),
    Group(Box<Sum>),
}

/// The factors a product holds after its first atom, in order: each an
/// operator of the product level and the atom it applies.
pub ghost enum MulRest {
    Done,
    Step(char, Atom, Box<MulRest>),
}

/// A product: one atom, then further factors.
pub ghost struct Prod {
    pub first: Atom,
    pub rest: MulRest,
}

/// The terms a sum holds after its first product, in order: each an operator
/// of the sum level and the product it applies.
pub ghost enum AddRest {
    Done,
    Step(char, Prod, Box<AddRest>),
}

/// A sum: one product, then further terms. A whole expression is a sum.
pub ghost struct Sum {
    pub first: Prod,
    pub rest: AddRest,
}

// ------------------------------- the text ---------------------------------

pub open spec fn print_atom(a: Atom) -> Seq<char>
    decreases a,
{
    match a {
        Atom::Lit(d) => d,
        Atom::Group(s) => seq!['('] + print_sum(*s) + seq![')'],
    }
}

pub open spec fn print_mul_rest(r: MulRest) -> Seq<char>
    decreases r,
{
    match r {
        MulRest::Done => Seq::empty(),
        MulRest::Step(op, a, more) => seq![op] + print_atom(a) + print_mul_rest(*more),
    }
}

pub open spec fn print_prod(p: Prod) -> Seq<char>
    decreases p,
{
    print_atom(p.first) + print_mul_rest(p.rest)
}

pub open spec fn print_add_rest(r: AddRest) -> Seq<char>
    decreases r,
{
    match r {
        AddRest::Done => Seq::empty(),
        AddRest::Step(op, p, more) => seq![op] + print_prod(p) + print_add_rest(*more),
    }
}

pub open spec fn print_sum(s: Sum) -> Seq<char>
    decreases s,
{
    print_prod(s.first) + print_add_rest(s.rest)
}

// ----------------------------- well-formedness ----------------------------

/// A well-formed literal: at least one character, all of them digits or a
/// dot, at most one dot, at least one digit.
pub open spec fn lit_valid(d: Seq<char>) -> bool {
    &&& 1 <= d.len()
    &&& forall|k: int| 0 <= k < d.len() ==> is_num_char(d[k])
    &&& dots_in(d, 0, d.len() as int) <= 1
    &&& 1 <= digits_in(d, 0, d.len() as int)
}

pub open spec fn atom_valid(a: Atom) -> bool
    decreases a,
{
    match a {
        Atom::Lit(d) => lit_valid(d),
        Atom::Group(s) => sum_valid(*s),
    }
}

pub open spec fn mul_rest_valid(r: MulRest) -> bool
    decreases r,
{
    match r {
        MulRest::Done => true,
        MulRest::Step(op, a, more) => is_mul_op(op) && atom_valid(a) && mul_rest_valid(*more),
    }
}

pub open spec fn prod_valid(p: Prod) -> bool
    decreases p,
{
    atom_valid(p.first) && mul_rest_valid(p.rest)
}

pub open spec fn add_rest_valid(r: AddRest) -> bool
    decreases r,
{
    match r {
        AddRest::Done => true,
        AddRest::Step(op, p, more) => is_add_op(op) && prod_valid(p) && add_rest_valid(*more),
    }
}

pub open spec fn sum_valid(s: Sum) -> bool
    decreases s,
{
    prod_valid(s.first) && add_rest_valid(s.rest)
}

// ------------------------ the standard evaluation --------------------------

/// The exact value of a literal, or an overflow of the representation.
pub open spec fn eval_lit(d: Seq<char>) -> Result<(int, int), EvalError> {
    match mant_from(d, 0, d.len() as int, 0) {
        None => Err(EvalError::Overflow),
        Some(m) => {
            let s = frac_digits(d, 0, d.len() as int, false);
            if s > 18 {
                Err(EvalError::Overflow)
            } else {
                Ok((m, pow10(s)))
            }
        },
    }
}

pub open spec fn eval_atom(a: Atom) -> Result<(int, int), EvalError>
    decreases a,
{
    match a {
        Atom::Lit(d) => eval_lit(d),
        Atom::Group(s) => eval_sum(*s),
    }
}

/// Folds the remaining factors onto `an/ad`, left to right; a division
/// checks its right operand against zero before it divides.
pub open spec fn eval_mul_rest(an: int, ad: int, r: MulRest) -> Result<(int, int), EvalError>
    decreases r,
{
    match r {
        MulRest::Done => Ok((an, ad)),
        MulRest::Step(op, a, more) => match eval_atom(a) {
            Err(e) => Err(e),
            Ok((bn, bd)) => {
                if is_times(op) {
                    match rat_mul(an, ad, bn, bd) {
                        Some((n, d)) => eval_mul_rest(n, d, *more),
                        None => Err(EvalError::Overflow),
                    }
                } else if bn == 0 {
                    Err(EvalError::DivisionByZero)
                } else {
                    match rat_div(an, ad, bn, bd) {
                        Some((n, d)) => eval_mul_rest(n, d, *more),
                        None => Err(EvalError::Overflow),
                    }
                }
            },
        },
    }
}

pub open spec fn eval_prod(p: Prod) -> Result<(int, int), EvalError>
    decreases p,
{
    match eval_atom(p.first) {
        Err(e) => Err(e),
        Ok((n, d)) => eval_mul_rest(n, d, p.rest),
    }
}

/// Folds the remaining terms onto `an/ad`, left to right.
pub open spec fn eval_add_rest(an: int, ad: int, r: AddRest) -> Result<(int, int), EvalError>
    decreases r,
{
    match r {
        AddRest::Done => Ok((an, ad)),
        AddRest::Step(op, p, more) => match eval_prod(p) {
            Err(e) => Err(e),
            Ok((bn, bd)) => {
                match (if op == '+' {
                    rat_add(an, ad, bn, bd)
                } else {
                    rat_sub(an, ad, bn, bd)
                }) {
                    Some((n, d)) => eval_add_rest(n, d, *more),
                    None => Err(EvalError::Overflow),
                }
            },
        },
    }
}

/// The standard value of a whole expression tree.
pub open spec fn eval_sum(s: Sum) -> Result<(int, int), EvalError>
    decreases s,
{
    match eval_prod(s.first) {
        Err(e) => Err(e),
        Ok((n, d)) => eval_add_rest(n, d, s.rest),
    }
}


// ------------------------- positional groundwork ---------------------------

proof fn lemma_scan_end_of_run(t: Seq<char>, i: int, j: int)
    requires
        0 <= i <= j <= t.len(),
        forall|m: int| i <= m < j ==> is_num_char(t[m]),
        j == t.len() || !is_num_char(t[j]),
    ensures
        scan_end(t, i) == j,
    decreases j - i,
{
    if i < j {
        lemma_scan_end_of_run(t, i + 1, j);
    }
}

/// The literal scans agree between a text `d` and any text that holds `d` as
/// the subrange starting at `i`.
proof fn lemma_shift_counts(t: Seq<char>, i: int, d: Seq<char>, k: int, acc: int, seen: bool)
    requires
        0 <= i,
        0 <= k <= d.len(),
        i + d.len() <= t.len(),
        t.subrange(i, i + d.len() as int) == d,
    ensures
        dots_in(t, i + k, i + d.len() as int) == dots_in(d, k, d.len() as int),
        digits_in(t, i + k, i + d.len() as int) == digits_in(d, k, d.len() as int),
        mant_from(t, i + k, i + d.len() as int, acc) == mant_from(d, k, d.len() as int, acc),
        frac_digits(t, i + k, i + d.len() as int, seen) == frac_digits(d, k, d.len() as int, seen),
    decreases d.len() - k,
{
    if k < d.len() {
        assert(t[i + k] == t.subrange(i, i + d.len() as int)[k]);
        let acc2 = if is_digit_char(d[k]) && acc * 10 + digit_val(d[k]) <= i64::MAX {
            acc * 10 + digit_val(d[k])
        } else {
            acc
        };
        let seen2 = if d[k] == '.' {
            true
        } else {
            seen
        };
        lemma_shift_counts(t, i, d, k + 1, acc2, seen2);
    }
}

/// A well-formed literal standing at `i`, with no digit or dot right after
/// it, is what the literal rule parses there.
proof fn lemma_parses_lit(t: Seq<char>, i: int, d: Seq<char>)
    requires
        lit_valid(d),
        0 <= i,
        i + d.len() <= t.len(),
        t.subrange(i, i + d.len() as int) == d,
        i + d.len() == t.len() || !is_num_char(t[i + d.len()]),
    ensures
        sp_number(t, i) == match eval_lit(d) {
            Ok((n, dn)) => Ok::<(int, int, int), EvalError>((n, dn, i + d.len())),
            Err(e) => Err::<(int, int, int), EvalError>(e),
        },
{
    let j = i + d.len() as int;
    assert forall|m: int| i <= m < j implies is_num_char(t[m]) by {
        assert(t[m] == t.subrange(i, j)[m - i]);
    }
    lemma_scan_end_of_run(t, i, j);
    lemma_shift_counts(t, i, d, 0, 0, false);
}


/// Splits the subrange equality over a concatenation into its two parts.
proof fn lemma_subrange_left(t: Seq<char>, i: int, x: Seq<char>, y: Seq<char>)
    requires
        0 <= i,
        i + x.len() + y.len() <= t.len(),
        t.subrange(i, i + x.len() + y.len()) == x + y,
    ensures
        t.subrange(i, i + x.len() as int) == x,
        t.subrange(i + x.len() as int, i + x.len() + y.len()) == y,
{
    assert forall|k: int| 0 <= k < x.len() implies t.subrange(i, i + x.len() as int)[k] == x[k] by {
        assert(t.subrange(i, i + x.len() + y.len())[k] == t[i + k]);
        assert((x + y)[k] == x[k]);
    }
    assert(t.subrange(i, i + x.len() as int) =~= x);
    assert forall|k: int|
        0 <= k < y.len() implies t.subrange(i + x.len() as int, i + x.len() + y.len())[k]
        == y[k] by {
        assert(t.subrange(i, i + x.len() + y.len())[x.len() + k] == t[i + x.len() + k]);
        assert((x + y)[x.len() + k] == y[k]);
    }
    assert(t.subrange(i + x.len() as int, i + x.len() + y.len()) =~= y);
}

proof fn lemma_atom_print_len(a: Atom)
    requires
        atom_valid(a),
    ensures
        1 <= print_atom(a).len(),
{
    match a {
        Atom::Lit(_) => {},
        Atom::Group(_) => {},
    }
}

/// A well-formed atom standing at `i`, with no digit or dot right after it,
/// is what the primary rule parses there.
proof fn lemma_parses_atom(t: Seq<char>, i: int, a: Atom)
    requires
        atom_valid(a),
        0 <= i,
        i + print_atom(a).len() <= t.len(),
        t.subrange(i, i + print_atom(a).len() as int) == print_atom(a),
        i + print_atom(a).len() == t.len() || !is_num_char(t[i + print_atom(a).len()]),
    ensures
        sp_primary(t, i) == match eval_atom(a) {
            Ok((n, d)) => Ok::<(int, int, int), EvalError>((n, d, i + print_atom(a).len())),
            Err(e) => Err::<(int, int, int), EvalError>(e),
        },
    decreases a,
{
    let e = i + print_atom(a).len() as int;
    match a {
        Atom::Lit(d) => {
            assert(t[i] == t.subrange(i, e)[0]);
            lemma_parses_lit(t, i, d);
        },
        Atom::Group(s) => {
            let inner = print_sum(*s);
            assert(print_atom(a) =~= seq!['('] + (inner + seq![')']));
            lemma_subrange_left(t, i, seq!['('], inner + seq![')']);
            lemma_subrange_left(t, i + 1, inner, seq![')']);
            assert(t[i] == t.subrange(i, i + 1)[0]);
            let close = i + 1 + inner.len() as int;
            assert(t[close] == t.subrange(close, e)[0]);
            assert(t[close] == ')');
            lemma_parses_sum(t, i + 1, *s);
        },
    }
}

/// Well-formed remaining factors standing at `i`, with no further factor or
/// digit after them, are what the product fold parses there.
proof fn lemma_parses_mul_rest(t: Seq<char>, an: int, ad: int, i: int, r: MulRest)
    requires
        mul_rest_valid(r),
        0 <= i,
        i + print_mul_rest(r).len() <= t.len(),
        t.subrange(i, i + print_mul_rest(r).len() as int) == print_mul_rest(r),
        i + print_mul_rest(r).len() == t.len() || (!is_mul_op(t[i + print_mul_rest(r).len()])
            && !is_num_char(t[i + print_mul_rest(r).len()])),
    ensures
        sp_mul_rest(t, an, ad, i) == match eval_mul_rest(an, ad, r) {
            Ok((n, d)) => Ok::<(int, int, int), EvalError>((n, d, i + print_mul_rest(r).len())),
            Err(e) => Err::<(int, int, int), EvalError>(e),
        },
    decreases r,
{
    let e = i + print_mul_rest(r).len() as int;
    match r {
        MulRest::Done => {},
        MulRest::Step(op, a, more) => {
            let pa = print_atom(a);
            let pm = print_mul_rest(*more);
            assert(print_mul_rest(r) =~= seq![op] + (pa + pm));
            lemma_subrange_left(t, i, seq![op], pa + pm);
            lemma_subrange_left(t, i + 1, pa, pm);
            assert(t[i] == t.subrange(i, i + 1)[0]);
            let j = i + 1 + pa.len() as int;
            if pm.len() > 0 {
                match *more {
                    MulRest::Done => {
                        assert(false);
                    },
                    MulRest::Step(op2, a2, m2) => {
                        assert(t[j] == t.subrange(j, e)[0]);
                        assert(pm[0] == op2);
                        assert(*more == MulRest::Step(op2, a2, m2));
                        assert(mul_rest_valid(*more));
                        assert(is_mul_op(op2));
                        assert(!is_num_char(op2));
                    },
                }
            }
            lemma_parses_atom(t, i + 1, a);
            lemma_atom_print_len(a);
            match eval_atom(a) {
                Err(_) => {},
                Ok((bn, bd)) => {
                    assert(next_at(i, j, t.len() as int) == j);
                    if is_times(op) {
                        match rat_mul(an, ad, bn, bd) {
                            Some((n, d)) => {
                                lemma_parses_mul_rest(t, n, d, j, *more);
                            },
                            None => {},
                        }
                    } else if bn != 0 {
                        match rat_div(an, ad, bn, bd) {
                            Some((n, d)) => {
                                lemma_parses_mul_rest(t, n, d, j, *more);
                            },
                            None => {},
                        }
                    }
                },
            }
        },
    }
}

/// A well-formed product standing at `i`, with no further factor or digit
/// after it, is what the product rule parses there.
proof fn lemma_parses_prod(t: Seq<char>, i: int, p: Prod)
    requires
        prod_valid(p),
        0 <= i,
        i + print_prod(p).len() <= t.len(),
        t.subrange(i, i + print_prod(p).len() as int) == print_prod(p),
        i + print_prod(p).len() == t.len() || (!is_mul_op(t[i + print_prod(p).len()])
            && !is_num_char(t[i + print_prod(p).len()])),
    ensures
        sp_mul_div(t, i) == match eval_prod(p) {
            Ok((n, d)) => Ok::<(int, int, int), EvalError>((n, d, i + print_prod(p).len())),
            Err(e) => Err::<(int, int, int), EvalError>(e),
        },
    decreases p,
{
    let e = i + print_prod(p).len() as int;
    let pa = print_atom(p.first);
    let pm = print_mul_rest(p.rest);
    lemma_subrange_left(t, i, pa, pm);
    let j = i + pa.len() as int;
    if pm.len() > 0 {
        match p.rest {
            MulRest::Done => {
                assert(false);
            },
            MulRest::Step(op2, a2, m2) => {
                assert(t[j] == t.subrange(j, e)[0]);
                assert(pm[0] == op2);
                assert(p.rest == MulRest::Step(op2, a2, m2));
                assert(mul_rest_valid(p.rest));
                assert(is_mul_op(op2));
                assert(!is_num_char(op2));
            },
        }
    }
    lemma_parses_atom(t, i, p.first);
    lemma_atom_print_len(p.first);
    match eval_atom(p.first) {
        Err(_) => {},
        Ok((n, d)) => {
            assert(same_at(i, j, t.len() as int) == j);
            lemma_parses_mul_rest(t, n, d, j, p.rest);
        },
    }
}

/// Well-formed remaining terms standing at `i`, with nothing that could
/// continue the expression after them, are what the sum fold parses there.
proof fn lemma_parses_add_rest(t: Seq<char>, an: int, ad: int, i: int, r: AddRest)
    requires
        add_rest_valid(r),
        0 <= i,
        i + print_add_rest(r).len() <= t.len(),
        t.subrange(i, i + print_add_rest(r).len() as int) == print_add_rest(r),
        i + print_add_rest(r).len() == t.len() || (!is_add_op(t[i + print_add_rest(r).len()])
            && !is_mul_op(t[i + print_add_rest(r).len()])
            && !is_num_char(t[i + print_add_rest(r).len()])),
    ensures
        sp_add_rest(t, an, ad, i) == match eval_add_rest(an, ad, r) {
            Ok((n, d)) => Ok::<(int, int, int), EvalError>((n, d, i + print_add_rest(r).len())),
            Err(e) => Err::<(int, int, int), EvalError>(e),
        },
    decreases r,
{
    let e = i + print_add_rest(r).len() as int;
    match r {
        AddRest::Done => {},
        AddRest::Step(op, p, more) => {
            let pp = print_prod(p);
            let pm = print_add_rest(*more);
            assert(print_add_rest(r) =~= seq![op] + (pp + pm));
            lemma_subrange_left(t, i, seq![op], pp + pm);
            lemma_subrange_left(t, i + 1, pp, pm);
            assert(t[i] == t.subrange(i, i + 1)[0]);
            let j = i + 1 + pp.len() as int;
            if pm.len() > 0 {
                match *more {
                    AddRest::Done => {
                        assert(false);
                    },
                    AddRest::Step(op2, p2, m2) => {
                        assert(t[j] == t.subrange(j, e)[0]);
                        assert(pm[0] == op2);
                        assert(*more == AddRest::Step(op2, p2, m2));
                        assert(add_rest_valid(*more));
                        assert(is_add_op(op2));
                        assert(!is_mul_op(op2) && !is_num_char(op2));
                    },
                }
            }
            lemma_parses_prod(t, i + 1, p);
            lemma_prod_print_len(p);
            match eval_prod(p) {
                Err(_) => {},
                Ok((bn, bd)) => {
                    assert(next_at(i, j, t.len() as int) == j);
                    match (if op == '+' {
                        rat_add(an, ad, bn, bd)
                    } else {
                        rat_sub(an, ad, bn, bd)
                    }) {
                        Some((n, d)) => {
                            lemma_parses_add_rest(t, n, d, j, *more);
                        },
                        None => {},
                    }
                },
            }
        },
    }
}

proof fn lemma_prod_print_len(p: Prod)
    requires
        prod_valid(p),
    ensures
        1 <= print_prod(p).len(),
{
    lemma_atom_print_len(p.first);
}

/// A well-formed sum standing at `i`, with nothing that could continue the
/// expression after it, is what the entry rule parses there.
proof fn lemma_parses_sum(t: Seq<char>, i: int, s: Sum)
    requires
        sum_valid(s),
        0 <= i,
        i + print_sum(s).len() <= t.len(),
        t.subrange(i, i + print_sum(s).len() as int) == print_sum(s),
        i + print_sum(s).len() == t.len() || (!is_add_op(t[i + print_sum(s).len()])
            && !is_mul_op(t[i + print_sum(s).len()])
            && !is_num_char(t[i + print_sum(s).len()])),
    ensures
        sp_add_sub(t, i) == match eval_sum(s) {
            Ok((n, d)) => Ok::<(int, int, int), EvalError>((n, d, i + print_sum(s).len())),
            Err(e) => Err::<(int, int, int), EvalError>(e),
        },
    decreases s,
{
    let e = i + print_sum(s).len() as int;
    let pp = print_prod(s.first);
    let pm = print_add_rest(s.rest);
    lemma_subrange_left(t, i, pp, pm);
    let j = i + pp.len() as int;
    if pm.len() > 0 {
        match s.rest {
            AddRest::Done => {
                assert(false);
            },
            AddRest::Step(op2, p2, m2) => {
                assert(t[j] == t.subrange(j, e)[0]);
                assert(pm[0] == op2);
                assert(s.rest == AddRest::Step(op2, p2, m2));
                assert(add_rest_valid(s.rest));
                assert(is_add_op(op2));
                assert(!is_mul_op(op2) && !is_num_char(op2));
            },
        }
    }
    lemma_parses_prod(t, i, s.first);
    lemma_prod_print_len(s.first);
    match eval_prod(s.first) {
        Err(_) => {},
        Ok((n, d)) => {
            assert(same_at(i, j, t.len() as int) == j);
            lemma_parses_add_rest(t, n, d, j, s.rest);
        },
    }
}


// --------------------- printed texts hold no whitespace --------------------

proof fn lemma_lit_spaceless(d: Seq<char>)
    requires
        lit_valid(d),
    ensures
        strip_spaces(d) == d,
{
    assert forall|k: int| 0 <= k < d.len() implies !is_space_char(d[k]) by {
        assert(is_num_char(d[k]));
    }
    lemma_strip_of_spaceless(d);
}

proof fn lemma_strip_print_atom(a: Atom)
    requires
        atom_valid(a),
    ensures
        strip_spaces(print_atom(a)) == print_atom(a),
    decreases a,
{
    match a {
        Atom::Lit(d) => {
            lemma_lit_spaceless(d);
        },
        Atom::Group(s) => {
            let inner = print_sum(*s);
            lemma_strip_print_sum(*s);
            assert(print_atom(a) =~= (seq!['('] + inner) + seq![')']);
            lemma_strip_concat(seq!['('] + inner, seq![')']);
            lemma_strip_concat(seq!['('], inner);
            lemma_strip_of_spaceless(seq!['(']);
            lemma_strip_of_spaceless(seq![')']);
        },
    }
}

proof fn lemma_strip_print_mul_rest(r: MulRest)
    requires
        mul_rest_valid(r),
    ensures
        strip_spaces(print_mul_rest(r)) == print_mul_rest(r),
    decreases r,
{
    match r {
        MulRest::Done => {
            assert(strip_spaces(print_mul_rest(r)) =~= print_mul_rest(r));
        },
        MulRest::Step(op, a, more) => {
            lemma_strip_print_atom(a);
            lemma_strip_print_mul_rest(*more);
            assert(print_mul_rest(r) =~= (seq![op] + print_atom(a)) + print_mul_rest(*more));
            lemma_strip_concat(seq![op] + print_atom(a), print_mul_rest(*more));
            lemma_strip_concat(seq![op], print_atom(a));
            assert(!is_space_char(op));
            lemma_strip_of_spaceless(seq![op]);
        },
    }
}

proof fn lemma_strip_print_prod(p: Prod)
    requires
        prod_valid(p),
    ensures
        strip_spaces(print_prod(p)) == print_prod(p),
    decreases p,
{
    lemma_strip_print_atom(p.first);
    lemma_strip_print_mul_rest(p.rest);
    lemma_strip_concat(print_atom(p.first), print_mul_rest(p.rest));
}

proof fn lemma_strip_print_add_rest(r: AddRest)
    requires
        add_rest_valid(r),
    ensures
        strip_spaces(print_add_rest(r)) == print_add_rest(r),
    decreases r,
{
    match r {
        AddRest::Done => {
            assert(strip_spaces(print_add_rest(r)) =~= print_add_rest(r));
        },
        AddRest::Step(op, p, more) => {
            lemma_strip_print_prod(p);
            lemma_strip_print_add_rest(*more);
            assert(print_add_rest(r) =~= (seq![op] + print_prod(p)) + print_add_rest(*more));
            lemma_strip_concat(seq![op] + print_prod(p), print_add_rest(*more));
            lemma_strip_concat(seq![op], print_prod(p));
            assert(!is_space_char(op));
            lemma_strip_of_spaceless(seq![op]);
        },
    }
}

proof fn lemma_strip_print_sum(s: Sum)
    requires
        sum_valid(s),
    ensures
        strip_spaces(print_sum(s)) == print_sum(s),
    decreases s,
{
    lemma_strip_print_prod(s.first);
    lemma_strip_print_add_rest(s.rest);
    lemma_strip_concat(print_prod(s.first), print_add_rest(s.rest));
}

// ------------------------------- the theorem -------------------------------

/// Every valid expression text evaluates to its standard value: success with
/// the exact left-to-right, precedence-respecting result of the tree it
/// prints, or, where that computation itself meets a zero divisor or leaves
/// the range of the representation, exactly that error. In particular a valid
/// text never draws a syntax error.
pub proof fn lemma_valid_text_evaluates(s: Sum)
    requires
        sum_valid(s),
    ensures
        sp_evaluate(print_sum(s)) == match eval_sum(s) {
            Ok((n, d)) => Ok::<(int, int), EvalError>((n, d)),
            Err(e) => Err::<(int, int), EvalError>(e),
        },
{
    let t = print_sum(s);
    lemma_strip_print_sum(s);
    assert(t.subrange(0, t.len() as int) =~= t);
    lemma_parses_sum(t, 0, s);
}


/// Tree evaluation fails only with a zero divisor or an overflow: together
/// with the theorem above, a valid text never draws a syntax error.
pub proof fn lemma_eval_sum_errors(s: Sum)
    ensures
        eval_sum(s) is Ok || eval_sum(s) == Err::<(int, int), EvalError>(EvalError::DivisionByZero)
            || eval_sum(s) == Err::<(int, int), EvalError>(EvalError::Overflow),
    decreases s,
{
    lemma_eval_prod_errors(s.first);
    match eval_prod(s.first) {
        Err(_) => {},
        Ok((n, d)) => {
            lemma_eval_add_rest_errors(n, d, s.rest);
        },
    }
}

proof fn lemma_eval_atom_errors(a: Atom)
    ensures
        eval_atom(a) is Ok || eval_atom(a) == Err::<(int, int), EvalError>(
            EvalError::DivisionByZero,
        ) || eval_atom(a) == Err::<(int, int), EvalError>(EvalError::Overflow),
    decreases a,
{
    match a {
        Atom::Lit(_) => {},
        Atom::Group(s) => {
            lemma_eval_sum_errors(*s);
        },
    }
}

proof fn lemma_eval_mul_rest_errors(an: int, ad: int, r: MulRest)
    ensures
        eval_mul_rest(an, ad, r) is Ok || eval_mul_rest(an, ad, r) == Err::<(int, int), EvalError>(
            EvalError::DivisionByZero,
        ) || eval_mul_rest(an, ad, r) == Err::<(int, int), EvalError>(EvalError::Overflow),
    decreases r,
{
    match r {
        MulRest::Done => {},
        MulRest::Step(op, a, more) => {
            lemma_eval_atom_errors(a);
            match eval_atom(a) {
                Err(_) => {},
                Ok((bn, bd)) => {
                    if is_times(op) {
                        match rat_mul(an, ad, bn, bd) {
                            Some((n, d)) => {
                                lemma_eval_mul_rest_errors(n, d, *more);
                            },
                            None => {},
                        }
                    } else if bn != 0 {
                        match rat_div(an, ad, bn, bd) {
                            Some((n, d)) => {
                                lemma_eval_mul_rest_errors(n, d, *more);
                            },
                            None => {},
                        }
                    }
                },
            }
        },
    }
}

proof fn lemma_eval_prod_errors(p: Prod)
    ensures
        eval_prod(p) is Ok || eval_prod(p) == Err::<(int, int), EvalError>(
            EvalError::DivisionByZero,
        ) || eval_prod(p) == Err::<(int, int), EvalError>(EvalError::Overflow),
    decreases p,
{
    lemma_eval_atom_errors(p.first);
    match eval_atom(p.first) {
        Err(_) => {},
        Ok((n, d)) => {
            lemma_eval_mul_rest_errors(n, d, p.rest);
        },
    }
}

proof fn lemma_eval_add_rest_errors(an: int, ad: int, r: AddRest)
    ensures
        eval_add_rest(an, ad, r) is Ok || eval_add_rest(an, ad, r) == Err::<(int, int), EvalError>(
            EvalError::DivisionByZero,
        ) || eval_add_rest(an, ad, r) == Err::<(int, int), EvalError>(EvalError::Overflow),
    decreases r,
{
    match r {
        AddRest::Done => {},
        AddRest::Step(op, p, more) => {
            lemma_eval_prod_errors(p);
            match eval_prod(p) {
                Err(_) => {},
                Ok((bn, bd)) => {
                    match (if op == '+' {
                        rat_add(an, ad, bn, bd)
                    } else {
                        rat_sub(an, ad, bn, bd)
                    }) {
                        Some((n, d)) => {
                            lemma_eval_add_rest_errors(n, d, *more);
                        },
                        None => {},
                    }
                },
            }
        },
    }
}

} // verus!
