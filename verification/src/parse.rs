use vstd::prelude::*;

use crate::error::EvalError;
use crate::value::{rat_add, rat_div, rat_mul, rat_sub, Value};

verus! {

// ---------------------------------------------------------------------------
// Character classes of the grammar.
// ---------------------------------------------------------------------------

/// An ASCII decimal digit.
pub open spec fn is_digit_char(c: char) -> bool {
    48 <= c as u32 <= 57
}

/// The numeric value of an ASCII decimal digit.
pub open spec fn digit_val(c: char) -> int {
    c as u32 - 48
}

/// A character that may continue a numeric literal: a digit or a dot.
pub open spec fn is_num_char(c: char) -> bool {
    is_digit_char(c) || c == '.'
}

/// An operator of the sum level.
pub open spec fn is_add_op(c: char) -> bool {
    c == '+' || c == '-'
}

/// An operator of the product level; the multiplication and division glyphs
/// count the same as their ASCII forms.
pub open spec fn is_mul_op(c: char) -> bool {
    c == '*' || c == '/' || c == '\u{d7}' || c == '\u{f7}'
}

/// Whether a product-level operator multiplies (as opposed to divides).
pub open spec fn is_times(c: char) -> bool {
    c == '*' || c == '\u{d7}'
}

fn num_char(c: char) -> (r: bool)
    ensures
        r == is_num_char(c),
{
    let u = c as u32;
    (48 <= u && u <= 57) || c == '.'
}

// ---------------------------------------------------------------------------
// The specification of the numeric literal scan.
// ---------------------------------------------------------------------------

/// The first position at or after `i` that does not hold a digit or a dot:
/// the end of the maximal numeric run starting at `i`.
pub open spec fn scan_end(t: Seq<char>, i: int) -> int
    decreases t.len() - i,
{
    if i < 0 || i >= t.len() || !is_num_char(t[i]) {
        i
    } else {
        scan_end(t, i + 1)
    }
}

/// How many dots `t` holds in the range `[k, j)`.
pub open spec fn dots_in(t: Seq<char>, k: int, j: int) -> int
    decreases j - k,
{
    if k < 0 || k >= j || j > t.len() {
        0
    } else {
        (if t[k] == '.' { 1int } else { 0int }) + dots_in(t, k + 1, j)
    }
}

/// How many digits `t` holds in the range `[k, j)`.
pub open spec fn digits_in(t: Seq<char>, k: int, j: int) -> int
    decreases j - k,
{
    if k < 0 || k >= j || j > t.len() {
        0
    } else {
        (if is_digit_char(t[k]) { 1int } else { 0int }) + digits_in(t, k + 1, j)
    }
}

/// The integer named by the digits of `t` in `[k, j)` (anything else skipped;
/// in the ranges this is applied to, only a dot can occur besides digits),
/// folded left to right onto `acc`, or `None` as soon as a step leaves the
/// i64 range.
pub open spec fn mant_from(t: Seq<char>, k: int, j: int, acc: int) -> Option<int>
    decreases j - k,
{
    if k < 0 || k >= j || j > t.len() {
        Some(acc)
    } else if !is_digit_char(t[k]) {
        mant_from(t, k + 1, j, acc)
    } else if acc * 10 + digit_val(t[k]) > i64::MAX {
        None
    } else {
        mant_from(t, k + 1, j, acc * 10 + digit_val(t[k]))
    }
}

/// How many digits of `t` in `[k, j)` stand after a dot; `seen` says whether
/// a dot was already passed before `k`.
pub open spec fn frac_digits(t: Seq<char>, k: int, j: int, seen: bool) -> int
    decreases j - k,
{
    if k < 0 || k >= j || j > t.len() {
        0
    } else if t[k] == '.' {
        frac_digits(t, k + 1, j, true)
    } else {
        (if seen && is_digit_char(t[k]) { 1int } else { 0int }) + frac_digits(t, k + 1, j, seen)
    }
}

/// Ten to the power `e` (one for a non-positive `e`).
pub open spec fn pow10(e: int) -> int
    decreases e,
{
    if e <= 0 {
        1
    } else {
        10 * pow10(e - 1)
    }
}

proof fn lemma_pow10_pos(e: int)
    ensures
        1 <= pow10(e),
    decreases e,
{
    if e > 0 {
        lemma_pow10_pos(e - 1);
    }
}

proof fn lemma_pow10_mono(a: int, b: int)
    requires
        a <= b,
    ensures
        1 <= pow10(a) <= pow10(b),
    decreases b - a,
{
    lemma_pow10_pos(a);
    if a < b {
        lemma_pow10_mono(a, b - 1);
        lemma_pow10_pos(b - 1);
    }
}

/// What the literal scan starting at `i` yields: the value as an exact
/// rational `(numerator, denominator)` and the position past the literal,
/// or the error the scan stops with. A literal may begin or end with its
/// dot (`.5` is a half, `3.` is three); a lone dot has no digit and is
/// rejected.
pub open spec fn sp_number(t: Seq<char>, i: int) -> Result<(int, int, int), EvalError> {
    let j = scan_end(t, i);
    if j == i {
        Err(EvalError::ExpectedNumber)
    } else if dots_in(t, i, j) >= 2 {
        Err(EvalError::MultipleDecimalPoints)
    } else if digits_in(t, i, j) == 0 {
        Err(EvalError::InvalidNumber)
    } else {
        match mant_from(t, i, j, 0) {
            None => Err(EvalError::Overflow),
            Some(m) => {
                let s = frac_digits(t, i, j, false);
                if s > 18 {
                    Err(EvalError::Overflow)
                } else {
                    Ok((m, pow10(s), j))
                }
            },
        }
    }
}

// ---------------------------------------------------------------------------
// The specification of the grammar rules.
//
// Each rule maps the text and a start position to the exact value of what it
// consumes and the first position past it, or to the error it stops with.
// The two helpers below only guard termination: every rule in fact returns a
// position within bounds that advances past what it consumed (the exec
// parsers prove this), so on every reachable input they return `j` itself.
// ---------------------------------------------------------------------------

/// `j` clamped into `(i, n]`: the continuation position after an operand.
pub open spec fn next_at(i: int, j: int, n: int) -> int {
    if i < j && j <= n {
        j
    } else {
        i + 1
    }
}

/// `j` clamped into `[i, n]`: the continuation position after a first term.
pub open spec fn same_at(i: int, j: int, n: int) -> int {
    if i <= j && j <= n {
        j
    } else {
        i
    }
}

/// Primary: a parenthesized sum, or a numeric literal.
pub open spec fn sp_primary(t: Seq<char>, i: int) -> Result<(int, int, int), EvalError>
    decreases t.len() - i, 0int,
{
    if 0 <= i < t.len() && t[i] == '(' {
        match sp_add_sub(t, i + 1) {
            Ok((n, d, j)) => {
                if 0 <= j < t.len() && t[j] == ')' {
                    Ok((n, d, j + 1))
                } else {
                    Err(EvalError::UnbalancedParens)
                }
            },
            Err(e) => Err(e),
        }
    } else {
        sp_number(t, i)
    }
}

/// The rest of a product after its first factor `an/ad`: folds factors onto
/// the left while a product-level operator follows; a division checks its
/// right operand against zero before it divides.
pub open spec fn sp_mul_rest(t: Seq<char>, an: int, ad: int, i: int) -> Result<
    (int, int, int),
    EvalError,
>
    decreases t.len() - i, 1int,
{
    if 0 <= i < t.len() && is_mul_op(t[i]) {
        match sp_primary(t, i + 1) {
            Ok((bn, bd, j)) => {
                if is_times(t[i]) {
                    match rat_mul(an, ad, bn, bd) {
                        Some((n, d)) => sp_mul_rest(t, n, d, next_at(i, j, t.len() as int)),
                        None => Err(EvalError::Overflow),
                    }
                } else if bn == 0 {
                    Err(EvalError::DivisionByZero)
                } else {
                    match rat_div(an, ad, bn, bd) {
                        Some((n, d)) => sp_mul_rest(t, n, d, next_at(i, j, t.len() as int)),
                        None => Err(EvalError::Overflow),
                    }
                }
            },
            Err(e) => Err(e),
        }
    } else {
        Ok((an, ad, i))
    }
}

/// Product: one primary, then the fold of the following factors.
pub open spec fn sp_mul_div(t: Seq<char>, i: int) -> Result<(int, int, int), EvalError>
    decreases t.len() - i, 2int,
{
    match sp_primary(t, i) {
        Ok((n, d, j)) => sp_mul_rest(t, n, d, same_at(i, j, t.len() as int)),
        Err(e) => Err(e),
    }
}

/// The rest of a sum after its first term `an/ad`: folds terms onto the left
/// while `+` or `-` follows.
pub open spec fn sp_add_rest(t: Seq<char>, an: int, ad: int, i: int) -> Result<
    (int, int, int),
    EvalError,
>
    decreases t.len() - i, 3int,
{
    if 0 <= i < t.len() && is_add_op(t[i]) {
        match sp_mul_div(t, i + 1) {
            Ok((bn, bd, j)) => {
                match (if t[i] == '+' {
                    rat_add(an, ad, bn, bd)
                } else {
                    rat_sub(an, ad, bn, bd)
                }) {
                    Some((n, d)) => sp_add_rest(t, n, d, next_at(i, j, t.len() as int)),
                    None => Err(EvalError::Overflow),
                }
            },
            Err(e) => Err(e),
        }
    } else {
        Ok((an, ad, i))
    }
}

/// Sum, the entry rule: one product, then the fold of the following terms.
pub open spec fn sp_add_sub(t: Seq<char>, i: int) -> Result<(int, int, int), EvalError>
    decreases t.len() - i, 4int,
{
    match sp_mul_div(t, i) {
        Ok((n, d, j)) => sp_add_rest(t, n, d, same_at(i, j, t.len() as int)),
        Err(e) => Err(e),
    }
}

// ---------------------------------------------------------------------------
// The executable parsers.
// ---------------------------------------------------------------------------

/// Parses the maximal numeric literal at `i`: a run of digits with at most
/// one dot, read as an exact rational.
pub fn parse_number(t: &Vec<char>, i: usize) -> (r: Result<(Value, usize), EvalError>)
    requires
        i <= t@.len(),
    ensures
        match r {
            Ok((v, j)) => sp_number(t@, i as int) == Ok::<(int, int, int), EvalError>(
                (v.num as int, v.den as int, j as int),
            ) && v.wf() && i < j <= t@.len(),
            Err(e) => sp_number(t@, i as int) == Err::<(int, int, int), EvalError>(e),
        },
{
    let ghost ti = i as int;
    let mut j = i;
    while j < t.len() && num_char(t[j])
        invariant
            i <= j <= t@.len(),
            scan_end(t@, ti) == scan_end(t@, j as int),
            forall|m: int| ti <= m < j ==> is_num_char(t@[m]),
        decreases t@.len() - j,
    {
        j += 1;
    }
    let ghost tj = j as int;
    proof {
        assert(scan_end(t@, tj) == tj);
    }
    if j == i {
        return Err(EvalError::ExpectedNumber);
    }

    // Count the dots and the digits of the run.
    let mut dots: usize = 0;
    let mut digits: usize = 0;
    let mut k = i;
    while k < j
        invariant
            i <= k <= j <= t@.len(),
            dots <= k - i,
            digits <= k - i,
            forall|m: int| ti <= m < tj ==> is_num_char(t@[m]),
            ti == i,
            tj == j,
            dots_in(t@, ti, tj) == dots + dots_in(t@, k as int, tj),
            digits_in(t@, ti, tj) == digits + digits_in(t@, k as int, tj),
        decreases j - k,
    {
        proof {
            assert(is_num_char(t@[k as int]));
        }
        if t[k] == '.' {
            dots += 1;
        } else {
            digits += 1;
        }
        k += 1;
    }
    if dots >= 2 {
        return Err(EvalError::MultipleDecimalPoints);
    }
    if digits == 0 {
        return Err(EvalError::InvalidNumber);
    }

    // Fold the digits into the numerator, dots skipped.
    let mut acc: i64 = 0;
    let mut k = i;
    while k < j
        invariant
            i <= k <= j <= t@.len(),
            0 <= acc,
            forall|m: int| ti <= m < tj ==> is_num_char(t@[m]),
            ti == i,
            tj == j,
            tj == scan_end(t@, ti),
            ti < tj,
            dots_in(t@, ti, tj) <= 1,
            digits_in(t@, ti, tj) != 0,
            mant_from(t@, ti, tj, 0) == mant_from(t@, k as int, tj, acc as int),
        decreases j - k,
    {
        proof {
            assert(is_num_char(t@[k as int]));
        }
        let c = t[k];
        if c != '.' {
            let d = (c as u32 - 48) as i64;
            let next: i128 = acc as i128 * 10 + d as i128;
            if next > i64::MAX as i128 {
                return Err(EvalError::Overflow);
            }
            acc = next as i64;
        }
        k += 1;
    }

    // Count the digits after the dot; they scale the denominator.
    let mut scale: usize = 0;
    let mut seen = false;
    let mut k = i;
    while k < j
        invariant
            i <= k <= j <= t@.len(),
            scale <= k - i,
            forall|m: int| ti <= m < tj ==> is_num_char(t@[m]),
            ti == i,
            tj == j,
            frac_digits(t@, ti, tj, false) == scale + frac_digits(t@, k as int, tj, seen),
        decreases j - k,
    {
        proof {
            assert(is_num_char(t@[k as int]));
        }
        if t[k] == '.' {
            seen = true;
        } else if seen {
            scale += 1;
        }
        k += 1;
    }
    if scale > 18 {
        return Err(EvalError::Overflow);
    }

    // The denominator: ten to the power of the count just taken.
    let mut den: i64 = 1;
    let mut e: usize = 0;
    while e < scale
        invariant
            e <= scale <= 18,
            den as int == pow10(e as int),
        decreases scale - e,
    {
        proof {
            lemma_pow10_mono(e as int + 1, 18);
            assert(pow10(18) == 1000000000000000000) by {
                reveal_with_fuel(pow10, 19);
            };
        }
        den = den * 10;
        e += 1;
    }
    proof {
        lemma_pow10_pos(scale as int);
    }
    Ok((Value { num: acc, den }, j))
}

/// Parses a primary at `i`: a parenthesized sum, or a numeric literal.
pub fn parse_primary(t: &Vec<char>, i: usize) -> (r: Result<(Value, usize), EvalError>)
    requires
        i <= t@.len(),
    ensures
        match r {
            Ok((v, j)) => sp_primary(t@, i as int) == Ok::<(int, int, int), EvalError>(
                (v.num as int, v.den as int, j as int),
            ) && v.wf() && i < j <= t@.len(),
            Err(e) => sp_primary(t@, i as int) == Err::<(int, int, int), EvalError>(e),
        },
    decreases t@.len() - i, 0int,
{
    if i < t.len() && t[i] == '(' {
        match parse_add_sub(t, i + 1) {
            Ok((v, j)) => {
                if j < t.len() && t[j] == ')' {
                    Ok((v, j + 1))
                } else {
                    Err(EvalError::UnbalancedParens)
                }
            },
            Err(e) => Err(e),
        }
    } else {
        parse_number(t, i)
    }
}

/// The fold of a product's remaining factors onto `acc`.
fn parse_mul_rest(t: &Vec<char>, acc: Value, i: usize) -> (r: Result<(Value, usize), EvalError>)
    requires
        i <= t@.len(),
        acc.wf(),
    ensures
        match r {
            Ok((v, j)) => sp_mul_rest(t@, acc.num as int, acc.den as int, i as int) == Ok::<
                (int, int, int),
                EvalError,
            >((v.num as int, v.den as int, j as int)) && v.wf() && i <= j <= t@.len(),
            Err(e) => sp_mul_rest(t@, acc.num as int, acc.den as int, i as int) == Err::<
                (int, int, int),
                EvalError,
            >(e),
        },
    decreases t@.len() - i, 1int,
{
    if i < t.len() && (t[i] == '*' || t[i] == '/' || t[i] == '\u{d7}' || t[i] == '\u{f7}') {
        let times = t[i] == '*' || t[i] == '\u{d7}';
        match parse_primary(t, i + 1) {
            Ok((b, j)) => {
                if times {
                    match acc.checked_mul(b) {
                        Some(v) => parse_mul_rest(t, v, j),
                        None => Err(EvalError::Overflow),
                    }
                } else if b.num == 0 {
                    Err(EvalError::DivisionByZero)
                } else {
                    match acc.checked_div(b) {
                        Some(v) => parse_mul_rest(t, v, j),
                        None => Err(EvalError::Overflow),
                    }
                }
            },
            Err(e) => Err(e),
        }
    } else {
        Ok((acc, i))
    }
}

/// Parses a product at `i`: one primary, then `* / × ÷` folds, left to right.
pub fn parse_mul_div(t: &Vec<char>, i: usize) -> (r: Result<(Value, usize), EvalError>)
    requires
        i <= t@.len(),
    ensures
        match r {
            Ok((v, j)) => sp_mul_div(t@, i as int) == Ok::<(int, int, int), EvalError>(
                (v.num as int, v.den as int, j as int),
            ) && v.wf() && i < j <= t@.len(),
            Err(e) => sp_mul_div(t@, i as int) == Err::<(int, int, int), EvalError>(e),
        },
    decreases t@.len() - i, 2int,
{
    match parse_primary(t, i) {
        Ok((v, j)) => parse_mul_rest(t, v, j),
        Err(e) => Err(e),
    }
}

/// The fold of a sum's remaining terms onto `acc`.
fn parse_add_rest(t: &Vec<char>, acc: Value, i: usize) -> (r: Result<(Value, usize), EvalError>)
    requires
        i <= t@.len(),
        acc.wf(),
    ensures
        match r {
            Ok((v, j)) => sp_add_rest(t@, acc.num as int, acc.den as int, i as int) == Ok::<
                (int, int, int),
                EvalError,
            >((v.num as int, v.den as int, j as int)) && v.wf() && i <= j <= t@.len(),
            Err(e) => sp_add_rest(t@, acc.num as int, acc.den as int, i as int) == Err::<
                (int, int, int),
                EvalError,
            >(e),
        },
    decreases t@.len() - i, 3int,
{
    if i < t.len() && (t[i] == '+' || t[i] == '-') {
        let plus = t[i] == '+';
        match parse_mul_div(t, i + 1) {
            Ok((b, j)) => {
                let folded = if plus {
                    acc.checked_add(b)
                } else {
                    acc.checked_sub(b)
                };
                match folded {
                    Some(v) => parse_add_rest(t, v, j),
                    None => Err(EvalError::Overflow),
                }
            },
            Err(e) => Err(e),
        }
    } else {
        Ok((acc, i))
    }
}

/// Parses a sum at `i`, the grammar's entry rule: one product, then `+ -`
/// folds, left to right.
pub fn parse_add_sub(t: &Vec<char>, i: usize) -> (r: Result<(Value, usize), EvalError>)
    requires
        i <= t@.len(),
    ensures
        match r {
            Ok((v, j)) => sp_add_sub(t@, i as int) == Ok::<(int, int, int), EvalError>(
                (v.num as int, v.den as int, j as int),
            ) && v.wf() && i < j <= t@.len(),
            Err(e) => sp_add_sub(t@, i as int) == Err::<(int, int, int), EvalError>(e),
        },
    decreases t@.len() - i, 4int,
{
    match parse_mul_div(t, i) {
        Ok((v, j)) => parse_add_rest(t, v, j),
        Err(e) => Err(e),
    }
}


// ---------------------------------------------------------------------------
// Law: the multiplication and division glyphs behave exactly as their ASCII
// forms. `norm_glyphs` replaces each glyph; every rule is invariant under it.
// ---------------------------------------------------------------------------

/// A product-level glyph replaced by its ASCII form; any other character kept.
pub open spec fn norm_char(c: char) -> char {
    if c == '\u{d7}' {
        '*'
    } else if c == '\u{f7}' {
        '/'
    } else {
        c
    }
}

/// `s` with every multiplication and division glyph replaced by `*` or `/`.
pub open spec fn norm_glyphs(s: Seq<char>) -> Seq<char> {
    s.map_values(|c: char| norm_char(c))
}

proof fn lemma_norm_scan_end(t: Seq<char>, i: int)
    ensures
        scan_end(norm_glyphs(t), i) == scan_end(t, i),
    decreases t.len() - i,
{
    if 0 <= i < t.len() && is_num_char(t[i]) {
        lemma_norm_scan_end(t, i + 1);
    }
}

proof fn lemma_norm_dots(t: Seq<char>, k: int, j: int)
    ensures
        dots_in(norm_glyphs(t), k, j) == dots_in(t, k, j),
    decreases j - k,
{
    if !(k < 0 || k >= j || j > t.len()) {
        lemma_norm_dots(t, k + 1, j);
    }
}

proof fn lemma_norm_digits(t: Seq<char>, k: int, j: int)
    ensures
        digits_in(norm_glyphs(t), k, j) == digits_in(t, k, j),
    decreases j - k,
{
    if !(k < 0 || k >= j || j > t.len()) {
        lemma_norm_digits(t, k + 1, j);
    }
}

proof fn lemma_norm_mant(t: Seq<char>, k: int, j: int, acc: int)
    ensures
        mant_from(norm_glyphs(t), k, j, acc) == mant_from(t, k, j, acc),
    decreases j - k,
{
    if !(k < 0 || k >= j || j > t.len()) {
        if !is_digit_char(t[k]) {
            lemma_norm_mant(t, k + 1, j, acc);
        } else if !(acc * 10 + digit_val(t[k]) > i64::MAX) {
            lemma_norm_mant(t, k + 1, j, acc * 10 + digit_val(t[k]));
        }
    }
}

proof fn lemma_norm_frac(t: Seq<char>, k: int, j: int, seen: bool)
    ensures
        frac_digits(norm_glyphs(t), k, j, seen) == frac_digits(t, k, j, seen),
    decreases j - k,
{
    if !(k < 0 || k >= j || j > t.len()) {
        if t[k] == '.' {
            lemma_norm_frac(t, k + 1, j, true);
        } else {
            lemma_norm_frac(t, k + 1, j, seen);
        }
    }
}

proof fn lemma_norm_number(t: Seq<char>, i: int)
    ensures
        sp_number(norm_glyphs(t), i) == sp_number(t, i),
{
    lemma_norm_scan_end(t, i);
    let j = scan_end(t, i);
    lemma_norm_dots(t, i, j);
    lemma_norm_digits(t, i, j);
    lemma_norm_mant(t, i, j, 0);
    lemma_norm_frac(t, i, j, false);
}

proof fn lemma_norm_primary(t: Seq<char>, i: int)
    ensures
        sp_primary(norm_glyphs(t), i) == sp_primary(t, i),
    decreases t.len() - i, 0int,
{
    if 0 <= i < t.len() && t[i] == '(' {
        lemma_norm_add_sub(t, i + 1);
    } else {
        lemma_norm_number(t, i);
    }
}

proof fn lemma_norm_mul_rest(t: Seq<char>, an: int, ad: int, i: int)
    ensures
        sp_mul_rest(norm_glyphs(t), an, ad, i) == sp_mul_rest(t, an, ad, i),
    decreases t.len() - i, 1int,
{
    if 0 <= i < t.len() && is_mul_op(t[i]) {
        lemma_norm_primary(t, i + 1);
        match sp_primary(t, i + 1) {
            Ok((bn, bd, j)) => {
                if is_times(t[i]) {
                    match rat_mul(an, ad, bn, bd) {
                        Some((n, d)) => {
                            lemma_norm_mul_rest(t, n, d, next_at(i, j, t.len() as int));
                        },
                        None => {},
                    }
                } else if bn != 0 {
                    match rat_div(an, ad, bn, bd) {
                        Some((n, d)) => {
                            lemma_norm_mul_rest(t, n, d, next_at(i, j, t.len() as int));
                        },
                        None => {},
                    }
                }
            },
            Err(_) => {},
        }
    }
}

proof fn lemma_norm_mul_div(t: Seq<char>, i: int)
    ensures
        sp_mul_div(norm_glyphs(t), i) == sp_mul_div(t, i),
    decreases t.len() - i, 2int,
{
    lemma_norm_primary(t, i);
    match sp_primary(t, i) {
        Ok((n, d, j)) => {
            lemma_norm_mul_rest(t, n, d, same_at(i, j, t.len() as int));
        },
        Err(_) => {},
    }
}

proof fn lemma_norm_add_rest(t: Seq<char>, an: int, ad: int, i: int)
    ensures
        sp_add_rest(norm_glyphs(t), an, ad, i) == sp_add_rest(t, an, ad, i),
    decreases t.len() - i, 3int,
{
    if 0 <= i < t.len() && is_add_op(t[i]) {
        lemma_norm_mul_div(t, i + 1);
        match sp_mul_div(t, i + 1) {
            Ok((bn, bd, j)) => {
                match (if t[i] == '+' {
                    rat_add(an, ad, bn, bd)
                } else {
                    rat_sub(an, ad, bn, bd)
                }) {
                    Some((n, d)) => {
                        lemma_norm_add_rest(t, n, d, next_at(i, j, t.len() as int));
                    },
                    None => {},
                }
            },
            Err(_) => {},
        }
    }
}

/// The entry rule is invariant under replacing the glyphs by their ASCII forms.
pub proof fn lemma_norm_add_sub(t: Seq<char>, i: int)
    ensures
        sp_add_sub(norm_glyphs(t), i) == sp_add_sub(t, i),
    decreases t.len() - i, 4int,
{
    lemma_norm_mul_div(t, i);
    match sp_mul_div(t, i) {
        Ok((n, d, j)) => {
            lemma_norm_add_rest(t, n, d, same_at(i, j, t.len() as int));
        },
        Err(_) => {},
    }
}

} // verus!
