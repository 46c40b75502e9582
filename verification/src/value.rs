use vstd::prelude::*;

verus! {

/// An exact rational number `num / den`. The denominator is always positive,
/// so a value is zero exactly when `num` is zero.
#[derive(Clone, Copy, Debug, PartialEq, Eq, Structural)]
pub struct Value {
    pub num: i64,
    pub den: i64,
}

/// Whether an unbounded integer fits the machine representation of a part.
pub open spec fn fits_i64(x: int) -> bool {
    i64::MIN <= x <= i64::MAX
}

/// Exact sum of `an/ad` and `bn/bd`, or `None` when a part leaves the i64 range.
pub open spec fn rat_add(an: int, ad: int, bn: int, bd: int) -> Option<(int, int)> {
    let n = an * bd + bn * ad;
    let d = ad * bd;
    if fits_i64(n) && fits_i64(d) {
        Some((n, d))
    } else {
        None
    }
}

/// Exact difference of `an/ad` and `bn/bd`, or `None` when a part leaves the i64 range.
pub open spec fn rat_sub(an: int, ad: int, bn: int, bd: int) -> Option<(int, int)> {
    let n = an * bd - bn * ad;
    let d = ad * bd;
    if fits_i64(n) && fits_i64(d) {
        Some((n, d))
    } else {
        None
    }
}

/// Exact product of `an/ad` and `bn/bd`, or `None` when a part leaves the i64 range.
pub open spec fn rat_mul(an: int, ad: int, bn: int, bd: int) -> Option<(int, int)> {
    let n = an * bn;
    let d = ad * bd;
    if fits_i64(n) && fits_i64(d) {
        Some((n, d))
    } else {
        None
    }
}

/// Exact quotient of `an/ad` by `bn/bd`, with the sign moved to the numerator
/// so the denominator stays positive, or `None` when a part leaves the i64 range.
/// Meaningful only for `bn != 0`; a zero divisor is rejected before this point.
pub open spec fn rat_div(an: int, ad: int, bn: int, bd: int) -> Option<(int, int)> {
    let n0 = an * bd;
    let d0 = ad * bn;
    let n = if bn < 0 { -n0 } else { n0 };
    let d = if bn < 0 { -d0 } else { d0 };
    if fits_i64(n) && fits_i64(d) {
        Some((n, d))
    } else {
        None
    }
}

/// Range facts about a product of two i64-sized factors, tight enough that
/// sums of two such products still fit in i128.
proof fn lemma_i64_mul_range(a: int, b: int)
    by (nonlinear_arith)
    requires
        -0x8000_0000_0000_0000 <= a <= 0x7fff_ffff_ffff_ffff,
        -0x8000_0000_0000_0000 <= b <= 0x7fff_ffff_ffff_ffff,
    ensures
        -0x4000_0000_0000_0000_0000_0000_0000_0000 <= a * b
            <= 0x4000_0000_0000_0000_0000_0000_0000_0000,
        1 <= b ==> -0x3fff_ffff_ffff_ffff_8000_0000_0000_0000 <= a * b
            <= 0x3fff_ffff_ffff_ffff_8000_0000_0000_0000,
        1 <= a && 1 <= b ==> 1 <= a * b,
        1 <= a && b <= -1 ==> a * b <= -1,
{
}

impl Value {
    /// The representation invariant: the denominator is positive.
    pub open spec fn wf(self) -> bool {
        1 <= self.den
    }

    /// `self + other`, or `None` on overflow of a part.
    pub fn checked_add(self, other: Value) -> (r: Option<Value>)
        requires
            self.wf(),
            other.wf(),
        ensures
            match r {
                Some(v) => v.wf() && rat_add(
                    self.num as int,
                    self.den as int,
                    other.num as int,
                    other.den as int,
                ) == Some((v.num as int, v.den as int)),
                None => rat_add(
                    self.num as int,
                    self.den as int,
                    other.num as int,
                    other.den as int,
                ) is None,
            },
    {
        proof {
            lemma_i64_mul_range(self.num as int, other.den as int);
            lemma_i64_mul_range(other.num as int, self.den as int);
            lemma_i64_mul_range(self.den as int, other.den as int);
        }
        let n: i128 = self.num as i128 * other.den as i128 + other.num as i128 * self.den as i128;
        let d: i128 = self.den as i128 * other.den as i128;
        if n < i64::MIN as i128 || n > i64::MAX as i128 || d > i64::MAX as i128 {
            None
        } else {
            Some(Value { num: n as i64, den: d as i64 })
        }
    }

    /// `self - other`, or `None` on overflow of a part.
    pub fn checked_sub(self, other: Value) -> (r: Option<Value>)
        requires
            self.wf(),
            other.wf(),
        ensures
            match r {
                Some(v) => v.wf() && rat_sub(
                    self.num as int,
                    self.den as int,
                    other.num as int,
                    other.den as int,
                ) == Some((v.num as int, v.den as int)),
                None => rat_sub(
                    self.num as int,
                    self.den as int,
                    other.num as int,
                    other.den as int,
                ) is None,
            },
    {
        proof {
            lemma_i64_mul_range(self.num as int, other.den as int);
            lemma_i64_mul_range(other.num as int, self.den as int);
            lemma_i64_mul_range(self.den as int, other.den as int);
        }
        let n: i128 = self.num as i128 * other.den as i128 - other.num as i128 * self.den as i128;
        let d: i128 = self.den as i128 * other.den as i128;
        if n < i64::MIN as i128 || n > i64::MAX as i128 || d > i64::MAX as i128 {
            None
        } else {
            Some(Value { num: n as i64, den: d as i64 })
        }
    }

    /// `self * other`, or `None` on overflow of a part.
    pub fn checked_mul(self, other: Value) -> (r: Option<Value>)
        requires
            self.wf(),
            other.wf(),
        ensures
            match r {
                Some(v) => v.wf() && rat_mul(
                    self.num as int,
                    self.den as int,
                    other.num as int,
                    other.den as int,
                ) == Some((v.num as int, v.den as int)),
                None => rat_mul(
                    self.num as int,
                    self.den as int,
                    other.num as int,
                    other.den as int,
                ) is None,
            },
    {
        proof {
            lemma_i64_mul_range(self.num as int, other.num as int);
            lemma_i64_mul_range(self.den as int, other.den as int);
        }
        let n: i128 = self.num as i128 * other.num as i128;
        let d: i128 = self.den as i128 * other.den as i128;
        if n < i64::MIN as i128 || n > i64::MAX as i128 || d > i64::MAX as i128 {
            None
        } else {
            Some(Value { num: n as i64, den: d as i64 })
        }
    }

    /// `self / other` for a nonzero `other`, or `None` on overflow of a part.
    pub fn checked_div(self, other: Value) -> (r: Option<Value>)
        requires
            self.wf(),
            other.wf(),
            other.num != 0,
        ensures
            match r {
                Some(v) => v.wf() && rat_div(
                    self.num as int,
                    self.den as int,
                    other.num as int,
                    other.den as int,
                ) == Some((v.num as int, v.den as int)),
                None => rat_div(
                    self.num as int,
                    self.den as int,
                    other.num as int,
                    other.den as int,
                ) is None,
            },
    {
        proof {
            lemma_i64_mul_range(self.num as int, other.den as int);
            lemma_i64_mul_range(self.den as int, other.num as int);
        }
        let n0: i128 = self.num as i128 * other.den as i128;
        let d0: i128 = self.den as i128 * other.num as i128;
        let n: i128 = if other.num < 0 { -n0 } else { n0 };
        let d: i128 = if other.num < 0 { -d0 } else { d0 };
        if n < i64::MIN as i128 || n > i64::MAX as i128 || d > i64::MAX as i128 {
            None
        } else {
            Some(Value { num: n as i64, den: d as i64 })
        }
    }
}

} // verus!
