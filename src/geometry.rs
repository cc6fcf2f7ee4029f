//! Lengths, numbers in values, and the centering of content on a canvas.
//!
//! Sizes are given in units of 1/10000 point. Positions that the compositor
//! computes are halves of such lengths and are held in units of 1/100000 point.
use vstd::prelude::*;
use crate::object::{Decimal, Value};

verus! {

/// The largest length accepted, in units of 1/10000 point (one hundred million points).
pub const MAX_LENGTH: i64 = 1_000_000_000_000;

/// A width and a height in units of 1/10000 point.
#[derive(Clone, Copy, PartialEq, Eq, Structural, Debug)]
pub struct Size {
    pub width: i64,
    pub height: i64,
}

impl Size {
    /// Both sides lie between zero and `MAX_LENGTH`.
    pub open spec fn valid(self) -> bool {
        0 <= self.width <= MAX_LENGTH && 0 <= self.height <= MAX_LENGTH
    }

    /// A size given in whole points.
    pub fn points(width: i64, height: i64) -> (r: Size)
        requires
            0 <= width <= 100_000_000,
            0 <= height <= 100_000_000,
        ensures
            r.width == width * 10000,
            r.height == height * 10000,
            r.valid(),
    {
        Size { width: width * 10000, height: height * 10000 }
    }
}

/// Ten to the power `n`.
pub open spec fn pow10(n: nat) -> int
    decreases n,
{
    if n == 0 {
        1
    } else {
        10 * pow10((n - 1) as nat)
    }
}

/// The number a value holds, times `10^s`, where that is a whole number.
pub open spec fn scaled(v: Value, s: nat) -> Option<int> {
    match v {
        Value::Integer(i) => Some(i * pow10(s)),
        Value::Real(d) => if d.scale <= s {
            Some(d.mantissa * pow10((s - d.scale) as nat))
        } else {
            None
        },
        _ => None,
    }
}

/// The offset that centers a length `inner` within a length `outer`, both in
/// units of 1/10000 point; the offset is in units of 1/100000 point.
pub open spec fn center_offset(outer: int, inner: int) -> int {
    (outer - inner) * 5
}

/// The centering offset leaves equal margins on both sides: the offset read
/// back from the canvas and the content it was computed from is the same on
/// the far side.
pub proof fn lemma_center_symmetric(outer: int, inner: int)
    ensures
        center_offset(outer, inner) == outer * 10 - (center_offset(outer, inner) + inner * 10),
        2 * center_offset(outer, inner) == (outer - inner) * 10,
{
}

/// A number value for `m` units of 1/100000 point: an integer where `m` is a
/// whole number of points, a decimal otherwise.
pub fn scaled_number(m: i64) -> (r: Value)
    ensures
        scaled(r, 5) == Some(m as int),
        r is Integer || r is Real,
{
    proof {
        reveal_with_fuel(pow10, 6);
    }
    assert(pow10(5) == 100000 && pow10(0) == 1);
    if m % 100000 == 0 {
        proof {
            vstd::arithmetic::div_mod::lemma_fundamental_div_mod(m as int, 100000);
        }
        Value::Integer(m / 100000)
    } else {
        Value::Real(Decimal { mantissa: m, scale: 5 })
    }
}

/// A number value for a length in units of 1/10000 point.
pub fn length_number(u: i64) -> (r: Value)
    ensures
        scaled(r, 4) == Some(u as int),
        r is Integer || r is Real,
{
    proof {
        reveal_with_fuel(pow10, 5);
    }
    assert(pow10(4) == 10000 && pow10(0) == 1);
    if u % 10000 == 0 {
        proof {
            vstd::arithmetic::div_mod::lemma_fundamental_div_mod(u as int, 10000);
        }
        Value::Integer(u / 10000)
    } else {
        Value::Real(Decimal { mantissa: u, scale: 4 })
    }
}

/// `m / 10^shift` rounded toward zero.
pub open spec fn truncated(m: int, shift: nat) -> int {
    if m >= 0 {
        m / pow10(shift)
    } else {
        -((-m) / pow10(shift))
    }
}

/// The number a value holds in units of 1/10000 point, rounded toward zero
/// where it has more decimals than that.
pub open spec fn in_units(v: Value) -> Option<int> {
    match v {
        Value::Real(d) => if d.scale > 4 {
            Some(truncated(d.mantissa as int, (d.scale - 4) as nat))
        } else {
            scaled(v, 4)
        },
        _ => scaled(v, 4),
    }
}

/// The coordinate a value holds in units of 1/10000 point (rounded toward
/// zero), when it is a number within `MAX_LENGTH`.
pub open spec fn coordinate(v: Value) -> Option<int> {
    match in_units(v) {
        Some(u) => if -MAX_LENGTH <= u <= MAX_LENGTH {
            Some(u)
        } else {
            None
        },
        None => None,
    }
}

/// Ten to a power grows with the power.
proof fn lemma_pow10_grows(a: nat, b: nat)
    requires
        a <= b,
    ensures
        1 <= pow10(a) <= pow10(b),
    decreases b,
{
    if b > 0 && a < b {
        lemma_pow10_grows(a, (b - 1) as nat);
    } else if b > 0 {
        lemma_pow10_grows((a - 1) as nat, (b - 1) as nat);
    }
}

/// `m / 10^shift`, rounded toward zero.
fn truncate_decimal(m: i64, shift: u32) -> (r: i64)
    requires
        shift >= 1,
    ensures
        r == truncated(m as int, shift as nat),
{
    let mut a: i128 = if m < 0 {
        -(m as i128)
    } else {
        m as i128
    };
    let ghost whole: int = a as int;
    let mut k: u32 = 0;
    proof {
        assert(pow10(0) == 1);
    }
    while k < shift && a != 0
        invariant
            0 <= k <= shift,
            0 <= a <= whole,
            whole == (if m < 0 { -(m as int) } else { m as int }),
            a == whole / pow10(k as nat),
            pow10(k as nat) >= 1,
            whole <= 0x8000_0000_0000_0000,
            k >= 1 ==> a <= 922_337_203_685_477_580,
        decreases shift - k,
    {
        proof {
            vstd::arithmetic::div_mod::lemma_div_denominator(whole, pow10(k as nat), 10);
            assert(pow10((k + 1) as nat) == 10 * pow10(k as nat));
            assert(pow10(k as nat) * 10 == pow10((k + 1) as nat)) by (nonlinear_arith)
                requires
                    pow10((k + 1) as nat) == 10 * pow10(k as nat),
            ;
            vstd::arithmetic::div_mod::lemma_div_pos_is_pos(a as int, 10);
            vstd::arithmetic::div_mod::lemma_div_is_ordered_by_denominator(a as int, 1, 10);
            vstd::arithmetic::div_mod::lemma_div_is_ordered(a as int, whole, 10);
            vstd::arithmetic::div_mod::lemma_div_is_ordered(whole, 0x8000_0000_0000_0000, 10);
        }
        a = a / 10;
        k = k + 1;
    }
    proof {
        if k < shift {
            // a == 0: the remaining powers only make the quotient smaller.
            lemma_pow10_grows(k as nat, shift as nat);
            vstd::arithmetic::div_mod::lemma_div_is_ordered_by_denominator(whole, pow10(k as nat), pow10(shift as nat));
            vstd::arithmetic::div_mod::lemma_div_pos_is_pos(whole, pow10(shift as nat));
        }
        vstd::arithmetic::div_mod::lemma_div_is_ordered_by_denominator(whole, 1, pow10(shift as nat));
        assert(a == whole / pow10(shift as nat));
        assert(k == 0 ==> a == 0);
    }
    if m < 0 {
        -(a as i64)
    } else {
        a as i64
    }
}

/// Reads a coordinate from a value.
pub fn read_coordinate(v: &Value) -> (r: Option<i64>)
    ensures
        r matches Some(u) ==> coordinate(*v) == Some(u as int),
        r is None ==> coordinate(*v) is None,
{
    proof {
        reveal_with_fuel(pow10, 5);
    }
    match v {
        Value::Integer(i) => {
            if -100_000_000 <= *i && *i <= 100_000_000 {
                Some(*i * 10000)
            } else {
                None
            }
        },
        Value::Real(d) => {
            if d.scale > 4 {
                let u = truncate_decimal(d.mantissa, d.scale - 4);
                if -MAX_LENGTH <= u && u <= MAX_LENGTH {
                    return Some(u);
                } else {
                    return None;
                }
            }
            let f: i64 = if d.scale == 0 {
                10000
            } else if d.scale == 1 {
                1000
            } else if d.scale == 2 {
                100
            } else if d.scale == 3 {
                10
            } else {
                1
            };
            assert(f == pow10((4 - d.scale) as nat));
            if -MAX_LENGTH <= d.mantissa && d.mantissa <= MAX_LENGTH {
                assert(-MAX_LENGTH * 10000 <= d.mantissa * f <= MAX_LENGTH * 10000) by (nonlinear_arith)
                    requires
                        -MAX_LENGTH <= d.mantissa <= MAX_LENGTH,
                        1 <= f <= 10000,
                ;
                let u = d.mantissa * f;
                if -MAX_LENGTH <= u && u <= MAX_LENGTH {
                    Some(u)
                } else {
                    None
                }
            } else {
                assert(d.mantissa * f > MAX_LENGTH || d.mantissa * f < -MAX_LENGTH) by (nonlinear_arith)
                    requires
                        d.mantissa > MAX_LENGTH || d.mantissa < -MAX_LENGTH,
                        1 <= f,
                ;
                None
            }
        },
        _ => None,
    }
}

} // verus!
