//! Whole numbers inside 64-bit floating-point values, by their bits.
//!
//! A whole number of magnitude below two to the fifty-third has an exact
//! floating-point form, and sums of such numbers that stay below it are exact
//! in any order.

use vstd::arithmetic::div_mod::*;
use vstd::arithmetic::mul::*;
use vstd::arithmetic::power2::*;
use vstd::prelude::*;
use crate::value::{Value, ValueModel};

verus! {

/// Two to the fifty-third: below it every whole number is exact.
pub const EXACT_INTEGER_LIMIT: u64 = 0x20_0000_0000_0000;

/// Two to the fifty-second: the leading digit of a normal number.
pub const LEAD: u64 = 0x10_0000_0000_0000;

/// The sign bit.
pub const SIGN: u64 = 0x8000_0000_0000_0000;

/// The exponent field of a number of at least two to the fifty-second.
pub const UNIT_EXPONENT: u64 = 1075;

/// The exponent field of one.
pub const ONE_EXPONENT: u64 = 1023;

/// The whole number that floating-point bits stand for, where they stand for
/// one of magnitude below two to the fifty-third.
pub open spec fn whole(bits: u64) -> Option<int> {
    let e = (bits / LEAD) % 2048;
    let m = bits % LEAD;
    if e == 0 && m == 0 {
        Some(0)
    } else if e < ONE_EXPONENT || e > UNIT_EXPONENT {
        None
    } else {
        let unit = pow2((UNIT_EXPONENT - e) as nat) as int;
        let n = LEAD + m;
        if n % unit != 0 {
            None
        } else if bits >= SIGN {
            Some(-(n / unit))
        } else {
            Some(n / unit)
        }
    }
}

/// Double `a` until its leading digit stands at two to the fifty-second,
/// lowering the exponent as often.
pub open spec fn raised(a: nat, e: int) -> (nat, int)
    decreases EXACT_INTEGER_LIMIT - a,
{
    if a == 0 || a >= LEAD {
        (a, e)
    } else {
        raised(2 * a, e - 1)
    }
}

/// The floating-point bits of a whole number.
pub open spec fn float_of(n: int) -> u64 {
    let a = if n < 0 {
        -n
    } else {
        n
    };
    if a == 0 {
        0
    } else {
        let (lead, e) = raised(a as nat, UNIT_EXPONENT as int);
        ((if n < 0 {
            SIGN as int
        } else {
            0
        }) + e * LEAD + (lead - LEAD)) as u64
    }
}

proof fn lemma_raised(a: nat, e: int, n: nat)
    requires
        0 < a < EXACT_INTEGER_LIMIT,
        0 < n < EXACT_INTEGER_LIMIT,
        ONE_EXPONENT <= e <= UNIT_EXPONENT,
        a == n * pow2((UNIT_EXPONENT - e) as nat),
    ensures
        ({
            let (lead, x) = raised(a, e);
            &&& LEAD <= lead < EXACT_INTEGER_LIMIT
            &&& ONE_EXPONENT <= x <= e
            &&& lead == n * pow2((UNIT_EXPONENT - x) as nat)
        }),
    decreases EXACT_INTEGER_LIMIT - a,
{
    let k = (UNIT_EXPONENT - e) as nat;
    if a < LEAD {
        lemma_pow2_unfold(k + 1);
        assert(n * pow2(k + 1) == 2 * a) by (nonlinear_arith)
            requires
                a == n * pow2(k),
                pow2(k + 1) == 2 * pow2(k),
        ;
        if e == ONE_EXPONENT {
            lemma_unit_of_one();
            assert(a >= LEAD) by (nonlinear_arith)
                requires
                    a == n * pow2(k),
                    n >= 1,
                    pow2(k) == LEAD,
            ;
        }
        lemma_raised(2 * a, e - 1, n);
    }
}

proof fn lemma_unit_of_one()
    ensures
        pow2(52) == LEAD,
{
    lemma2_to64();
    lemma2_to64_rest();
}

/// Every whole number of magnitude below two to the fifty-third survives being
/// written as a floating-point value.
pub proof fn whole_numbers_are_exact(n: int)
    requires
        -EXACT_INTEGER_LIMIT < n < EXACT_INTEGER_LIMIT,
    ensures
        whole(float_of(n)) == Some(n),
{
    let a = (if n < 0 {
        -n
    } else {
        n
    }) as nat;
    if a > 0 {
        lemma2_to64();
        assert(a == a * pow2(0));
        lemma_raised(a, UNIT_EXPONENT as int, a);
        let (lead, e) = raised(a, UNIT_EXPONENT as int);
        let bits = float_of(n);
        let unit = pow2((UNIT_EXPONENT - e) as nat) as int;
        assert(bits as int == (if n < 0 {
            SIGN as int
        } else {
            0
        }) + e * LEAD + (lead - LEAD));
        assert((bits / LEAD) % 2048 == e);
        assert(bits % LEAD == lead - LEAD);
        lemma_pow2_pos((UNIT_EXPONENT - e) as nat);
        assert(lead as int % unit == 0 && lead as int / unit == a as int) by {
            lemma_div_multiples_vanish(a as int, unit);
            lemma_mod_multiples_basic(a as int, unit);
            lemma_mul_is_commutative(a as int, unit);
        }
    } else {
        assert(0u64 / LEAD == 0 && 0u64 % LEAD == 0);
    }
}

fn power_of_two(k: u64) -> (p: u64)
    requires
        k <= 52,
    ensures
        p == pow2(k as nat),
        1 <= p <= LEAD,
{
    let mut p: u64 = 1;
    let mut i: u64 = 0;
    proof {
        lemma2_to64();
        lemma_unit_of_one();
    }
    while i < k
        invariant
            i <= k <= 52,
            p == pow2(i as nat),
            pow2(52) == LEAD,
        decreases k - i,
    {
        proof {
            lemma_pow2_unfold((i + 1) as nat);
            if i + 1 < 52 {
                lemma_pow2_strictly_increases((i + 1) as nat, 52);
            }
        }
        p = p * 2;
        i += 1;
    }
    proof {
        if k < 52 {
            lemma_pow2_strictly_increases(k as nat, 52);
        }
        lemma_pow2_pos(k as nat);
    }
    p
}

/// The whole number floating-point bits stand for, if any.
pub fn whole_of(bits: u64) -> (n: Option<i64>)
    ensures
        match whole(bits) {
            Some(v) => n == Some(v as i64) && -EXACT_INTEGER_LIMIT < v < EXACT_INTEGER_LIMIT,
            None => n is None,
        },
{
    let e: u64 = (bits / LEAD) % 2048;
    let m: u64 = bits % LEAD;
    if e == 0 && m == 0 {
        return Some(0);
    }
    if e < ONE_EXPONENT || e > UNIT_EXPONENT {
        return None;
    }
    let unit: u64 = power_of_two(UNIT_EXPONENT - e);
    let n: u64 = LEAD + m;
    if n % unit != 0 {
        return None;
    }
    let q: u64 = n / unit;
    assert(q <= n) by {
        lemma_div_is_ordered_by_denominator(n as int, 1, unit as int);
        lemma_div_by_one(n as int);
    }
    if bits >= SIGN {
        Some(-(q as i64))
    } else {
        Some(q as i64)
    }
}

proof fn lemma_div_by_one(n: int)
    ensures
        n / 1 == n,
{
}

/// The floating-point bits of a whole number.
pub fn float_bits(n: i64) -> (bits: u64)
    requires
        -EXACT_INTEGER_LIMIT < n < EXACT_INTEGER_LIMIT,
    ensures
        bits == float_of(n as int),
        whole(bits) == Some(n as int),
{
    proof {
        whole_numbers_are_exact(n as int);
    }
    if n == 0 {
        return 0;
    }
    let a: u64 = if n < 0 { (-n) as u64 } else { n as u64 };
    let mut lead: u64 = a;
    let mut e: u64 = UNIT_EXPONENT;
    proof {
        lemma2_to64();
        assert(lead == a * pow2(0));
    }
    while lead < LEAD
        invariant
            0 < a < EXACT_INTEGER_LIMIT,
            0 < lead < EXACT_INTEGER_LIMIT,
            ONE_EXPONENT <= e <= UNIT_EXPONENT,
            lead == a * pow2((UNIT_EXPONENT - e) as nat),
            raised(a as nat, UNIT_EXPONENT as int) == raised(lead as nat, e as int),
        decreases EXACT_INTEGER_LIMIT - lead,
    {
        proof {
            let k = (UNIT_EXPONENT - e) as nat;
            lemma_raised(lead as nat, e as int, a as nat);
            lemma_pow2_unfold(k + 1);
            assert(a * pow2(k + 1) == 2 * lead) by (nonlinear_arith)
                requires
                    lead == a * pow2(k),
                    pow2(k + 1) == 2 * pow2(k),
            ;
            if e == ONE_EXPONENT {
                lemma_unit_of_one();
                assert(lead >= LEAD) by (nonlinear_arith)
                    requires
                        lead == a * pow2(k),
                        a >= 1,
                        pow2(k) == LEAD,
                ;
            }
        }
        lead = lead * 2;
        e = e - 1;
    }
    proof {
        lemma_raised(lead as nat, e as int, a as nat);
    }
    let magnitude: u64 = e * LEAD + (lead - LEAD);
    if n < 0 {
        SIGN + magnitude
    } else {
        magnitude
    }
}

/// A value as a number: exact, or too large or too fine to be added up
/// exactly.
pub enum NumberModel {
    Exact(int),
    Rough,
}

/// What a value counts for in a sum. Nothing but numbers counts.
pub open spec fn number(v: ValueModel) -> Option<NumberModel> {
    match v {
        ValueModel::I64(n) => Some(
            if -EXACT_INTEGER_LIMIT < n < EXACT_INTEGER_LIMIT {
                NumberModel::Exact(n as int)
            } else {
                NumberModel::Rough
            },
        ),
        ValueModel::U64(n) => Some(
            if n < EXACT_INTEGER_LIMIT {
                NumberModel::Exact(n as int)
            } else {
                NumberModel::Rough
            },
        ),
        ValueModel::F64(bits) => Some(
            match whole(bits) {
                Some(n) => NumberModel::Exact(n),
                None => NumberModel::Rough,
            },
        ),
        _ => None,
    }
}

/// A value as a number.
#[derive(Clone, Copy, Debug, PartialEq, Eq, Structural)]
pub enum Number {
    Exact(i64),
    Rough,
}

impl View for Number {
    type V = NumberModel;

    open spec fn view(&self) -> NumberModel {
        match self {
            Number::Exact(n) => NumberModel::Exact(*n as int),
            Number::Rough => NumberModel::Rough,
        }
    }
}

/// What a value counts for in a sum.
pub fn number_of(v: &Value) -> (r: Option<Number>)
    ensures
        match number(v.model()) {
            Some(m) => r matches Some(n) && n@ == m,
            None => r is None,
        },
        r matches Some(Number::Exact(n)) ==> -EXACT_INTEGER_LIMIT < n < EXACT_INTEGER_LIMIT,
{
    match v {
        Value::I64(n) => {
            if -0x20_0000_0000_0000 < *n && *n < 0x20_0000_0000_0000 {
                Some(Number::Exact(*n))
            } else {
                Some(Number::Rough)
            }
        },
        Value::U64(n) => {
            if *n < EXACT_INTEGER_LIMIT {
                Some(Number::Exact(*n as i64))
            } else {
                Some(Number::Rough)
            }
        },
        Value::F64(bits) => match whole_of(*bits) {
            Some(n) => Some(Number::Exact(n)),
            None => Some(Number::Rough),
        },
        _ => None,
    }
}

// -- sizes -------------------------------------------------------------------

/// A size, no more than a `usize` holds.
pub open spec fn capped(n: int) -> usize {
    if n <= usize::MAX {
        n as usize
    } else {
        usize::MAX
    }
}

pub fn add_capped(a: usize, b: usize) -> (n: usize)
    ensures
        n == capped(a + b),
{
    if a > usize::MAX - b {
        usize::MAX
    } else {
        a + b
    }
}

pub fn mul_capped(a: usize, b: usize) -> (n: usize)
    ensures
        n == capped(a * b),
{
    match a.checked_mul(b) {
        Some(n) => n,
        None => usize::MAX,
    }
}

/// A number counts in a sum for what it is: whole numbers, signed, unsigned or
/// floating-point, of magnitude below two to the fifty-third count for themselves. No
/// other whole number is exact, and what is no number counts for nothing.
pub proof fn numbers_count_for_what_they_are(v: ValueModel, n: int)
    ensures
        v matches ValueModel::I64(x) ==> number(v) == Some(
            if -0x20_0000_0000_0000 < x < 0x20_0000_0000_0000 {
                NumberModel::Exact(x as int)
            } else {
                NumberModel::Rough
            },
        ),
        v matches ValueModel::U64(x) ==> number(v) == Some(
            if x < 0x20_0000_0000_0000 {
                NumberModel::Exact(x as int)
            } else {
                NumberModel::Rough
            },
        ),
        -0x20_0000_0000_0000 < n < 0x20_0000_0000_0000 ==> number(ValueModel::F64(float_of(n)))
            == Some(NumberModel::Exact(n)),
        number(v) is Some <==> v is I64 || v is U64 || v is F64,
{
    if -0x20_0000_0000_0000 < n < 0x20_0000_0000_0000 {
        whole_numbers_are_exact(n);
    }
}

} // verus!
