//! What floating-point arithmetic comes to, in whole numbers.
//!
//! A ratio is printed as the nearest double would be: every operation rounds to
//! fifty-three bits, halves to the even one, and so does the text to its one decimal.
//! A positive double is a number of exactly fifty-three bits times a power of two.

use vstd::arithmetic::power2::{
    lemma2_to64, lemma2_to64_rest, lemma_pow2_adds, lemma_pow2_pos, lemma_pow2_strictly_increases,
    lemma_pow2_unfold, pow2,
};
use vstd::prelude::*;
use vstd::string::*;
use crate::text::{dec_text, push_dec};

verus! {

/// Two to the fifty-second: the least number of fifty-three bits.
pub const LEAST: u64 = 0x10_0000_0000_0000;

/// Two to the fifty-third: the least number of one bit more.
pub const PAST: u64 = 0x20_0000_0000_0000;

/// The whole number nearest to a fraction, halves to the even one.
pub open spec fn nearest(num: nat, den: nat) -> nat {
    let q = num / den;
    let r = num % den;
    if 2 * r < den || (2 * r == den && q % 2 == 0) {
        q
    } else {
        q + 1
    }
}

/// A positive double: `m` times two to the `e`.
pub struct DoubleModel {
    pub m: nat,
    pub e: int,
}

/// A number of fifty-three bits or one past them, times two to the `e`.
pub open spec fn carried(m: nat, e: int) -> DoubleModel {
    if m == PAST {
        DoubleModel { m: LEAST as nat, e: e + 1 }
    } else {
        DoubleModel { m, e }
    }
}

/// A fraction of at least fifty-three bits, times two to the `e`, rounded to them.
pub open spec fn shed(n: nat, d: nat, e: int) -> DoubleModel
    decreases
            if n >= PAST * d {
                (n - PAST * d + 1) as nat
            } else {
                0
            },
{
    if d == 0 || n < PAST * d {
        carried(nearest(n, d), e)
    } else {
        shed(n, 2 * d, e + 1)
    }
}

/// The double nearest to a whole number times two to the `e`.
pub open spec fn rounded(n: nat, e: int) -> DoubleModel
    decreases
            if n < LEAST {
                (LEAST - n) as nat
            } else {
                0
            },
{
    if 0 < n < LEAST {
        rounded(2 * n, e - 1)
    } else {
        shed(n, 1, e)
    }
}

/// The double nearest to the quotient of two.
pub open spec fn quotient(a: DoubleModel, b: DoubleModel) -> DoubleModel {
    if a.m >= b.m {
        carried(nearest(a.m * LEAST as nat, b.m), a.e - b.e - 52)
    } else {
        carried(nearest(a.m * PAST as nat, b.m), a.e - b.e - 53)
    }
}

/// How far a double is from one, if it is not one; the nearest double to that.
pub open spec fn gap_from_one(a: DoubleModel) -> Option<DoubleModel> {
    let (x, y, e) = if a.e >= 0 {
        (a.m * pow2(a.e as nat), 1nat, 0int)
    } else {
        (a.m, pow2((-a.e) as nat), a.e)
    };
    if x == y {
        None
    } else if x > y {
        Some(rounded((x - y) as nat, e))
    } else {
        Some(rounded((y - x) as nat, e))
    }
}

/// Whether a double is below one.
pub open spec fn below_one(a: DoubleModel) -> bool {
    a.e < 0 && a.m < pow2((-a.e) as nat)
}

/// How many tenths a double is, to the nearest.
pub open spec fn tenths(a: DoubleModel) -> nat {
    if a.e >= 0 {
        a.m * 10 * pow2(a.e as nat)
    } else {
        nearest(a.m * 10, pow2((-a.e) as nat))
    }
}

/// A hundred times a double.
pub open spec fn hundredfold(a: DoubleModel) -> DoubleModel {
    rounded(a.m * 100, a.e)
}

pub open spec fn tenths_text(n: nat) -> Seq<char> {
    dec_text(n / 10) + "."@ + dec_text(n % 10) + "%"@
}

/// One number as a percentage of another, to one decimal.
pub open spec fn share_text(part: u64, whole: u64) -> Seq<char> {
    if part == 0 {
        tenths_text(0)
    } else {
        tenths_text(
            tenths(hundredfold(quotient(rounded(part as nat, 0), rounded(whole as nat, 0)))),
        )
    }
}

/// By how many percent a ratio differs from one, signed, to one decimal.
pub open spec fn percent_text(r: (u64, u64)) -> Seq<char> {
    let (c, b) = r;
    if c == 0 {
        "-"@ + tenths_text(1000)
    } else {
        let q = quotient(rounded(c as nat, 0), rounded(b as nat, 0));
        let sign = if below_one(q) {
            "-"@
        } else {
            "+"@
        };
        sign + tenths_text(
            match gap_from_one(q) {
                Some(g) => tenths(hundredfold(g)),
                None => 0,
            },
        )
    }
}

// -- computing it ---------------------------------------------------------------------

#[derive(Clone, Copy)]
struct Double {
    m: u64,
    e: i32,
}

impl Double {
    spec fn model(&self) -> DoubleModel {
        DoubleModel { m: self.m as nat, e: self.e as int }
    }

    /// Whether this is a double whose exponent lies between two.
    spec fn within(&self, low: int, high: int) -> bool {
        LEAST <= self.m < PAST && low <= self.e <= high
    }
}

/// Two to a small power.
fn two_to(k: u32) -> (r: u128)
    requires
        k <= 120,
    ensures
        r == pow2(k as nat),
        0 < r <= 0x100_0000_0000_0000_0000_0000_0000_0000,
{
    let mut r: u128 = 1;
    let mut i: u32 = 0;
    proof {
        lemma2_to64();
    }
    while i < k
        invariant
            i <= k <= 120,
            r == pow2(i as nat),
        decreases k - i,
    {
        proof {
            lemma_pow2_unfold((i + 1) as nat);
            lemma_pow_bound(i as nat);
        }
        r = r * 2;
        i += 1;
    }
    proof {
        lemma_pow_bound(k as nat);
    }
    r
}

proof fn lemma_pow_bound(k: nat)
    requires
        k <= 120,
    ensures
        0 < pow2(k) <= 0x100_0000_0000_0000_0000_0000_0000_0000,
{
    lemma_pow2_pos(k);
    lemma2_to64();
    lemma2_to64_rest();
    lemma_pow2_adds(64, 56);
    if k < 120 {
        lemma_pow2_strictly_increases(k, 120);
    }
}

/// A power below another is of a lower exponent.
proof fn lemma_lower_power(a: nat, b: nat)
    requires
        pow2(a) < pow2(b),
    ensures
        a < b,
{
    if b < a {
        lemma_pow2_strictly_increases(b, a);
    }
}

fn nearest_of(num: u128, den: u128) -> (r: u128)
    requires
        0 < den <= 0x100_0000_0000_0000_0000_0000_0000_0000,
        num <= 0x1000_0000_0000_0000_0000_0000_0000_0000,
    ensures
        r == nearest(num as nat, den as nat),
{
    let q: u128 = num / den;
    let rest: u128 = num % den;
    assert(q <= num) by (nonlinear_arith)
        requires
            q == num / den,
            den > 0,
    ;
    if 2 * rest < den || (2 * rest == den && q % 2 == 0) {
        q
    } else {
        q + 1
    }
}

/// What is nearest to a fraction of fifty-three bits is of fifty-three bits, or is the
/// first number past them.
proof fn lemma_nearest_between(n: nat, d: nat)
    requires
        d > 0,
        LEAST * d <= n < PAST * d,
    ensures
        LEAST <= nearest(n, d) <= PAST,
{
    assert(LEAST <= n / d < PAST) by (nonlinear_arith)
        requires
            d > 0,
            LEAST * d <= n < PAST * d,
    ;
}

fn carry(m: u128, e: i32) -> (r: Double)
    requires
        LEAST <= m <= PAST,
        -2000 <= e <= 2000,
    ensures
        r.model() == carried(m as nat, e as int),
        r.within(e as int, e + 1),
        m < PAST ==> r.e == e,
{
    if m == PAST as u128 {
        Double { m: LEAST, e: e + 1 }
    } else {
        Double { m: m as u64, e }
    }
}

/// The double nearest to a whole number times two to the `e`.
fn round_to(n: u128, e: i32) -> (r: Double)
    requires
        0 < n < 0x100_0000_0000_0000_0000_0000_0000_0000,
        -1000 <= e <= 1000,
    ensures
        r.model() == rounded(n as nat, e as int),
        r.within(e - 52, e + 120),
        n >= LEAST ==> r.e >= e,
        forall|k: nat| n < LEAST * #[trigger] pow2(k) ==> r.e <= e + k,
{
    let mut x: u128 = n;
    let mut down: i32 = 0;
    proof {
        lemma2_to64();
        lemma2_to64_rest();
    }
    while x < LEAST as u128
        invariant
            0 < x < 0x100_0000_0000_0000_0000_0000_0000_0000,
            0 <= down <= 52,
            -1000 <= e <= 1000,
            pow2(down as nat) <= x,
            down > 0 ==> n < LEAST && x < PAST,
            down == 0 ==> x == n,
            rounded(n as nat, e as int) == rounded(x as nat, e - down),
            pow2(52) == LEAST,
        decreases 52 - down,
    {
        proof {
            lemma_lower_power(down as nat, 52);
            lemma_pow2_unfold((down + 1) as nat);
        }
        x = x * 2;
        down += 1;
    }
    let ghost start = e - down;
    proof {
        lemma_pow2_adds(64, 4);
    }
    let mut d: u128 = 1;
    let mut up: i32 = 0;
    while x >= PAST as u128 * d
        invariant
            LEAST <= x < 0x100_0000_0000_0000_0000_0000_0000_0000,
            0 < d,
            0 <= up <= 120,
            d == pow2(up as nat),
            LEAST * d <= x,
            shed(x as nat, 1, start) == shed(x as nat, d as nat, start + up),
            pow2(68) == 0x10_0000_0000_0000_0000,
        decreases 120 - up,
    {
        proof {
            assert(d < 0x10_0000_0000_0000_0000) by (nonlinear_arith)
                requires
                    LEAST * d <= x,
                    x < 0x100_0000_0000_0000_0000_0000_0000_0000,
                    LEAST == 0x10_0000_0000_0000,
            ;
            lemma_lower_power(up as nat, 68);
            lemma_pow2_unfold((up + 1) as nat);
            assert(LEAST * (d * 2) == PAST * d) by (nonlinear_arith)
                requires
                    PAST == 2 * LEAST,
            ;
        }
        d = d * 2;
        up += 1;
    }
    proof {
        lemma_nearest_between(x as nat, d as nat);
        assert forall|k: nat| n < LEAST * #[trigger] pow2(k) implies e - down + up + 1 <= e + k || (
        down > 0 && e - down + up + 1 <= e) by {
            if down > 0 {
                if up > 0 {
                    lemma_pow2_strictly_increases(0, up as nat);
                }
            } else {
                assert(pow2(up as nat) < pow2(k)) by (nonlinear_arith)
                    requires
                        LEAST * pow2(up as nat) < LEAST * pow2(k),
                ;
                lemma_lower_power(up as nat, k);
            }
        }
    }
    let m = nearest_of(x, d);
    carry(m, e - down + up)
}

fn divide(a: Double, b: Double) -> (r: Double)
    requires
        a.within(-100, 100),
        b.within(-100, 100),
    ensures
        r.model() == quotient(a.model(), b.model()),
        r.within(a.e - b.e - 53, a.e - b.e - 51),
{
    let d: u128 = b.m as u128;
    if a.m >= b.m {
        let n: u128 = a.m as u128 * LEAST as u128;
        proof {
            assert(LEAST * d <= n < PAST * d) by (nonlinear_arith)
                requires
                    n == a.m * LEAST,
                    d == b.m,
                    LEAST <= b.m <= a.m < PAST,
                    PAST == 2 * LEAST,
            ;
            lemma_nearest_between(n as nat, d as nat);
        }
        carry(nearest_of(n, d), a.e - b.e - 52)
    } else {
        let n: u128 = a.m as u128 * PAST as u128;
        proof {
            assert(LEAST * d <= n < PAST * d) by (nonlinear_arith)
                requires
                    n == a.m * PAST,
                    d == b.m,
                    LEAST <= a.m < b.m < PAST,
            ;
            lemma_nearest_between(n as nat, d as nat);
        }
        carry(nearest_of(n, d), a.e - b.e - 53)
    }
}

/// The quotient of two whole numbers.
fn divide_whole(a: u64, b: u64) -> (r: Double)
    requires
        a > 0,
        b > 0,
    ensures
        r.model() == quotient(rounded(a as nat, 0), rounded(b as nat, 0)),
        r.within(-117, 13),
{
    proof {
        lemma2_to64();
        assert(a < LEAST * pow2(12));
        assert(b < LEAST * pow2(12));
    }
    let x = round_to(a as u128, 0);
    let y = round_to(b as u128, 0);
    divide(x, y)
}

/// How far a quotient is from one, and whether it is below.
fn gap(a: Double) -> (r: (bool, Option<Double>))
    requires
        a.within(-117, 13),
    ensures
        r.0 == below_one(a.model()),
        match gap_from_one(a.model()) {
            Some(g) => r.1 matches Some(d) && d.model() == g && d.within(-117, 14),
            None => r.1 is None,
        },
{
    proof {
        lemma2_to64();
        lemma2_to64_rest();
    }
    if a.e >= 0 {
        let p = two_to(a.e as u32);
        proof {
            if a.e < 13 {
                lemma_pow2_strictly_increases(a.e as nat, 13);
            }
            assert(LEAST <= a.m * p < PAST * pow2(13)) by (nonlinear_arith)
                requires
                    LEAST <= a.m < PAST,
                    1 <= p <= pow2(13),
            ;
            assert(pow2(14) == 2 * pow2(13));
        }
        let x: u128 = a.m as u128 * p;
        (false, Some(round_to(x - 1, 0)))
    } else {
        let k: u32 = (-a.e) as u32;
        let y = two_to(k);
        let x: u128 = a.m as u128;
        proof {
            if k < 117 {
                lemma_pow2_strictly_increases(k as nat, 117);
            }
            lemma_pow2_adds(64, 53);
            if k >= 54 {
                if k > 54 {
                    lemma_pow2_strictly_increases(54, k as nat);
                }
                assert(pow2(54) == 2 * PAST);
            }
        }
        if x == y {
            (false, None)
        } else if x > y {
            assert(x - y < LEAST * pow2(1));
            (false, Some(round_to(x - y, a.e)))
        } else {
            assert(y - x < LEAST * pow2(k as nat));
            (true, Some(round_to(y - x, a.e)))
        }
    }
}

fn tenths_of_hundredfold(a: Double) -> (n: u128)
    requires
        a.within(-117, 14),
    ensures
        n == tenths(hundredfold(a.model())),
{
    proof {
        lemma2_to64();
        assert(a.m * 100 < LEAST * pow2(8));
    }
    let h = round_to(a.m as u128 * 100, a.e);
    if h.e >= 0 {
        let p = two_to(h.e as u32);
        proof {
            if h.e < 22 {
                lemma_pow2_strictly_increases(h.e as nat, 22);
            }
            assert(h.m * 10 * p <= PAST * 10 * pow2(22)) by (nonlinear_arith)
                requires
                    h.m < PAST,
                    0 < p <= pow2(22),
            ;
        }
        h.m as u128 * 10 * p
    } else {
        nearest_of(h.m as u128 * 10, two_to((-h.e) as u32))
    }
}

/// Append a number of any size in decimal.
fn push_wide(out: &mut String, n: u128)
    ensures
        final(out)@ == old(out)@ + dec_text(n as nat),
    decreases n,
{
    if n <= u64::MAX as u128 {
        push_dec(out, n as u64);
    } else {
        push_wide(out, n / 10);
        push_dec(out, (n % 10) as u64);
        proof {
            assert(dec_text((n % 10) as nat) =~= seq![crate::text::digit_char((n % 10) as nat)]);
            assert(out@ =~= old(out)@ + dec_text(n as nat));
        }
    }
}

fn push_tenths(out: &mut String, n: u128)
    ensures
        final(out)@ == old(out)@ + tenths_text(n as nat),
{
    let ghost start = out@;
    push_wide(out, n / 10);
    out.append(".");
    push_wide(out, n % 10);
    out.append("%");
    assert(out@ =~= start + tenths_text(n as nat));
}

/// Append one number as a percentage of another, to one decimal.
pub fn push_share(out: &mut String, part: u64, whole: u64)
    requires
        whole > 0,
    ensures
        final(out)@ == old(out)@ + share_text(part, whole),
{
    if part == 0 {
        push_tenths(out, 0);
    } else {
        push_tenths(out, tenths_of_hundredfold(divide_whole(part, whole)));
    }
}

/// Append by how many percent a ratio differs from one, signed, to one decimal.
pub fn push_percent(out: &mut String, r: (u64, u64))
    requires
        r.1 > 0,
    ensures
        final(out)@ == old(out)@ + percent_text(r),
{
    let ghost start = out@;
    if r.0 == 0 {
        out.append("-");
        push_tenths(out, 1000);
    } else {
        let (below, g) = gap(divide_whole(r.0, r.1));
        let n: u128 = match g {
            Some(d) => tenths_of_hundredfold(d),
            None => 0,
        };
        if below {
            out.append("-");
        } else {
            out.append("+");
        }
        push_tenths(out, n);
    }
    assert(out@ =~= start + percent_text(r));
}

// -- how near a printed number is --------------------------------------------------------

/// A fraction is taken to the nearest whole number: none is nearer, and where two are as
/// near the even one is taken.
pub proof fn a_fraction_is_taken_to_the_nearest(num: nat, den: nat)
    requires
        den > 0,
    ensures
        2 * (nearest(num, den) * den - num) <= den,
        2 * (num - nearest(num, den) * den) <= den,
        2 * (nearest(num, den) * den - num) == den || 2 * (num - nearest(num, den) * den) == den
            ==> nearest(num, den) % 2 == 0,
{
    let (q, r) = (num / den, num % den);
    vstd::arithmetic::div_mod::lemma_fundamental_div_mod(num as int, den as int);
    assert(q * den == den * q) by (nonlinear_arith);
    assert((q + 1) * den == q * den + den) by (nonlinear_arith);
    assert(0 <= r < den) by {
        vstd::arithmetic::div_mod::lemma_mod_bound(num as int, den as int);
    }
}

/// A whole number of no more than fifty-three bits is a double as it is: only the power of
/// two is another.
pub proof fn a_small_number_is_a_double(n: nat, e: int) -> (k: nat)
    requires
        0 < n < PAST,
    ensures
        rounded(n, e) == (DoubleModel { m: n * pow2(k), e: e - k }),
        LEAST <= n * pow2(k) < PAST,
    decreases
            if n < LEAST {
                (LEAST - n) as nat
            } else {
                0
            },
{
    if n < LEAST {
        let j = a_small_number_is_a_double(2 * n, e - 1);
        lemma_pow2_unfold(j + 1);
        assert((2 * n) * pow2(j) == n * (2 * pow2(j))) by (nonlinear_arith);
        j + 1
    } else {
        vstd::arithmetic::power2::lemma2_to64();
        assert(pow2(0) == 1);
        assert(n / 1 == n && n % 1 == 0);
        0
    }
}

/// Doubling more goes with a larger power.
proof fn lemma_powers_in_order(a: nat, b: nat)
    requires
        a < b,
    ensures
        2 * pow2(a) <= pow2(b),
{
    lemma_pow2_unfold((a + 1) as nat);
    if a + 1 < b {
        lemma_pow2_strictly_increases((a + 1) as nat, b);
    }
}

proof fn lemma_scaled(c: nat, k: nat, j: nat)
    requires
        c > 0,
    ensures
        k < j ==> 2 * (c * pow2(k)) <= c * pow2(j),
        k > j ==> 2 * (c * pow2(j)) <= c * pow2(k),
{
    if k < j {
        lemma_powers_in_order(k, j);
        let (x, y) = (pow2(k), pow2(j));
        assert(2 * (c * x) <= c * y) by (nonlinear_arith)
            requires
                2 * x <= y,
                c > 0,
        {}
    }
    if k > j {
        lemma_powers_in_order(j, k);
        let (x, y) = (pow2(j), pow2(k));
        assert(2 * (c * x) <= c * y) by (nonlinear_arith)
            requires
                2 * x <= y,
                c > 0,
        {}
    }
}

proof fn lemma_more_of(c: nat, b: nat, k: nat)
    requires
        c <= b,
    ensures
        c * pow2(k) <= b * pow2(k),
{
    let x = pow2(k);
    assert(c * x <= b * x) by (nonlinear_arith)
        requires
            c <= b,
            x >= 0,
    {}
}

/// What a quotient of two doubles of fifty-three bits each rounds to is of fifty-three bits.
proof fn lemma_quotient_bits(x: nat, y: nat)
    requires
        LEAST <= x < PAST,
        LEAST <= y < PAST,
    ensures
        x >= y ==> LEAST <= nearest(x * LEAST as nat, y) < PAST,
        x < y ==> LEAST <= nearest(x * PAST as nat, y) < PAST,
{
    if x >= y {
        let n = x * LEAST as nat;
        assert(LEAST * y <= n < PAST * y && 2 * (PAST * y - n) > y) by (nonlinear_arith)
            requires
                n == x * LEAST as nat,
                LEAST <= y <= x < PAST,
                PAST == 2 * LEAST,
        {
            assert(x + 1 <= 2 * y);
            assert(PAST * y - n == LEAST * (2 * y - x));
            assert(LEAST * (2 * y - x) >= LEAST);
        }
        lemma_nearest_between(n, y);
        a_fraction_is_taken_to_the_nearest(n, y);
    } else {
        let n = x * PAST as nat;
        assert(LEAST * y <= n < PAST * y && 2 * (PAST * y - n) > y) by (nonlinear_arith)
            requires
                n == x * PAST as nat,
                LEAST <= x < y < PAST,
                PAST == 2 * LEAST,
        {
            assert(PAST * y - n == PAST * (y - x));
            assert(PAST * (y - x) >= PAST);
            assert(LEAST * y <= LEAST * (2 * x));
        }
        lemma_nearest_between(n, y);
        a_fraction_is_taken_to_the_nearest(n, y);
    }
}

/// A ratio below one is told from one that is not by its sign, where both its numbers are
/// of no more than fifty-three bits.
pub proof fn a_ratio_below_one_has_a_minus(c: u64, b: u64)
    requires
        c < PAST,
        0 < b < PAST,
    ensures
        percent_text((c, b)).len() > 0,
        percent_text((c, b))[0] == '-' <==> c < b,
        percent_text((c, b))[0] == '+' <==> c >= b,
{
    reveal_strlit("-");
    reveal_strlit("+");
    if c > 0 {
        lemma_below_one(c as nat, b as nat);
    }
}

proof fn lemma_below_one(c: nat, b: nat)
    requires
        0 < c < PAST,
        0 < b < PAST,
    ensures
        below_one(quotient(rounded(c, 0), rounded(b, 0))) <==> c < b,
{
    let k = a_small_number_is_a_double(c, 0);
    let j = a_small_number_is_a_double(b, 0);
    let (x, y) = (c * pow2(k), b * pow2(j));
    lemma_quotient_bits(x, y);
    lemma_scaled(c, k, j);
    lemma_scaled(b, k, j);
    lemma2_to64();
    lemma2_to64_rest();
    assert(pow2(52) == LEAST && pow2(53) == PAST);
    if c <= b {
        lemma_more_of(c, b, k);
        lemma_more_of(c, b, j);
    }
    if b <= c {
        lemma_more_of(b, c, k);
        lemma_more_of(b, c, j);
    }
    if x >= y {
        let n = nearest(x * LEAST as nat, y);
        let e = j - k - 52;
        assert(quotient(rounded(c, 0), rounded(b, 0)) == (DoubleModel { m: n, e }));
        if c < b {
            lemma_pow2_pos(j);
            assert(c * pow2(j) < b * pow2(j)) by (nonlinear_arith)
                requires
                    c < b,
                    pow2(j) > 0,
            {}
            assert(k > j);
            if -e > 53 {
                lemma_pow2_strictly_increases(53, (-e) as nat);
            }
        } else {
            assert(k <= j);
            if e < 0 && -e < 52 {
                lemma_pow2_strictly_increases((-e) as nat, 52);
            }
        }
    } else {
        let n = nearest(x * PAST as nat, y);
        let e = j - k - 53;
        assert(quotient(rounded(c, 0), rounded(b, 0)) == (DoubleModel { m: n, e }));
        if c < b {
            assert(k >= j);
            if -e > 53 {
                lemma_pow2_strictly_increases(53, (-e) as nat);
            }
        } else {
            assert(k < j);
            if e < 0 && -e < 52 {
                lemma_pow2_strictly_increases((-e) as nat, 52);
            }
        }
    }
}

} // verus!
