//! IEEE 754 binary64 arithmetic on bit patterns.
//!
//! Every cost estimate of the fabric is a binary64 number. Placement decisions compare such
//! numbers, so the decisions of two coordinators agree only if the arithmetic agrees bit for bit.
//! This module defines each operation by exact integer arithmetic followed by one rounding, and
//! computes it with integers alone.
//!
//! A finite number is an integer multiple of the smallest positive number, `2^-1074`: the
//! specifications count in that unit.

use vstd::arithmetic::div_mod::*;
use vstd::arithmetic::mul::*;
use vstd::arithmetic::power2::*;
use vstd::prelude::*;

verus! {

/// The sign bit.
pub const SIGN_BIT: u64 = 0x8000_0000_0000_0000;

/// The magnitude of infinity; a larger magnitude is not a number.
pub const INFINITE_MAGNITUDE: u64 = 0x7ff0_0000_0000_0000;

/// The weight of the lowest exponent bit, and of the implicit leading significand bit.
pub const HIDDEN_BIT: u64 = 0x0010_0000_0000_0000;

/// Twice `HIDDEN_BIT`: the first integer that a significand cannot hold.
pub const SIGNIFICAND_LIMIT: u64 = 0x0020_0000_0000_0000;

/// A binary64 number, held as its bit pattern.
#[derive(Clone, Copy, Debug)]
pub struct Binary64 {
    pub bits: u64,
}

/// The value of a finite magnitude (a bit pattern without its sign), in units of `2^-1074`.
pub open spec fn units(magnitude: nat) -> nat {
    let exponent = magnitude / HIDDEN_BIT as nat;
    let fraction = magnitude % HIDDEN_BIT as nat;
    if exponent == 0 {
        fraction
    } else {
        (HIDDEN_BIT as nat + fraction) * pow2((exponent - 1) as nat)
    }
}

/// `n / d` rounded to the nearest integer, ties to the even one.
pub open spec fn half_even(n: nat, d: nat) -> nat {
    let q = n / d;
    let r = n % d;
    if 2 * r > d || (2 * r == d && q % 2 == 1) {
        (q + 1) as nat
    } else {
        q
    }
}

/// The least `k` for which `n / d` is below `2^53 * 2^k`.
pub open spec fn scale(n: nat, d: nat) -> nat
    decreases n - d,
{
    if d == 0 || n < d * SIGNIFICAND_LIMIT as nat {
        0
    } else {
        1 + scale(n, 2 * d)
    }
}

/// The magnitude of the binary64 number nearest to `n / d` units, ties to the even significand.
pub open spec fn nearest(n: nat, d: nat) -> nat {
    let k = scale(n, d);
    let rounded = k * HIDDEN_BIT as nat + half_even(n, d * pow2(k));
    if rounded < INFINITE_MAGNITUDE {
        rounded
    } else {
        INFINITE_MAGNITUDE as nat
    }
}

proof fn lemma_constants()
    ensures
        pow2(52) == HIDDEN_BIT,
        pow2(53) == SIGNIFICAND_LIMIT,
        pow2(0) == 1,
{
    lemma2_to64();
    lemma2_to64_rest();
}

proof fn lemma_scale(n: nat, d: nat, k: nat)
    requires
        d > 0,
        n < d * pow2(53 + k),
        k > 0 ==> n >= d * pow2((52 + k) as nat),
    ensures
        scale(n, d) == k,
    decreases k,
{
    lemma_constants();
    if k > 0 {
        let below = (k - 1) as nat;
        lemma_pow2_unfold(53 + k);
        lemma_pow2_unfold((52 + k) as nat);
        assert(d * pow2(53 + k) == (2 * d) * pow2(53 + below)) by (nonlinear_arith)
            requires
                pow2(53 + k) == 2 * pow2((52 + k) as nat),
                53 + below == 52 + k,
        ;
        if below > 0 {
            assert(d * pow2((52 + k) as nat) == (2 * d) * pow2((52 + below) as nat)) by (nonlinear_arith)
                requires
                    pow2((52 + k) as nat) == 2 * pow2((51 + k) as nat),
                    52 + below == 51 + k,
            ;
        }
        if k > 1 {
            lemma_pow2_strictly_increases(53, (52 + k) as nat);
        }
        assert(d * pow2((52 + k) as nat) >= d * pow2(53)) by (nonlinear_arith)
            requires
                pow2((52 + k) as nat) >= pow2(53),
        ;
        lemma_scale(n, 2 * d, below);
    }
}

/// A quotient bracketed by consecutive multiples of `u` rounds as its leading part says.
proof fn lemma_rounding(n: int, dk: int, c: int, u: int, m: int, p: int, h: int, q: int, rem: int, sticky: bool)
    requires
        n >= 0,
        dk > 0,
        c > 0,
        u > 0,
        h > 0,
        p == 2 * h,
        q >= 0,
        m == q * p + rem,
        0 <= rem < p,
        dk * c == u * p,
        m * u <= n * c < (m + 1) * u,
        sticky <==> n * c != m * u,
    ensures
        n / dk == q,
        (2 * (n % dk) > dk) <==> (rem > h || (rem == h && sticky)),
        (2 * (n % dk) == dk) <==> (rem == h && !sticky),
{
    assert((q * dk) * c == (q * p) * u) by (nonlinear_arith)
        requires
            dk * c == u * p,
    ;
    assert(((q + 1) * dk) * c == (q * p + p) * u) by (nonlinear_arith)
        requires
            dk * c == u * p,
    ;
    assert(m * u == (q * p) * u + rem * u) by (nonlinear_arith)
        requires
            m == q * p + rem,
    ;
    assert((m + 1) * u == (q * p) * u + (rem + 1) * u) by (nonlinear_arith)
        requires
            m == q * p + rem,
    ;
    assert((m + 1) * u <= (q * p + p) * u) by (nonlinear_arith)
        requires
            m + 1 <= q * p + p,
            u > 0,
    ;
    assert(rem * u >= 0) by (nonlinear_arith)
        requires
            rem >= 0,
            u > 0,
    ;
    assert(q * dk <= n) by (nonlinear_arith)
        requires
            (q * dk) * c <= n * c,
            c > 0,
    ;
    assert(n < (q + 1) * dk) by (nonlinear_arith)
        requires
            n * c < ((q + 1) * dk) * c,
            c > 0,
    ;
    let r = n - q * dk;
    assert((q + 1) * dk == q * dk + dk) by (nonlinear_arith);
    lemma_fundamental_div_mod_converse(n, dk, q, r);
    assert(r * c == n * c - (q * dk) * c) by (nonlinear_arith)
        requires
            r == n - q * dk,
    ;
    assert(dk * c == 2 * (h * u)) by (nonlinear_arith)
        requires
            dk * c == u * p,
            p == 2 * h,
    ;
    // r * c lies in [rem * u, (rem + 1) * u), to be compared with h * u.
    if rem > h {
        assert(rem * u > h * u) by (nonlinear_arith)
            requires
                rem > h,
                u > 0,
        ;
    } else if rem < h {
        assert((rem + 1) * u <= h * u) by (nonlinear_arith)
            requires
                rem + 1 <= h,
                u > 0,
        ;
    }
    if 2 * (r * c) > dk * c {
        assert(2 * r > dk) by (nonlinear_arith)
            requires
                2 * (r * c) > dk * c,
                c > 0,
        ;
    } else if 2 * (r * c) == dk * c {
        assert(2 * r == dk) by (nonlinear_arith)
            requires
                2 * (r * c) == dk * c,
                c > 0,
        ;
    } else {
        assert(2 * r < dk) by (nonlinear_arith)
            requires
                2 * (r * c) < dk * c,
                c > 0,
        ;
    }
}

/// `e` where it is positive, else zero.
spec fn positive_part(e: int) -> nat {
    if e > 0 {
        e as nat
    } else {
        0
    }
}

/// `n / d` lies in `[m * 2^e, (m + 1) * 2^e)`, and at its lower end exactly if not `sticky`.
spec fn bracketed(m: nat, e: int, sticky: bool, n: nat, d: nat) -> bool {
    let unit = d * pow2(positive_part(e));
    let scaled = n * pow2(positive_part(-e));
    &&& m * unit <= scaled < (m + 1) * unit
    &&& sticky <==> scaled != m * unit
}

fn power_of_two(t: u32) -> (p: u128)
    requires
        t < 127,
    ensures
        p == pow2(t as nat),
{
    let mut p: u128 = 1;
    let mut i: u32 = 0;
    proof {
        lemma_constants();
    }
    while i < t
        invariant
            i <= t < 127,
            p == pow2(i as nat),
        decreases t - i,
    {
        proof {
            lemma_pow2_unfold((i + 1) as nat);
            lemma_pow2_bound(i as nat);
        }
        p = p * 2;
        i = i + 1;
    }
    p
}

proof fn lemma_pow2_bound(i: nat)
    requires
        i <= 126,
    ensures
        0 < pow2(i) <= 0x4000_0000_0000_0000_0000_0000_0000_0000,
{
    lemma_pow2_pos(i);
    lemma2_to64();
    lemma2_to64_rest();
    lemma_pow2_adds(63, 63);
    if i < 126 {
        lemma_pow2_strictly_increases(i, 126);
    }
}

fn bit_length(m: u128) -> (l: u32)
    requires
        0 < m < 0x4000_0000_0000_0000_0000_0000_0000_0000,
    ensures
        1 <= l <= 126,
        pow2((l - 1) as nat) <= m < pow2(l as nat),
{
    let mut l: u32 = 1;
    let mut p: u128 = 2;
    proof {
        lemma2_to64();
    }
    while p <= m
        invariant
            1 <= l <= 126,
            0 < m < 0x4000_0000_0000_0000_0000_0000_0000_0000,
            p == pow2(l as nat),
            pow2((l - 1) as nat) <= m,
        decreases 126 - l,
    {
        proof {
            lemma_pow2_unfold((l + 1) as nat);
            if l == 126 {
                lemma2_to64_rest();
                lemma_pow2_adds(63, 63);
            }
        }
        p = p * 2;
        l = l + 1;
    }
    l
}

/// The scale of a bracketed quotient whose leading part has `l` bits.
proof fn lemma_bracket_scale(m: nat, l: nat, e: int, sticky: bool, n: nat, d: nat, k: nat)
    requires
        d > 0,
        l >= 1,
        pow2((l - 1) as nat) <= m < pow2(l),
        bracketed(m, e, sticky, n, d),
        k == if l + e > 53 {
            l + e - 53
        } else {
            0
        },
    ensures
        scale(n, d) == k,
{
    let ep = positive_part(e);
    let en = positive_part(-e);
    let unit = d * pow2(ep);
    let c = pow2(en);
    lemma_pow2_pos(en);
    lemma_pow2_pos(ep);
    // n * c < 2^l * unit = d * 2^(l + ep) <= d * 2^(53 + k) * c
    lemma_pow2_adds(l, ep);
    assert((m + 1) * unit <= pow2(l) * unit) by (nonlinear_arith)
        requires
            m + 1 <= pow2(l),
            unit >= 0,
    ;
    assert(pow2(l) * unit == d * pow2(l + ep)) by (nonlinear_arith)
        requires
            unit == d * pow2(ep),
            pow2(l + ep) == pow2(l) * pow2(ep),
    ;
    lemma_pow2_adds((53 + k) as nat, en);
    if l + ep < 53 + k + en {
        lemma_pow2_strictly_increases(l + ep, (53 + k + en) as nat);
    }
    assert(d * pow2(l + ep) <= (d * pow2((53 + k) as nat)) * c) by (nonlinear_arith)
        requires
            pow2(l + ep) <= pow2((53 + k) as nat) * c,
    ;
    assert(n < d * pow2((53 + k) as nat)) by (nonlinear_arith)
        requires
            n * c < (d * pow2((53 + k) as nat)) * c,
            c > 0,
    ;
    if k > 0 {
        lemma_pow2_adds((l - 1) as nat, ep);
        lemma_pow2_adds((52 + k) as nat, en);
        assert(m * unit >= pow2((l - 1) as nat) * unit) by (nonlinear_arith)
            requires
                m >= pow2((l - 1) as nat),
                unit >= 0,
        ;
        assert(pow2((l - 1) as nat) * unit == (d * pow2((52 + k) as nat)) * c) by (nonlinear_arith)
            requires
                unit == d * pow2(ep),
                pow2((l - 1) as nat) * pow2(ep) == pow2((52 + k) as nat) * c,
        ;
        assert(n >= d * pow2((52 + k) as nat)) by (nonlinear_arith)
            requires
                n * c >= (d * pow2((52 + k) as nat)) * c,
                c > 0,
        ;
    }
    lemma_scale(n, d, k);
}

/// How a bracketed quotient rounds when `t = k - e > 0` low bits of its leading part are dropped.
proof fn lemma_bracket_round(m: nat, e: int, sticky: bool, n: nat, d: nat, k: nat, q: nat, rem: nat)
    requires
        d > 0,
        bracketed(m, e, sticky, n, d),
        k - e > 0,
        m == q * pow2((k - e) as nat) + rem,
        rem < pow2((k - e) as nat),
    ensures
        ({
            let half = pow2((k - e - 1) as nat);
            half_even(n, d * pow2(k)) == if rem > half || (rem == half && (sticky || q % 2 == 1)) {
                q + 1
            } else {
                q
            }
        }),
{
    let t = (k - e) as nat;
    let ep = positive_part(e);
    let en = positive_part(-e);
    let unit = d * pow2(ep);
    let c = pow2(en);
    let p = pow2(t);
    let half = pow2((t - 1) as nat);
    let dk = d * pow2(k);
    lemma_pow2_pos(en);
    lemma_pow2_pos(ep);
    lemma_pow2_pos(k);
    lemma_pow2_pos((t - 1) as nat);
    lemma_pow2_unfold(t);
    lemma_pow2_adds(k, en);
    lemma_pow2_adds(ep, t);
    assert(k + en == ep + t);
    assert(dk * c == unit * p) by (nonlinear_arith)
        requires
            dk == d * pow2(k),
            unit == d * pow2(ep),
            pow2(k) * c == pow2(ep) * p,
    ;
    assert(dk > 0) by (nonlinear_arith)
        requires
            dk == d * pow2(k),
            d > 0,
            pow2(k) > 0,
    ;
    assert(unit > 0) by (nonlinear_arith)
        requires
            unit == d * pow2(ep),
            d > 0,
            pow2(ep) > 0,
    ;
    lemma_rounding(
        n as int,
        dk as int,
        c as int,
        unit as int,
        m as int,
        p as int,
        half as int,
        q as int,
        rem as int,
        sticky,
    );
}

/// An exact quotient `m * 2^e` is `m * 2^(e - k)` in units of `2^k`.
proof fn lemma_bracket_exact(m: nat, e: nat, n: nat, d: nat, k: nat)
    requires
        d > 0,
        k <= e,
        bracketed(m, e as int, false, n, d),
    ensures
        half_even(n, d * pow2(k)) == m * pow2((e - k) as nat),
{
    let q = m * pow2((e - k) as nat);
    let dk = d * pow2(k);
    lemma_constants();
    lemma_pow2_pos(k);
    lemma_pow2_adds(k, (e - k) as nat);
    assert(n == q * dk) by (nonlinear_arith)
        requires
            n * 1 == m * (d * pow2(e)),
            pow2(e) == pow2(k) * pow2((e - k) as nat),
            q == m * pow2((e - k) as nat),
            dk == d * pow2(k),
    ;
    assert(dk > 0) by (nonlinear_arith)
        requires
            dk == d * pow2(k),
            d > 0,
            pow2(k) > 0,
    ;
    lemma_fundamental_div_mod_converse(n as int, dk as int, q as int, 0);
}

/// Rounds a quotient known by its leading bits: see `bracketed`.
fn round_scaled(m: u128, e: i32, sticky: bool, Ghost(n): Ghost<nat>, Ghost(d): Ghost<nat>) -> (r: u64)
    requires
        d > 0,
        0 < m < 0x4000_0000_0000_0000_0000_0000_0000_0000,
        -10000 <= e <= 10000,
        bracketed(m as nat, e as int, sticky, n, d),
        sticky ==> m >= SIGNIFICAND_LIMIT,
    ensures
        r == nearest(n, d),
        r <= INFINITE_MAGNITUDE,
{
    let l: u32 = bit_length(m);
    let length: i32 = l as i32 + e;
    let k: i32 = if length > 53 {
        length - 53
    } else {
        0
    };
    proof {
        lemma_constants();
        lemma_bracket_scale(m as nat, l as nat, e as int, sticky, n, d, k as nat);
    }
    if k > 2046 {
        return INFINITE_MAGNITUDE;
    }
    let t: i32 = k - e;
    let rounded: u64;
    if t <= 0 {
        proof {
            // A leading part of at most 53 bits is exact.
            if l > 53 {
                assert(false);
            }
            if l < 53 {
                lemma_pow2_strictly_increases(l as nat, 53);
            }
            lemma_bracket_exact(m as nat, e as nat, n, d, k as nat);
            let s = (e - k) as nat;
            lemma_pow2_adds(l as nat, s);
            if l + s < 53 {
                lemma_pow2_strictly_increases((l + s) as nat, 53);
            }
            lemma_pow2_pos(s);
            assert(m * pow2(s) < pow2(l as nat) * pow2(s)) by (nonlinear_arith)
                requires
                    m < pow2(l as nat),
                    pow2(s) > 0,
            ;
        }
        rounded = (m * power_of_two((-t) as u32)) as u64;
    } else if t >= 127 {
        proof {
            lemma_pow2_bound(126);
            lemma_pow2_adds(63, 63);
            lemma2_to64();
            lemma2_to64_rest();
            if t - 1 > 126 {
                lemma_pow2_strictly_increases(126, (t - 1) as nat);
            }
            lemma_pow2_strictly_increases((t - 1) as nat, t as nat);
            lemma_bracket_round(m as nat, e as int, sticky, n, d, k as nat, 0, m as nat);
        }
        rounded = 0;
    } else {
        let p: u128 = power_of_two(t as u32);
        let half: u128 = power_of_two((t - 1) as u32);
        proof {
            lemma_pow2_pos(t as nat);
        }
        let q: u128 = m / p;
        let rem: u128 = m % p;
        proof {
            lemma_fundamental_div_mod(m as int, p as int);
            assert(m == q * p + rem) by (nonlinear_arith)
                requires
                    m == p * q + rem,
            ;
            lemma_bracket_round(m as nat, e as int, sticky, n, d, k as nat, q as nat, rem as nat);
            // q has at most l - t <= 53 bits
            if l <= t {
                if l < t {
                    lemma_pow2_strictly_increases(l as nat, t as nat);
                }
                lemma_fundamental_div_mod_converse(m as int, p as int, 0, m as int);
            } else {
                let s = (l - t) as nat;
                lemma_pow2_adds(s, t as nat);
                if s < 53 {
                    lemma_pow2_strictly_increases(s, 53);
                }
                assert(q < pow2(s)) by (nonlinear_arith)
                    requires
                        q * p <= m,
                        m < pow2(s) * p,
                        p > 0,
                ;
            }
        }
        if rem > half || (rem == half && (sticky || q % 2 == 1)) {
            rounded = (q + 1) as u64;
        } else {
            rounded = q as u64;
        }
    }
    let sum: u64 = k as u64 * HIDDEN_BIT + rounded;
    if sum < INFINITE_MAGNITUDE {
        sum
    } else {
        INFINITE_MAGNITUDE
    }
}

/// Nothing rounds to nothing.
pub proof fn lemma_nearest_zero(d: nat)
    requires
        d > 0,
    ensures
        nearest(0, d) == 0,
{
    lemma_constants();
    assert(scale(0, d) == 0);
    lemma_fundamental_div_mod_converse(0, d as int, 0, 0);
    assert(d * pow2(0) == d) by (nonlinear_arith)
        requires
            pow2(0) == 1,
    ;
}

/// The significand and exponent of a finite magnitude: its value is `significand * 2^exponent`.
fn decompose(magnitude: u64) -> (parts: (u64, u32))
    requires
        magnitude < INFINITE_MAGNITUDE,
    ensures
        units(magnitude as nat) == parts.0 * pow2(parts.1 as nat),
        parts.0 < SIGNIFICAND_LIMIT,
        parts.1 <= 2045,
        parts.1 > 0 ==> parts.0 >= HIDDEN_BIT,
        magnitude == 0 <==> parts.0 == 0,
        parts.1 == if magnitude / HIDDEN_BIT == 0 {
            0
        } else {
            magnitude / HIDDEN_BIT - 1
        },
{
    let exponent: u64 = magnitude / HIDDEN_BIT;
    let fraction: u64 = magnitude % HIDDEN_BIT;
    proof {
        lemma_constants();
        assert(fraction * pow2(0) == fraction) by (nonlinear_arith)
            requires
                pow2(0) == 1,
        ;
    }
    if exponent == 0 {
        (fraction, 0)
    } else {
        (HIDDEN_BIT + fraction, (exponent - 1) as u32)
    }
}

/// A larger magnitude has a larger value.
pub proof fn lemma_units_increase(a: nat, b: nat)
    requires
        a < b,
    ensures
        units(a) < units(b),
{
    let h = HIDDEN_BIT as nat;
    let ea = a / h;
    let eb = b / h;
    let fa = a % h;
    let fb = b % h;
    lemma_constants();
    lemma_pow2_pos((eb - 1) as nat);
    if ea == eb {
        if ea > 0 {
            assert((h + fa) * pow2((ea - 1) as nat) < (h + fb) * pow2((eb - 1) as nat)) by (nonlinear_arith)
                requires
                    ea == eb,
                    fa < fb,
                    pow2((eb - 1) as nat) > 0,
            ;
        }
    } else {
        assert(ea < eb);
        let top = pow2((eb - 1) as nat);
        assert((h + fb) * top >= h * top) by (nonlinear_arith);
        assert(h * top >= h) by (nonlinear_arith)
            requires
                top >= 1,
        ;
        if ea > 0 {
            let low = pow2((ea - 1) as nat);
            lemma_pow2_unfold(ea);
            if ea < eb - 1 {
                lemma_pow2_strictly_increases(ea, (eb - 1) as nat);
            }
            lemma_pow2_pos((ea - 1) as nat);
            assert((h + fa) * low < h * (2 * low)) by (nonlinear_arith)
                requires
                    fa < h,
                    low > 0,
            ;
            assert(h * (2 * low) <= h * top) by (nonlinear_arith)
                requires
                    2 * low <= top,
            ;
        }
    }
}

impl Binary64 {
    pub open spec fn negative(self) -> bool {
        self.bits >= SIGN_BIT
    }

    /// The bit pattern without its sign.
    pub open spec fn magnitude(self) -> nat {
        if self.negative() {
            (self.bits - SIGN_BIT) as nat
        } else {
            self.bits as nat
        }
    }

    pub open spec fn nan(self) -> bool {
        self.magnitude() > INFINITE_MAGNITUDE
    }

    pub open spec fn infinite(self) -> bool {
        self.magnitude() == INFINITE_MAGNITUDE
    }

    pub open spec fn finite(self) -> bool {
        self.magnitude() < INFINITE_MAGNITUDE
    }

    pub open spec fn zero(self) -> bool {
        self.magnitude() == 0
    }

    /// The value of a finite number, in units of `2^-1074`.
    pub open spec fn value(self) -> int {
        if self.negative() {
            -(units(self.magnitude()) as int)
        } else {
            units(self.magnitude()) as int
        }
    }

    pub open spec fn assembled(negative: bool, magnitude: nat) -> Binary64 {
        Binary64 {
            bits: if negative {
                (SIGN_BIT + magnitude) as u64
            } else {
                magnitude as u64
            },
        }
    }

    pub open spec fn quiet_nan() -> Binary64 {
        Binary64 { bits: 0x7ff8_0000_0000_0000 }
    }

    /// The sum, rounded once.
    #[verifier::opaque]
    pub open spec fn sum(self, other: Binary64) -> Binary64 {
        if self.nan() || other.nan() {
            Self::quiet_nan()
        } else if self.infinite() {
            if other.infinite() && self.negative() != other.negative() {
                Self::quiet_nan()
            } else {
                self
            }
        } else if other.infinite() {
            other
        } else {
            let total = self.value() + other.value();
            if total == 0 {
                Self::assembled(self.negative() && other.negative(), 0)
            } else if total < 0 {
                Self::assembled(true, nearest((-total) as nat, 1))
            } else {
                Self::assembled(false, nearest(total as nat, 1))
            }
        }
    }

    pub open spec fn negated(self) -> Binary64 {
        Self::assembled(!self.negative(), self.magnitude())
    }

    /// The difference, rounded once.
    pub open spec fn difference(self, other: Binary64) -> Binary64 {
        self.sum(other.negated())
    }

    /// The product, rounded once.
    #[verifier::opaque]
    pub open spec fn product(self, other: Binary64) -> Binary64 {
        let negative = self.negative() != other.negative();
        if self.nan() || other.nan() {
            Self::quiet_nan()
        } else if self.infinite() || other.infinite() {
            if self.zero() || other.zero() {
                Self::quiet_nan()
            } else {
                Self::assembled(negative, INFINITE_MAGNITUDE as nat)
            }
        } else {
            Self::assembled(
                negative,
                nearest(units(self.magnitude()) * units(other.magnitude()), pow2(1074)),
            )
        }
    }

    /// The quotient, rounded once.
    #[verifier::opaque]
    pub open spec fn quotient(self, other: Binary64) -> Binary64 {
        let negative = self.negative() != other.negative();
        if self.nan() || other.nan() || (self.infinite() && other.infinite()) || (self.zero()
            && other.zero()) {
            Self::quiet_nan()
        } else if self.infinite() || other.zero() {
            Self::assembled(negative, INFINITE_MAGNITUDE as nat)
        } else if other.infinite() {
            Self::assembled(negative, 0)
        } else {
            Self::assembled(
                negative,
                nearest(units(self.magnitude()) * pow2(1074), units(other.magnitude())),
            )
        }
    }

    /// The number nearest to an integer.
    #[verifier::opaque]
    pub open spec fn nearest_to(n: nat) -> Binary64 {
        Self::assembled(false, nearest(n * pow2(1074), 1))
    }

    /// Orders the numbers by value; both zeros have rank zero.
    pub open spec fn rank(self) -> int {
        if self.negative() {
            -(self.magnitude() as int)
        } else {
            self.magnitude() as int
        }
    }

    pub open spec fn less(self, other: Binary64) -> bool {
        !self.nan() && !other.nan() && self.rank() < other.rank()
    }

    pub open spec fn at_most(self, other: Binary64) -> bool {
        !self.nan() && !other.nan() && self.rank() <= other.rank()
    }

    /// Orders all bit patterns: by value, with `-0` below `+0`, and with the patterns that are not
    /// numbers below or above everything else by their sign.
    pub open spec fn total_rank(self) -> int {
        if self.negative() {
            -(self.magnitude() as int) - 1
        } else {
            self.magnitude() as int
        }
    }

    /// The smaller of two numbers, or the one that is a number.
    pub open spec fn minimum(self, other: Binary64) -> Binary64 {
        if self.nan() || other.less(self) {
            other
        } else {
            self
        }
    }

    /// The larger of two numbers, or the one that is a number.
    pub open spec fn maximum(self, other: Binary64) -> Binary64 {
        if self.nan() || self.less(other) {
            other
        } else {
            self
        }
    }

    pub open spec fn clamped(self, low: Binary64, high: Binary64) -> Binary64 {
        if self.less(low) {
            low
        } else if high.less(self) {
            high
        } else {
            self
        }
    }
}

/// Rounds the exact quotient `m * 2^e`, which may be zero.
fn round_exact(m: u128, e: i32, Ghost(n): Ghost<nat>, Ghost(d): Ghost<nat>) -> (r: u64)
    requires
        d > 0,
        m < 0x4000_0000_0000_0000_0000_0000_0000_0000,
        -10000 <= e <= 10000,
        m * (d * pow2(positive_part(e as int))) == n * pow2(positive_part(-(e as int))),
    ensures
        r == nearest(n, d),
        r <= INFINITE_MAGNITUDE,
{
    proof {
        lemma_pow2_pos(positive_part(e as int));
        lemma_pow2_pos(positive_part(-(e as int)));
    }
    let ghost unit = d * pow2(positive_part(e as int));
    if m == 0 {
        proof {
            assert(n == 0) by (nonlinear_arith)
                requires
                    n * pow2(positive_part(-(e as int))) == m * unit,
                    m == 0,
                    pow2(positive_part(-(e as int))) > 0,
            ;
            lemma_nearest_zero(d);
        }
        0
    } else {
        proof {
            assert(unit > 0) by (nonlinear_arith)
                requires
                    unit == d * pow2(positive_part(e as int)),
                    d > 0,
                    pow2(positive_part(e as int)) > 0,
            ;
            assert(m * unit < (m + 1) * unit) by (nonlinear_arith)
                requires
                    unit > 0,
            ;
        }
        round_scaled(m, e, false, Ghost(n), Ghost(d))
    }
}

/// Rounds `high + low` or `high - low`, for finite magnitudes `high >= low`.
fn round_sum(high: u64, low: u64, subtract: bool) -> (r: u64)
    requires
        low <= high < INFINITE_MAGNITUDE,
        units(low as nat) <= units(high as nat),
    ensures
        r == nearest(
            if subtract {
                (units(high as nat) - units(low as nat)) as nat
            } else {
                units(high as nat) + units(low as nat)
            },
            1,
        ),
        r <= INFINITE_MAGNITUDE,
{
    let (m1, e1) = decompose(high);
    let (m2, e2) = decompose(low);
    let ghost n: nat = if subtract {
        (units(high as nat) - units(low as nat)) as nat
    } else {
        units(high as nat) + units(low as nat)
    };
    proof {
        lemma_constants();
        lemma_div_is_ordered(low as int, high as int, HIDDEN_BIT as int);
    }
    assert(e2 <= e1);
    let gap: u32 = e1 - e2;
    if gap <= 70 {
        let p: u128 = power_of_two(gap);
        proof {
            lemma_pow2_bound(70);
            lemma2_to64();
            lemma_pow2_adds(64, 6);
            if gap < 70 {
                lemma_pow2_strictly_increases(gap as nat, 70);
            }
            assert(0 <= m1 * p <= 0x20_0000_0000_0000 * 0x40_0000_0000_0000_0000) by (nonlinear_arith)
                requires
                    0 <= m1 <= 0x20_0000_0000_0000,
                    0 <= p <= 0x40_0000_0000_0000_0000,
            ;
            lemma_pow2_adds(e2 as nat, gap as nat);
            let w = pow2(e2 as nat);
            lemma_pow2_pos(e2 as nat);
            assert((m1 * p) * w == units(high as nat)) by (nonlinear_arith)
                requires
                    units(high as nat) == m1 * pow2(e1 as nat),
                    pow2(e1 as nat) == w * p,
            ;
            assert((m1 * p + m2) * w == units(high as nat) + units(low as nat)) by (nonlinear_arith)
                requires
                    (m1 * p) * w == units(high as nat),
                    m2 * w == units(low as nat),
            ;
            assert((m1 * p - m2) * w == units(high as nat) - units(low as nat)) by (nonlinear_arith)
                requires
                    (m1 * p) * w == units(high as nat),
                    m2 * w == units(low as nat),
            ;
            assert(m1 * p >= m2) by (nonlinear_arith)
                requires
                    (m1 * p) * w >= m2 * w,
                    w > 0,
            ;
            assert(1 * w == w);
            assert(n * 1 == n);
        }
        let scaled: u128 = m1 as u128 * p;
        let m: u128 = if subtract {
            scaled - m2 as u128
        } else {
            scaled + m2 as u128
        };
        round_exact(m, e2 as i32, Ghost(n), Ghost(1nat))
    } else {
        let scaled: u128 = m1 as u128 * 1024;
        let sticky = m2 != 0;
        let m: u128 = if subtract && sticky {
            scaled - 1
        } else {
            scaled
        };
        proof {
            let e = (e1 - 10) as nat;
            let u = pow2(e);
            lemma2_to64();
            lemma_pow2_adds(e, 10);
            lemma_pow2_adds(53, e2 as nat);
            lemma_pow2_strictly_increases(53 + e2 as nat, e);
            lemma_pow2_pos(e2 as nat);
            assert(scaled * u == units(high as nat)) by (nonlinear_arith)
                requires
                    units(high as nat) == m1 * pow2(e1 as nat),
                    pow2(e1 as nat) == u * 1024,
                    scaled == m1 * 1024,
            ;
            assert(units(low as nat) < u) by (nonlinear_arith)
                requires
                    units(low as nat) == m2 * pow2(e2 as nat),
                    m2 < pow2(53),
                    pow2(53) * pow2(e2 as nat) < u,
                    pow2(e2 as nat) > 0,
            ;
            assert(sticky <==> units(low as nat) > 0) by (nonlinear_arith)
                requires
                    units(low as nat) == m2 * pow2(e2 as nat),
                    sticky <==> m2 != 0,
                    pow2(e2 as nat) > 0,
            ;
            assert((scaled - 1) * u == scaled * u - u) by (nonlinear_arith);
            assert((scaled + 1) * u == scaled * u + u) by (nonlinear_arith);
            assert(1 * u == u);
            assert(n * 1 == n);
        }
        round_scaled(m, (e1 - 10) as i32, sticky, Ghost(n), Ghost(1nat))
    }
}

/// Rounds the product of two finite magnitudes.
fn round_product(a: u64, b: u64) -> (r: u64)
    requires
        a < INFINITE_MAGNITUDE,
        b < INFINITE_MAGNITUDE,
    ensures
        r == nearest(units(a as nat) * units(b as nat), pow2(1074)),
        r <= INFINITE_MAGNITUDE,
{
    let (m1, e1) = decompose(a);
    let (m2, e2) = decompose(b);
    let e: i32 = e1 as i32 + e2 as i32 - 1074;
    let ghost n = units(a as nat) * units(b as nat);
    let ghost d = pow2(1074);
    proof {
        let ep = positive_part(e as int);
        let en = positive_part(-(e as int));
        lemma_pow2_pos(1074);
        assert(0 <= m1 * m2 <= 0x20_0000_0000_0000 * 0x20_0000_0000_0000) by (nonlinear_arith)
            requires
                0 <= m1 <= 0x20_0000_0000_0000,
                0 <= m2 <= 0x20_0000_0000_0000,
        ;
        // 1074 + ep == e1 + e2 + en
        lemma_pow2_adds(1074, ep);
        lemma_pow2_adds(e1 as nat, e2 as nat);
        lemma_pow2_adds((e1 + e2) as nat, en);
        assert((m1 * m2) * (d * pow2(ep)) == n * pow2(en)) by (nonlinear_arith)
            requires
                n == (m1 * pow2(e1 as nat)) * (m2 * pow2(e2 as nat)),
                d * pow2(ep) == (pow2(e1 as nat) * pow2(e2 as nat)) * pow2(en),
        ;
    }
    round_exact(m1 as u128 * m2 as u128, e, Ghost(n), Ghost(d))
}

/// Rounds the quotient of two finite magnitudes, the second of them positive.
fn round_quotient(a: u64, b: u64) -> (r: u64)
    requires
        a < INFINITE_MAGNITUDE,
        0 < b < INFINITE_MAGNITUDE,
    ensures
        r == nearest(units(a as nat) * pow2(1074), units(b as nat)),
        r <= INFINITE_MAGNITUDE,
{
    let (m1, e1) = decompose(a);
    let (m2, e2) = decompose(b);
    let ghost n = units(a as nat) * pow2(1074);
    let ghost d = units(b as nat);
    proof {
        lemma_constants();
        lemma_pow2_pos(e2 as nat);
        assert(d > 0) by (nonlinear_arith)
            requires
                d == m2 * pow2(e2 as nat),
                m2 > 0,
                pow2(e2 as nat) > 0,
        ;
    }
    if m1 == 0 {
        proof {
            assert(n == 0) by (nonlinear_arith)
                requires
                    n == (m1 * pow2(e1 as nat)) * pow2(1074),
                    m1 == 0,
            ;
            lemma_nearest_zero(d);
        }
        return 0;
    }
    let l: u32 = bit_length(m1 as u128);
    let s: u32 = 126 - l;
    let p: u128 = power_of_two(s);
    proof {
        lemma_pow2_adds(l as nat, s as nat);
        lemma_pow2_adds((l - 1) as nat, s as nat);
        lemma_pow2_pos(s as nat);
        lemma_pow2_bound(126);
        lemma2_to64();
        lemma2_to64_rest();
        lemma_pow2_adds(63, 63);
        lemma_pow2_adds(63, 62);
        assert(pow2((l - 1) as nat) * p <= m1 * p < pow2(l as nat) * p) by (nonlinear_arith)
            requires
                pow2((l - 1) as nat) <= m1 < pow2(l as nat),
                p > 0,
        ;
    }
    let scaled: u128 = m1 as u128 * p;
    let q: u128 = scaled / m2 as u128;
    let rem: u128 = scaled % m2 as u128;
    let e: i32 = e1 as i32 - e2 as i32 - s as i32 + 1074;
    proof {
        lemma_fundamental_div_mod(scaled as int, m2 as int);
        assert(q >= SIGNIFICAND_LIMIT) by (nonlinear_arith)
            requires
                scaled == m2 * q + rem,
                rem < m2,
                m2 <= 0x20_0000_0000_0000,
                scaled >= 0x2000_0000_0000_0000_0000_0000_0000_0000,
                SIGNIFICAND_LIMIT == 0x20_0000_0000_0000,
        ;
        assert(q <= scaled) by (nonlinear_arith)
            requires
                scaled == m2 * q + rem,
                rem >= 0,
                m2 >= 1,
                q >= 0,
        ;
        let ep = positive_part(e as int);
        let en = positive_part(-(e as int));
        let w = pow2((e2 + ep) as nat);
        lemma_pow2_pos((e2 + ep) as nat);
        lemma_pow2_adds(e2 as nat, ep);
        // e1 + 1074 + en == s + e2 + ep
        lemma_pow2_adds(e1 as nat, 1074);
        lemma_pow2_adds((e1 + 1074) as nat, en);
        lemma_pow2_adds(s as nat, (e2 + ep) as nat);
        let unit = d * pow2(ep);
        assert(unit == m2 * w) by (nonlinear_arith)
            requires
                unit == (m2 * pow2(e2 as nat)) * pow2(ep),
                w == pow2(e2 as nat) * pow2(ep),
        ;
        assert(n * pow2(en) == scaled * w) by (nonlinear_arith)
            requires
                n == (m1 * pow2(e1 as nat)) * pow2(1074),
                (pow2(e1 as nat) * pow2(1074)) * pow2(en) == p * w,
                scaled == m1 * p,
        ;
        assert(q * unit == (m2 * q) * w) by (nonlinear_arith)
            requires
                unit == m2 * w,
        ;
        assert((q + 1) * unit == (m2 * q + m2) * w) by (nonlinear_arith)
            requires
                unit == m2 * w,
        ;
        assert(scaled * w == (m2 * q) * w + rem * w) by (nonlinear_arith)
            requires
                scaled == m2 * q + rem,
        ;
        assert((m2 * q + m2) * w > scaled * w) by (nonlinear_arith)
            requires
                scaled < m2 * q + m2,
                w > 0,
        ;
        assert(rem * w >= 0 && (rem * w == 0 <==> rem == 0)) by (nonlinear_arith)
            requires
                rem >= 0,
                w > 0,
        ;
    }
    round_scaled(q, e, rem != 0, Ghost(n), Ghost(d))
}

impl Binary64 {
    pub fn from_bits(bits: u64) -> (r: Binary64)
        ensures
            r == (Binary64 { bits }),
    {
        Binary64 { bits }
    }

    pub fn to_bits(self) -> (bits: u64)
        ensures
            bits == self.bits,
    {
        self.bits
    }

    fn is_negative(self) -> (r: bool)
        ensures
            r == self.negative(),
    {
        self.bits >= SIGN_BIT
    }

    fn absolute(self) -> (r: u64)
        ensures
            r == self.magnitude(),
            r < SIGN_BIT,
    {
        if self.bits >= SIGN_BIT {
            self.bits - SIGN_BIT
        } else {
            self.bits
        }
    }

    fn assemble(negative: bool, magnitude: u64) -> (r: Binary64)
        requires
            magnitude < SIGN_BIT,
        ensures
            r == Self::assembled(negative, magnitude as nat),
            r.magnitude() == magnitude,
            r.negative() == negative,
    {
        Binary64 {
            bits: if negative {
                SIGN_BIT + magnitude
            } else {
                magnitude
            },
        }
    }

    pub fn is_nan(self) -> (r: bool)
        ensures
            r == self.nan(),
    {
        self.absolute() > INFINITE_MAGNITUDE
    }

    pub fn is_finite(self) -> (r: bool)
        ensures
            r == self.finite(),
    {
        self.absolute() < INFINITE_MAGNITUDE
    }

    pub fn neg(self) -> (r: Binary64)
        ensures
            r == self.negated(),
    {
        Self::assemble(!self.is_negative(), self.absolute())
    }

    pub fn add(self, other: Binary64) -> (r: Binary64)
        ensures
            r == self.sum(other),
    {
        reveal(Binary64::sum);
        let a: u64 = self.absolute();
        let b: u64 = other.absolute();
        if a > INFINITE_MAGNITUDE || b > INFINITE_MAGNITUDE {
            return Binary64 { bits: 0x7ff8_0000_0000_0000 };
        }
        if a == INFINITE_MAGNITUDE {
            if b == INFINITE_MAGNITUDE && self.is_negative() != other.is_negative() {
                return Binary64 { bits: 0x7ff8_0000_0000_0000 };
            }
            return self;
        }
        if b == INFINITE_MAGNITUDE {
            return other;
        }
        let subtract = self.is_negative() != other.is_negative();
        if subtract && a == b {
            return Self::assemble(false, 0);
        }
        proof {
            if a < b {
                lemma_units_increase(a as nat, b as nat);
            }
            if b < a {
                lemma_units_increase(b as nat, a as nat);
            }
        }
        if a >= b {
            let r: u64 = round_sum(a, b, subtract);
            proof {
                Self::lemma_sum_parts(self, other);
            }
            Self::assemble(self.is_negative(), r)
        } else {
            let r: u64 = round_sum(b, a, subtract);
            proof {
                Self::lemma_sum_parts(other, self);
            }
            Self::assemble(other.is_negative(), r)
        }
    }

    /// The sum of two finite numbers, the first of them at least as large in magnitude, has the
    /// sign of the first, unless they cancel.
    proof fn lemma_sum_parts(a: Binary64, b: Binary64)
        requires
            a.finite(),
            b.finite(),
            a.magnitude() >= b.magnitude(),
            a.negative() == b.negative() || a.magnitude() != b.magnitude(),
        ensures
            ({
                let n = if a.negative() != b.negative() {
                    (units(a.magnitude()) - units(b.magnitude())) as nat
                } else {
                    units(a.magnitude()) + units(b.magnitude())
                };
                &&& a.sum(b) == Self::assembled(a.negative(), nearest(n, 1))
                &&& b.sum(a) == Self::assembled(a.negative(), nearest(n, 1))
            }),
    {
        reveal(Binary64::sum);
        lemma_nearest_zero(1);
        if a.magnitude() != b.magnitude() {
            lemma_units_increase(b.magnitude(), a.magnitude());
        }
        if a.magnitude() > 0 {
            lemma_units_increase(0, a.magnitude());
        }
    }

    pub fn sub(self, other: Binary64) -> (r: Binary64)
        ensures
            r == self.difference(other),
    {
        self.add(other.neg())
    }

    pub fn mul(self, other: Binary64) -> (r: Binary64)
        ensures
            r == self.product(other),
    {
        reveal(Binary64::product);
        let a: u64 = self.absolute();
        let b: u64 = other.absolute();
        let negative = self.is_negative() != other.is_negative();
        if a > INFINITE_MAGNITUDE || b > INFINITE_MAGNITUDE {
            return Binary64 { bits: 0x7ff8_0000_0000_0000 };
        }
        if a == INFINITE_MAGNITUDE || b == INFINITE_MAGNITUDE {
            if a == 0 || b == 0 {
                return Binary64 { bits: 0x7ff8_0000_0000_0000 };
            }
            return Self::assemble(negative, INFINITE_MAGNITUDE);
        }
        Self::assemble(negative, round_product(a, b))
    }

    pub fn div(self, other: Binary64) -> (r: Binary64)
        ensures
            r == self.quotient(other),
    {
        reveal(Binary64::quotient);
        let a: u64 = self.absolute();
        let b: u64 = other.absolute();
        let negative = self.is_negative() != other.is_negative();
        if a > INFINITE_MAGNITUDE || b > INFINITE_MAGNITUDE || (a == INFINITE_MAGNITUDE && b
            == INFINITE_MAGNITUDE) || (a == 0 && b == 0) {
            return Binary64 { bits: 0x7ff8_0000_0000_0000 };
        }
        if a == INFINITE_MAGNITUDE || b == 0 {
            return Self::assemble(negative, INFINITE_MAGNITUDE);
        }
        if b == INFINITE_MAGNITUDE {
            return Self::assemble(negative, 0);
        }
        Self::assemble(negative, round_quotient(a, b))
    }

    pub fn from_u64(n: u64) -> (r: Binary64)
        ensures
            r == Self::nearest_to(n as nat),
    {
        reveal(Binary64::nearest_to);
        proof {
            lemma_constants();
            let w = pow2(1074);
            assert(n * (1 * w) == (n * w) * 1) by (nonlinear_arith);
        }
        Self::assemble(false, round_exact(n as u128, 1074, Ghost(n as nat * pow2(1074)), Ghost(1nat)))
    }

    pub fn lt(self, other: Binary64) -> (r: bool)
        ensures
            r == self.less(other),
    {
        let a: u64 = self.absolute();
        let b: u64 = other.absolute();
        if a > INFINITE_MAGNITUDE || b > INFINITE_MAGNITUDE {
            return false;
        }
        match (self.is_negative(), other.is_negative()) {
            (false, false) => a < b,
            (false, true) => false,
            (true, false) => a != 0 || b != 0,
            (true, true) => b < a,
        }
    }

    pub fn le(self, other: Binary64) -> (r: bool)
        ensures
            r == self.at_most(other),
    {
        let a: u64 = self.absolute();
        let b: u64 = other.absolute();
        if a > INFINITE_MAGNITUDE || b > INFINITE_MAGNITUDE {
            return false;
        }
        match (self.is_negative(), other.is_negative()) {
            (false, false) => a <= b,
            (false, true) => a == 0 && b == 0,
            (true, false) => true,
            (true, true) => b <= a,
        }
    }

    /// Whether this number comes before `other` in the total order of bit patterns.
    pub fn precedes(self, other: Binary64) -> (r: bool)
        ensures
            r == (self.total_rank() < other.total_rank()),
    {
        let a: u64 = self.absolute();
        let b: u64 = other.absolute();
        match (self.is_negative(), other.is_negative()) {
            (false, false) => a < b,
            (false, true) => false,
            (true, false) => true,
            (true, true) => b < a,
        }
    }

    pub fn max(self, other: Binary64) -> (r: Binary64)
        ensures
            r == self.maximum(other),
    {
        if self.is_nan() || self.lt(other) {
            other
        } else {
            self
        }
    }

    pub fn min(self, other: Binary64) -> (r: Binary64)
        ensures
            r == self.minimum(other),
    {
        if self.is_nan() || other.lt(self) {
            other
        } else {
            self
        }
    }

    pub fn clamp(self, low: Binary64, high: Binary64) -> (r: Binary64)
        ensures
            r == self.clamped(low, high),
    {
        if self.lt(low) {
            low
        } else if high.lt(self) {
            high
        } else {
            self
        }
    }
}

impl Binary64 {
    /// One is a number, and not negative.
    pub proof fn lemma_one()
        ensures
            !Self::nearest_to(1).nan(),
            !Self::nearest_to(1).negative(),
    {
        reveal(Binary64::nearest_to);
        lemma_magnitude_is_number(pow2(1074), 1);
    }
}

/// The maximum of a number and of anything is a number that neither of them exceeds.
pub proof fn lemma_maximum(a: Binary64, b: Binary64)
    requires
        !a.nan(),
    ensures
        !a.maximum(b).nan(),
        a.at_most(a.maximum(b)),
        !a.maximum(b).less(b),
{
}

/// What is rounded is never above infinity.
pub(crate) proof fn lemma_magnitude_is_number(n: nat, d: nat)
    ensures
        nearest(n, d) <= INFINITE_MAGNITUDE,
        !Binary64::assembled(false, nearest(n, d)).nan(),
        !Binary64::assembled(true, nearest(n, d)).nan(),
{
}

impl PartialEq for Binary64 {
    fn eq(&self, other: &Binary64) -> (r: bool) {
        self.le(*other) && other.le(*self)
    }
}

impl vstd::std_specs::cmp::PartialEqSpecImpl for Binary64 {
    open spec fn obeys_eq_spec() -> bool {
        true
    }

    /// Equal values; a pattern that is not a number equals nothing, not even itself.
    open spec fn eq_spec(&self, other: &Binary64) -> bool {
        self.at_most(*other) && other.at_most(*self)
    }
}

}
