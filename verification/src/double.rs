//! Binary floating point numbers carried as their 64-bit patterns.
//!
//! Amounts and match confidences reach this crate as IEEE 754 doubles. They are
//! held here by bit pattern, and the few operations the reconciler needs on
//! them (sum, product, ratio of two counts, distance compared with one cent)
//! are computed on integers and proved to round exactly as the hardware does.
use vstd::arithmetic::power2::{lemma_pow2_adds, lemma_pow2_pos, lemma_pow2_strictly_increases, lemma_pow2_unfold, lemma2_to64, lemma2_to64_rest, pow2};
use vstd::prelude::*;

verus! {

/// Two to the power 52: the weight of one step of the exponent field.
pub const STEP: u64 = 0x10_0000_0000_0000;

/// Bit pattern of positive infinity.
pub const INFINITY_BITS: u64 = 0x7FF0_0000_0000_0000;

/// The sign bit.
pub const SIGN_BIT: u64 = 0x8000_0000_0000_0000;

/// Bit pattern of `1.0`.
pub const ONE_BITS: u64 = 0x3FF0_0000_0000_0000;

/// Bit pattern of `0.01`.
pub const CENT_BITS: u64 = 0x3F84_7AE1_47AE_147B;

/// A double, held by its bit pattern.
#[derive(Clone, Copy, PartialEq, Eq, Structural, Debug)]
pub struct Double {
    pub bits: u64,
}

/// The value of the non-negative finite double with pattern `b`, counted in
/// units of two to the power -1074 (the smallest positive double).
pub open spec fn atoms(b: int) -> int {
    let exponent = b / STEP as int;
    let fraction = b % STEP as int;
    if exponent <= 0 {
        fraction
    } else {
        (STEP + fraction) * pow2((exponent - 1) as nat)
    }
}

/// `b` is the pattern of the double nearest to `num / den` units of two to the
/// power -1074, ties going to the even pattern: the exact value lies between the
/// midpoints to the two neighbouring doubles.
pub open spec fn rounds_to(num: int, den: int, b: int) -> bool {
    &&& 0 <= b
    &&& b > 0 ==> (atoms(b - 1) + atoms(b)) * den <= 2 * num
    &&& b > 0 && b % 2 != 0 ==> (atoms(b - 1) + atoms(b)) * den < 2 * num
    &&& 2 * num <= (atoms(b) + atoms(b + 1)) * den
    &&& b % 2 != 0 ==> 2 * num < (atoms(b) + atoms(b + 1)) * den
}

/// The pattern of the double nearest to `num / den` units of two to the power
/// -1074.
pub open spec fn nearest(num: int, den: int) -> int {
    choose|b: int| rounds_to(num, den, b)
}

proof fn lemma_atoms(e: int, m: int)
    requires
        e >= 0,
        (e == 0 && 0 <= m <= 2 * STEP) || (STEP <= m <= 2 * STEP),
    ensures
        atoms(e * STEP + m) == m * pow2(e as nat),
{
    lemma2_to64();
    let b = e * STEP + m;
    if m < STEP {
        assert(b == m && b / STEP as int == 0 && b % STEP as int == m);
        assert(pow2(e as nat) == 1);
    } else if m < 2 * STEP {
        assert(b == (e + 1) * STEP + (m - STEP)) by (nonlinear_arith)
            requires
                b == e * STEP + m,
        ;
        vstd::arithmetic::div_mod::lemma_fundamental_div_mod_converse(b, STEP as int, e + 1, m - STEP);
    } else {
        assert(b == (e + 2) * STEP) by (nonlinear_arith)
            requires
                b == e * STEP + m,
                m == 2 * STEP,
        ;
        vstd::arithmetic::div_mod::lemma_fundamental_div_mod_converse(b, STEP as int, e + 2, 0);
        lemma_pow2_unfold((e + 1) as nat);
        assert(atoms(b) == STEP * pow2((e + 1) as nat));
        assert(STEP * pow2((e + 1) as nat) == m * pow2(e as nat)) by (nonlinear_arith)
            requires
                m == 2 * STEP,
                pow2((e + 1) as nat) == 2 * pow2(e as nat),
        ;
    }
}

/// Every non-negative pattern is a significand and an exponent.
proof fn lemma_split(b: int) -> (r: (int, int))
    requires
        b >= 0,
    ensures
        r.0 >= 0,
        b == r.0 * STEP + r.1,
        (r.0 == 0 && 0 <= r.1 < 2 * STEP) || STEP <= r.1 < 2 * STEP,
        atoms(b) == r.1 * pow2(r.0 as nat),
        atoms(b + 1) == (r.1 + 1) * pow2(r.0 as nat),
{
    let x = b / STEP as int;
    let f = b % STEP as int;
    vstd::arithmetic::div_mod::lemma_fundamental_div_mod(b, STEP as int);
    let r = if x == 0 {
        (0int, f)
    } else {
        (x - 1, f + STEP)
    };
    assert(b == r.0 * STEP + r.1) by (nonlinear_arith)
        requires
            b == STEP * x + f,
            (x == 0 && r.0 == 0 && r.1 == f) || (r.0 == x - 1 && r.1 == f + STEP),
    ;
    lemma_atoms(r.0, r.1);
    lemma_atoms(r.0, r.1 + 1);
    r
}

proof fn lemma_atoms_step(b: int)
    requires
        b >= 0,
    ensures
        0 <= atoms(b) < atoms(b + 1),
{
    let (e, m) = lemma_split(b);
    lemma_pow2_pos(e as nat);
    assert(m * pow2(e as nat) < (m + 1) * pow2(e as nat) && 0 <= m * pow2(e as nat)) by (nonlinear_arith)
        requires
            pow2(e as nat) > 0,
            m >= 0,
    ;
}

/// Greater patterns are greater values.
pub proof fn lemma_atoms_increases(a: int, b: int)
    requires
        0 <= a <= b,
    ensures
        0 <= atoms(a) <= atoms(b),
        a < b ==> atoms(a) < atoms(b),
    decreases b - a,
{
    lemma_atoms_step(a);
    if a < b {
        lemma_atoms_increases(a + 1, b);
    }
}

/// Splitting an exact value at the unit of its significand gives the nearest
/// double.
proof fn lemma_rounds(num: int, den: int, e: int, q: int, rem: int, m: int)
    requires
        den > 0,
        e >= 0,
        (e == 0 && 0 <= q < 2 * STEP) || STEP <= q < 2 * STEP,
        num == q * (pow2(e as nat) * den) + rem,
        0 <= rem < pow2(e as nat) * den,
        2 * rem < pow2(e as nat) * den ==> m == q,
        2 * rem > pow2(e as nat) * den ==> m == q + 1,
        2 * rem == pow2(e as nat) * den ==> m == (if q % 2 == 0 { q } else { q + 1 }),
    ensures
        rounds_to(num, den, e * STEP + m),
{
    let b = e * STEP + m;
    let p = pow2(e as nat) as int;
    let u = p * den;
    lemma_pow2_pos(e as nat);
    assert(u > 0) by (nonlinear_arith)
        requires
            u == p * den,
            p > 0,
            den > 0,
    ;
    lemma_atoms(e, q);
    assert(b >= 0) by (nonlinear_arith)
        requires
            b == e * STEP + m,
            e >= 0,
            m >= 0,
    ;
    assert(b % 2 == m % 2) by {
        assert(e * STEP == 2 * (e * (STEP / 2))) by (nonlinear_arith);
    }
    if m == q {
        lemma_atoms(e, q + 1);
        assert((q * p + (q + 1) * p) * den == 2 * (q * u) + u) by (nonlinear_arith)
            requires
                u == p * den,
        ;
        if b > 0 {
            if q > STEP || (e == 0 && q > 0) {
                lemma_atoms(e, q - 1);
                assert(b - 1 == e * STEP + (q - 1));
                assert(((q - 1) * p + q * p) * den == 2 * (q * u) - u) by (nonlinear_arith)
                    requires
                        u == p * den,
                ;
            } else {
                assert(e > 0 && q == STEP) by {
                    if e == 0 {
                        assert(b == 0);
                    }
                }
                lemma_atoms(e - 1, 2 * STEP - 1);
                assert(b - 1 == (e - 1) * STEP + (2 * STEP - 1)) by (nonlinear_arith)
                    requires
                        b == e * STEP + q,
                        q == STEP,
                ;
                lemma_pow2_unfold(e as nat);
                let h = pow2((e - 1) as nat) as int;
                lemma_pow2_pos((e - 1) as nat);
                assert(((2 * STEP - 1) * h + q * p) * den < 2 * (q * u)) by (nonlinear_arith)
                    requires
                        u == p * den,
                        p == 2 * h,
                        h > 0,
                        den > 0,
                        q == STEP,
                ;
            }
        }
    } else {
        assert(b - 1 == e * STEP + q);
        lemma_atoms(e, q + 1);
        assert((q * p + (q + 1) * p) * den == 2 * (q * u) + u) by (nonlinear_arith)
            requires
                u == p * den,
        ;
        if m < 2 * STEP {
            lemma_atoms(e, q + 2);
            assert(((q + 1) * p + (q + 2) * p) * den == 2 * (q * u) + 3 * u) by (nonlinear_arith)
                requires
                    u == p * den,
            ;
        } else {
            assert(b + 1 == (e + 1) * STEP + (STEP + 1)) by (nonlinear_arith)
                requires
                    b == e * STEP + m,
                    m == 2 * STEP,
            ;
            lemma_atoms(e + 1, STEP + 1);
            lemma_pow2_unfold((e + 1) as nat);
            let d = pow2((e + 1) as nat) as int;
            assert(((q + 1) * p + (STEP + 1) * d) * den == 2 * (q * u) + 4 * u) by (nonlinear_arith)
                requires
                    u == p * den,
                    d == 2 * p,
                    q + 1 == 2 * STEP,
            ;
        }
    }
}

/// There is only one nearest double.
pub proof fn lemma_nearest_unique(num: int, den: int, b: int)
    requires
        den > 0,
        rounds_to(num, den, b),
    ensures
        nearest(num, den) == b,
{
    let c = nearest(num, den);
    lemma_nearest_order(num, den, c, b);
    lemma_nearest_order(num, den, b, c);
}

proof fn lemma_nearest_order(num: int, den: int, a: int, b: int)
    requires
        den > 0,
        rounds_to(num, den, a),
        rounds_to(num, den, b),
    ensures
        b <= a,
{
    if a < b {
        lemma_atoms_increases(a, b - 1);
        lemma_atoms_increases(a + 1, b);
        let x = atoms(a) + atoms(a + 1);
        let y = atoms(b - 1) + atoms(b);
        assert(x < y ==> x * den < y * den) by (nonlinear_arith)
            requires
                den > 0,
        ;
        if a + 1 == b {
            assert(a % 2 != 0 || b % 2 != 0);
        } else {
            assert(x < y);
        }
    }
}

/// The nearest double is the same for equal fractions.
proof fn lemma_rounds_scaled(num: int, den: int, c: int, b: int)
    requires
        den > 0,
        c > 0,
        rounds_to(num * c, den * c, b),
    ensures
        rounds_to(num, den, b),
{
    let lo = atoms(b - 1) + atoms(b);
    let hi = atoms(b) + atoms(b + 1);
    assert(lo * (den * c) <= 2 * (num * c) ==> lo * den <= 2 * num) by (nonlinear_arith)
        requires
            c > 0,
    ;
    assert(lo * (den * c) < 2 * (num * c) ==> lo * den < 2 * num) by (nonlinear_arith)
        requires
            c > 0,
    ;
    assert(2 * (num * c) <= hi * (den * c) ==> 2 * num <= hi * den) by (nonlinear_arith)
        requires
            c > 0,
    ;
    assert(2 * (num * c) < hi * (den * c) ==> 2 * num < hi * den) by (nonlinear_arith)
        requires
            c > 0,
    ;
}

/// Rounding keeps the order: a value not above a double rounds to a double not
/// above it.
proof fn lemma_rounds_below(num: int, den: int, b: int, c: int)
    requires
        den > 0,
        c >= 0,
        rounds_to(num, den, b),
        num <= atoms(c) * den,
    ensures
        b <= c,
{
    if c < b {
        lemma_atoms_increases(c, b - 1);
        lemma_atoms_increases(b - 1, b);
        let lo = atoms(b - 1) + atoms(b);
        let a = atoms(c);
        assert(2 * (a * den) < lo * den) by (nonlinear_arith)
            requires
                den > 0,
                2 * a < lo,
        ;
    }
}

/// Rounding keeps the order: a value not below a double rounds to a double not
/// below it.
proof fn lemma_rounds_above(num: int, den: int, b: int, c: int)
    requires
        den > 0,
        c >= 0,
        rounds_to(num, den, b),
        atoms(c) * den <= num,
    ensures
        c <= b,
{
    if b < c {
        lemma_atoms_increases(b, b + 1);
        lemma_atoms_increases(b + 1, c);
        let hi = atoms(b) + atoms(b + 1);
        let a = atoms(c);
        assert(hi * den < 2 * (a * den)) by (nonlinear_arith)
            requires
                den > 0,
                hi < 2 * a,
        ;
    }
}

/// Rounding keeps the order of two values.
proof fn lemma_rounds_monotone(x: int, y: int, den: int, a: int, b: int)
    requires
        den > 0,
        x <= y,
        rounds_to(x, den, a),
        rounds_to(y, den, b),
    ensures
        a <= b,
{
    if b < a {
        lemma_atoms_increases(b, a - 1);
        lemma_atoms_increases(b + 1, a);
        let hi = atoms(b) + atoms(b + 1);
        let lo = atoms(a - 1) + atoms(a);
        assert(hi < lo ==> hi * den < lo * den) by (nonlinear_arith)
            requires
                den > 0,
        ;
        if b + 1 == a {
            assert(a % 2 != 0 || b % 2 != 0);
        } else {
            assert(hi < lo);
        }
    }
}

/// Every non-negative value has a nearest double.
pub proof fn lemma_nearest_exists(num: int, den: int)
    requires
        num >= 0,
        den > 0,
    ensures
        rounds_to(num, den, nearest(num, den)),
{
    let e = lemma_unit_exists(num, den, 0);
    let u = pow2(e as nat) * den;
    lemma_pow2_pos(e as nat);
    assert(u > 0) by (nonlinear_arith)
        requires
            u == pow2(e as nat) * den,
            pow2(e as nat) > 0,
            den > 0,
    ;
    let q = num / u;
    let rem = num % u;
    vstd::arithmetic::div_mod::lemma_fundamental_div_mod(num, u);
    assert(num == q * u + rem) by (nonlinear_arith)
        requires
            num == u * q + rem,
    ;
    let m = if 2 * rem < u || (2 * rem == u && q % 2 == 0) {
        q
    } else {
        q + 1
    };
    lemma_rounds(num, den, e, q, rem, m);
    assert(rounds_to(num, den, e * STEP + m));
}

/// An exponent at which the value has a full significand, or the least one.
proof fn lemma_unit_exists(num: int, den: int, e: int) -> (r: int)
    requires
        num >= 0,
        den > 0,
        e >= 0,
        e > 0 ==> STEP * (pow2(e as nat) * den) <= num,
    ensures
        r >= 0,
        ({
            let q = num / (pow2(r as nat) * den);
            (r == 0 && 0 <= q < 2 * STEP) || STEP <= q < 2 * STEP
        }),
    decreases num - pow2(e as nat),
{
    let u = pow2(e as nat) * den;
    lemma_pow2_pos(e as nat);
    assert(u > 0) by (nonlinear_arith)
        requires
            u == pow2(e as nat) * den,
            pow2(e as nat) > 0,
            den > 0,
    ;
    let q = num / u;
    vstd::arithmetic::div_mod::lemma_fundamental_div_mod(num, u);
    let rem = num % u;
    if q < 2 * STEP {
        assert(q >= 0) by (nonlinear_arith)
            requires
                num == u * q + rem,
                num >= 0,
                rem < u,
                u > 0,
        ;
        if e > 0 {
            assert(q >= STEP) by (nonlinear_arith)
                requires
                    num == u * q + rem,
                    STEP * u <= num,
                    rem < u,
                    u > 0,
            ;
        }
        e
    } else {
        lemma_pow2_unfold((e + 1) as nat);
        assert(STEP * (pow2((e + 1) as nat) * den) <= num) by (nonlinear_arith)
            requires
                pow2((e + 1) as nat) == 2 * pow2(e as nat),
                u == pow2(e as nat) * den,
                num == u * q + rem,
                rem >= 0,
                q >= 2 * STEP,
                u > 0,
        ;
        assert(pow2((e + 1) as nat) <= num) by (nonlinear_arith)
            requires
                STEP * (pow2((e + 1) as nat) * den) <= num,
                den > 0,
        ;
        lemma_unit_exists(num, den, e + 1)
    }
}

/// Two to the power `k`.
fn two_to(k: u32) -> (r: u128)
    requires
        k < 128,
    ensures
        r == pow2(k as nat),
{
    proof {
        lemma2_to64();
    }
    let mut r: u128 = 1;
    let mut i: u32 = 0;
    while i < k
        invariant
            i <= k < 128,
            r == pow2(i as nat),
        decreases k - i,
    {
        proof {
            lemma_pow2_unfold((i + 1) as nat);
            lemma_pow2_bound((i + 1) as nat);
        }
        r = r * 2;
        i = i + 1;
    }
    r
}

proof fn lemma_pow2_bound(k: nat)
    requires
        k < 128,
    ensures
        pow2(k) <= 0x8000_0000_0000_0000_0000_0000_0000_0000u128,
{
    lemma2_to64();
    lemma2_to64_rest();
    lemma_pow2_adds(64, 63);
    assert(pow2(127) == 0x8000_0000_0000_0000_0000_0000_0000_0000u128);
    if k < 127 {
        lemma_pow2_strictly_increases(k, 127);
    }
}

/// The number of binary digits of `n`.
fn bit_length(n: u128) -> (r: u32)
    requires
        n < pow2(127),
    ensures
        r <= 127,
        n < pow2(r as nat),
        r > 0 ==> pow2((r - 1) as nat) <= n,
{
    proof {
        lemma2_to64();
    }
    let mut p: u128 = 1;
    let mut r: u32 = 0;
    while p <= n
        invariant
            n < pow2(127),
            r <= 127,
            p == pow2(r as nat),
            r > 0 ==> pow2((r - 1) as nat) <= n,
        decreases 127 - r,
    {
        proof {
            if r >= 127 {
                assert(r == 127);
            }
            lemma_pow2_unfold((r + 1) as nat);
            lemma_pow2_bound((r + 1) as nat);
        }
        p = p * 2;
        r = r + 1;
    }
    r
}

/// The pattern of the double nearest to `n * 2^s / 2^1074` units.
#[verifier::spinoff_prover]
#[verifier::rlimit(60)]
fn round_scaled(n: u128, s: u32) -> (r: u64)
    requires
        n < pow2(108),
        s <= 4000,
    ensures
        rounds_to(n * pow2(s as nat), pow2(1074) as int, r as int),
{
    proof {
        lemma_pow2_strictly_increases(108, 127);
        lemma_pow2_pos(1074);
    }
    if n == 0 {
        proof {
            lemma_split(0);
            lemma2_to64();
            assert(n * pow2(s as nat) == 0) by (nonlinear_arith)
                requires
                    n == 0,
            ;
            assert(atoms(0) == 0 && atoms(1) == 1) by {
                lemma_atoms(0, 0);
                lemma_atoms(0, 1);
            }
        }
        return 0;
    }
    let len: u32 = bit_length(n);
    proof {
        lemma2_to64();
        if len > 108 {
            if len > 109 {
                lemma_pow2_strictly_increases(108, (len - 1) as nat);
            }
        }
        assert(0 < len <= 108);
    }
    let k: i32 = if len as i32 - 53 >= 1074 - s as i32 {
        len as i32 - 53
    } else {
        1074 - s as i32
    };
    let e: u64 = (s as i32 + k - 1074) as u64;
    let ghost den = pow2(1074) as int;
    let ghost num = n * pow2(s as nat);
    let ghost u = pow2(e as nat) * den;
    proof {
        lemma_pow2_adds(e as nat, 1074);
        assert(u == pow2((s + k) as nat));
        lemma_pow2_pos((s + k) as nat);
    }
    if k <= 0 {
        let f: u128 = two_to((-k) as u32);
        proof {
            lemma_pow2_adds(len as nat, (-k) as nat);
            lemma_pow2_adds((len - 1) as nat, (-k) as nat);
            lemma_pow2_adds((s + k) as nat, (-k) as nat);
            lemma2_to64();
            lemma2_to64_rest();
            assert(n * f < pow2(len as nat) * f) by (nonlinear_arith)
                requires
                    n < pow2(len as nat),
                    f > 0,
            ;
            assert(pow2((len - 1) as nat) * f <= n * f) by (nonlinear_arith)
                requires
                    pow2((len - 1) as nat) <= n,
            ;
            lemma_pow2_strictly_increases((len - k) as nat, 54);
            assert(num == (n * f) * u) by (nonlinear_arith)
                requires
                    num == n * pow2(s as nat),
                    pow2(s as nat) == u * f,
            ;
        }
        let q: u64 = (n * f) as u64;
        proof {
            lemma_rounds(num, den, e as int, q as int, 0, q as int);
        }
        e * STEP + q
    } else if k <= 127 {
        let d: u128 = two_to(k as u32);
        proof {
            lemma_pow2_pos(k as nat);
            lemma_pow2_bound(127);
            vstd::arithmetic::div_mod::lemma_div_nonincreasing(n as int, d as int);
        }
        let q: u128 = n / d;
        let rem: u128 = n % d;
        let m: u128 = if rem < d - rem || (rem == d - rem && q % 2 == 0) {
            q
        } else {
            q + 1
        };
        proof {
            lemma2_to64();
            lemma2_to64_rest();
            lemma_pow2_adds(s as nat, k as nat);
            vstd::arithmetic::div_mod::lemma_fundamental_div_mod(n as int, d as int);
            let p = pow2(s as nat) as int;
            lemma_pow2_pos(s as nat);
            assert(num == q * u + rem * p) by (nonlinear_arith)
                requires
                    num == n * p,
                    n == d * q + rem,
                    u == p * d,
            ;
            assert(0 <= rem * p < u && (2 * (rem * p) < u <==> 2 * rem < d) && (2 * (rem * p) > u <==> 2 * rem > d)) by (nonlinear_arith)
                requires
                    u == p * d,
                    p > 0,
                    0 <= rem < d,
            ;
            assert(q < 2 * STEP) by {
                if k == len - 53 {
                    lemma_pow2_adds(53, k as nat);
                    assert(q < pow2(53)) by (nonlinear_arith)
                        requires
                            n == d * q + rem,
                            n < pow2(53) * d,
                            rem >= 0,
                            d > 0,
                    ;
                } else {
                    lemma_pow2_strictly_increases(len as nat, (k + 53) as nat);
                    lemma_pow2_adds(53, k as nat);
                    assert(q < pow2(53)) by (nonlinear_arith)
                        requires
                            n == d * q + rem,
                            n < pow2(53) * d,
                            rem >= 0,
                            d > 0,
                    ;
                }
            }
            if e > 0 {
                assert(k == len - 53);
                lemma_pow2_adds(52, k as nat);
                assert(q >= pow2(52)) by (nonlinear_arith)
                    requires
                        n == d * q + rem,
                        n >= pow2(52) * d,
                        rem < d,
                        d > 0,
                ;
            }
            lemma_rounds(num, den, e as int, q as int, rem * p, m as int);
        }
        e * STEP + m as u64
    } else {
        proof {
            lemma_pow2_strictly_increases(108, (k - 1) as nat);
            lemma_pow2_unfold(k as nat);
            lemma_pow2_adds(s as nat, k as nat);
            let p = pow2(s as nat) as int;
            lemma_pow2_pos(s as nat);
            assert(e == 0);
            assert(0 <= num && 2 * num < u) by (nonlinear_arith)
                requires
                    num == n * p,
                    u == p * pow2(k as nat),
                    2 * n < pow2(k as nat),
                    p > 0,
                    n >= 0,
            ;
            lemma_rounds(num, den, 0, 0, num, 0);
        }
        0
    }
}

/// The exponent and significand of a finite non-negative pattern.
fn split_bits(b: u64) -> (r: (u32, u64))
    requires
        b < INFINITY_BITS,
    ensures
        r.0 <= 2045,
        b == r.0 * STEP + r.1,
        (r.0 == 0 && r.1 < 2 * STEP) || STEP <= r.1 < 2 * STEP,
        atoms(b as int) == r.1 * pow2(r.0 as nat),
{
    let x: u64 = b / STEP;
    let f: u64 = b % STEP;
    let (e, m): (u32, u64) = if x == 0 {
        (0, f)
    } else {
        ((x - 1) as u32, f + STEP)
    };
    proof {
        lemma_atoms(e as int, m as int);
    }
    (e, m)
}

/// The double nearest to the sum of two non-negative doubles.
pub open spec fn rounded_sum(x: Double, y: Double) -> Double {
    Double { bits: nearest(atoms(x.bits as int) + atoms(y.bits as int), 1) as u64 }
}

/// The double nearest to the product of two non-negative doubles.
pub open spec fn rounded_product(x: Double, y: Double) -> Double {
    Double { bits: nearest(atoms(x.bits as int) * atoms(y.bits as int), pow2(1074) as int) as u64 }
}

/// The double nearest to the fraction `m / n`.
pub open spec fn rounded_ratio(m: int, n: int) -> Double {
    Double { bits: nearest(m * pow2(1074), n) as u64 }
}

/// 1.0 less the fraction `m / n` of two counts, computed in doubles: each count, their
/// quotient and the difference are rounded in turn.
pub open spec fn rounded_rest(m: int, n: int) -> Double {
    let part = nearest(m * pow2(1074), 1);
    let whole = nearest(n * pow2(1074), 1);
    let share = nearest(atoms(part) * pow2(1074), atoms(whole));
    Double { bits: nearest(pow2(1074) - atoms(share), 1) as u64 }
}

/// The lesser of two non-negative doubles.
pub open spec fn lesser(x: Double, y: Double) -> Double {
    if x.bits <= y.bits {
        x
    } else {
        y
    }
}

/// The magnitude of a double: its pattern without the sign bit.
pub open spec fn magnitude(x: Double) -> int {
    x.bits as int % SIGN_BIT as int
}

/// The magnitude of `|x| - |y|` as a double, or `None` when that difference is
/// not a number: an operand is not a number, or both are infinite.
pub open spec fn magnitude_gap(x: Double, y: Double) -> Option<int> {
    let a = magnitude(x);
    let b = magnitude(y);
    if a > INFINITY_BITS || b > INFINITY_BITS || (a == INFINITY_BITS && b == INFINITY_BITS) {
        None
    } else if a == INFINITY_BITS || b == INFINITY_BITS {
        Some(INFINITY_BITS as int)
    } else if atoms(a) >= atoms(b) {
        Some(nearest(atoms(a) - atoms(b), 1))
    } else {
        Some(nearest(atoms(b) - atoms(a), 1))
    }
}

impl Double {
    /// Positive zero.
    pub fn zero() -> (r: Double)
        ensures
            r.bits == 0,
    {
        Double { bits: 0 }
    }

    /// The double with the given pattern.
    pub fn from_bits(bits: u64) -> (r: Double)
        ensures
            r.bits == bits,
    {
        Double { bits }
    }

    /// The pattern of this double.
    pub fn to_bits(self) -> (r: u64)
        ensures
            r == self.bits,
    {
        self.bits
    }

    /// `self < 0.0`: the sign bit is set, and the value is neither zero nor not
    /// a number.
    pub open spec fn negative(self) -> bool {
        SIGN_BIT < self.bits <= SIGN_BIT + INFINITY_BITS
    }

    /// Whether this double is below zero.
    pub fn is_negative(self) -> (r: bool)
        ensures
            r == self.negative(),
    {
        SIGN_BIT < self.bits && self.bits <= SIGN_BIT + INFINITY_BITS
    }

    /// The sum of two non-negative doubles, rounded to the nearest double.
    pub fn plus(self, other: Double) -> (r: Double)
        requires
            self.bits < INFINITY_BITS - STEP,
            other.bits < INFINITY_BITS - STEP,
        ensures
            r == rounded_sum(self, other),
            r.bits <= self.bits + STEP || r.bits <= other.bits + STEP,
    {
        if self.bits >= other.bits {
            sum_ordered(self, other)
        } else {
            sum_ordered(other, self)
        }
    }

    /// The product of two doubles between zero and one, rounded to the nearest
    /// double.
    pub fn times(self, other: Double) -> (r: Double)
        requires
            self.bits <= ONE_BITS,
            other.bits <= ONE_BITS,
        ensures
            r == rounded_product(self, other),
            r.bits <= self.bits,
            r.bits <= other.bits,
    {
        let (ex, mx) = split_bits(self.bits);
        let (ey, my) = split_bits(other.bits);
        let ghost ax = atoms(self.bits as int);
        let ghost ay = atoms(other.bits as int);
        proof {
            lemma2_to64();
            lemma2_to64_rest();
            lemma_pow2_adds(53, 53);
            lemma_pow2_strictly_increases(106, 108);
            lemma_pow2_adds(ex as nat, ey as nat);
            assert(mx * my < 2 * STEP * (2 * STEP)) by (nonlinear_arith)
                requires
                    0 <= mx < 2 * STEP,
                    0 <= my < 2 * STEP,
            ;
            assert(ax * ay == (mx * my) * pow2((ex + ey) as nat)) by (nonlinear_arith)
                requires
                    ax == mx * pow2(ex as nat),
                    ay == my * pow2(ey as nat),
                    pow2((ex + ey) as nat) == pow2(ex as nat) * pow2(ey as nat),
            ;
            assert(ex <= 1022) by {
                assert(ex * STEP + mx <= ONE_BITS);
            }
            assert(ey <= 1022) by {
                assert(ey * STEP + my <= ONE_BITS);
            }
        }
        let r: u64 = round_scaled(mx as u128 * my as u128, ex + ey);
        proof {
            lemma_pow2_pos(1074);
            lemma_nearest_unique(ax * ay, pow2(1074) as int, r as int);
            lemma_product_bounds(self, other);
        }
        Double { bits: r }
    }

    /// The lesser of two non-negative doubles.
    pub fn at_most(self, other: Double) -> (r: Double)
        ensures
            r == lesser(self, other),
    {
        if self.bits <= other.bits {
            self
        } else {
            other
        }
    }

    /// The fraction `m / n` of two counts, rounded to the nearest double.
    pub fn ratio(m: u64, n: u64) -> (r: Double)
        requires
            m <= n,
            0 < n <= 0x10_0000,
        ensures
            r == rounded_ratio(m as int, n as int),
            r.bits <= ONE_BITS,
    {
        let ghost num = m * pow2(1074);
        proof {
            lemma_pow2_pos(1074);
            lemma_atoms_one();
            assert(num <= pow2(1074) * n) by (nonlinear_arith)
                requires
                    num == m * pow2(1074),
                    m <= n,
            ;
        }
        if m == 0 {
            proof {
                assert(num == 0) by (nonlinear_arith)
                    requires
                        num == m * pow2(1074),
                        m == 0,
                ;
                lemma_atoms(0, 0);
                lemma_atoms(0, 1);
                lemma2_to64();
                assert(rounds_to(num, n as int, 0));
                lemma_nearest_unique(num, n as int, 0);
            }
            return Double { bits: 0 };
        }
        let a: u128 = m as u128 * 0x400_0000_0000_0000_0000;
        let q: u128 = a / (n as u128);
        let rest: u128 = a % (n as u128);
        proof {
            lemma2_to64();
            lemma2_to64_rest();
            lemma_pow2_adds(64, 10);
            lemma_pow2_adds(20, 74);
            lemma_pow2_strictly_increases(94, 127);
            vstd::arithmetic::div_mod::lemma_fundamental_div_mod(a as int, n as int);
            vstd::arithmetic::div_mod::lemma_div_nonincreasing(a as int, n as int);
            assert(q >= pow2(54)) by (nonlinear_arith)
                requires
                    a == n * q + rest,
                    rest < n,
                    n <= 0x10_0000,
                    n > 0,
                    a >= 0x400_0000_0000_0000_0000,
                    pow2(54) == 0x40_0000_0000_0000,
            ;
        }
        let len: u32 = bit_length(q);
        proof {
            if len < 55 {
                if len < 54 {
                    lemma_pow2_strictly_increases(len as nat, 54);
                }
            }
            if len > 95 {
                lemma_pow2_strictly_increases(94, (len - 1) as nat);
            }
            assert(55 <= len <= 95);
        }
        let k: u32 = len - 53;
        let d: u128 = two_to(k);
        let e: u64 = 1000 + k as u64;
        proof {
            lemma_pow2_pos(k as nat);
        }
        let w: u128 = q / d;
        let rem: u128 = q % d;
        proof {
            vstd::arithmetic::div_mod::lemma_fundamental_div_mod(q as int, d as int);
            lemma_pow2_adds(53, k as nat);
            lemma_pow2_adds(52, k as nat);
            lemma_pow2_unfold(k as nat);
            assert(w < pow2(53)) by (nonlinear_arith)
                requires
                    q == d * w + rem,
                    q < pow2(53) * d,
                    rem >= 0,
                    d > 0,
            ;
            assert(w >= pow2(52)) by (nonlinear_arith)
                requires
                    q == d * w + rem,
                    q >= pow2(52) * d,
                    rem < d,
                    d > 0,
            ;
        }
        let v: u128 = if rem < d - rem || (rem == d - rem && rest == 0 && w % 2 == 0) {
            w
        } else {
            w + 1
        };
        let r: u64 = e * STEP + v as u64;
        proof {
            let p = pow2(1000) as int;
            let u = pow2(e as nat) * (n as int);
            lemma_pow2_pos(1000);
            lemma_pow2_adds(1000, 74);
            lemma_pow2_adds(1000, k as nat);
            let part = rem * n + rest;
            assert(num == w * u + part * p) by (nonlinear_arith)
                requires
                    num == m * pow2(1074),
                    pow2(1074) == p * 0x400_0000_0000_0000_0000,
                    a == m * 0x400_0000_0000_0000_0000,
                    a == n * q + rest,
                    q == d * w + rem,
                    u == (p * d) * n,
                    part == rem * n + rest,
            ;
            assert(part < d * n) by (nonlinear_arith)
                requires
                    part == rem * n + rest,
                    rem <= d - 1,
                    rest < n,
            ;
            assert(2 * rem <= d - 2 ==> 2 * part < d * n) by (nonlinear_arith)
                requires
                    part == rem * n + rest,
                    rest < n,
            ;
            assert(2 * rem > d ==> 2 * part > d * n) by (nonlinear_arith)
                requires
                    part == rem * n + rest,
                    rest >= 0,
                    n > 0,
            ;
            assert(2 * rem == d ==> 2 * part == d * n + 2 * rest) by (nonlinear_arith)
                requires
                    part == rem * n + rest,
            ;
            assert(u == p * (d * n)) by (nonlinear_arith)
                requires
                    u == (p * d) * n,
            ;
            assert(0 <= part * p < u && (2 * (part * p) < u <==> 2 * part < d * n) && (2 * (part * p) > u <==> 2 * part > d * n)) by (nonlinear_arith)
                requires
                    u == p * (d * n),
                    p > 0,
                    0 <= part < d * n,
            ;
            assert(d % 2 == 0);
            lemma_rounds(num, n as int, e as int, w as int, part * p, v as int);
            lemma_nearest_unique(num, n as int, r as int);
            lemma_rounds_below(num, n as int, r as int, ONE_BITS as int);
        }
        Double { bits: r }
    }
}

/// One is two to the power 1074 units.
proof fn lemma_atoms_one()
    ensures
        atoms(ONE_BITS as int) == pow2(1074),
{
    lemma_atoms(1022, STEP as int);
    lemma2_to64_rest();
    lemma_pow2_adds(52, 1022);
}

/// Where a value lies relative to a bound.
enum Side {
    Below,
    At,
    Above,
}

/// Compares the distance between two finite magnitudes `q <= p` with `k` units
/// of two to the power -60.
fn gap_side(p: u64, q: u64, k: u64) -> (r: Side)
    requires
        q <= p < INFINITY_BITS,
        2 * STEP <= k <= 4 * STEP,
    ensures
        r is Below <==> atoms(p as int) - atoms(q as int) < k * pow2(1014),
        r is At <==> atoms(p as int) - atoms(q as int) == k * pow2(1014),
        r is Above <==> atoms(p as int) - atoms(q as int) > k * pow2(1014),
{
    let (ep, mp) = split_bits(p);
    let (eq, mq) = split_bits(q);
    let ghost ap = atoms(p as int);
    let ghost aq = atoms(q as int);
    let ghost unit = pow2(1014) as int;
    let ghost bound = k * unit;
    proof {
        lemma_pow2_pos(1014);
        lemma_atoms_increases(q as int, p as int);
        lemma2_to64();
        lemma2_to64_rest();
    }
    if ep >= 1074 {
        if p == q {
            proof {
                assert(bound > 0) by (nonlinear_arith)
                    requires
                        bound == k * unit,
                        k > 0,
                        unit > 0,
                ;
            }
            Side::Below
        } else {
            proof {
                // Neighbouring doubles this large are at least half a unit apart.
                lemma_atoms_increases(q as int, p - 1);
                let (e, m) = lemma_split(p - 1);
                assert(e >= 1073) by {
                    if e < 1073 {
                        assert(e * STEP <= 1072 * STEP) by (nonlinear_arith)
                            requires
                                e <= 1072,
                        ;
                        assert(ep * STEP >= 1074 * STEP) by (nonlinear_arith)
                            requires
                                ep >= 1074,
                        ;
                    }
                }
                assert((m + 1) * pow2(e as nat) == m * pow2(e as nat) + pow2(e as nat)) by (nonlinear_arith);
                lemma_pow2_adds(59, 1014);
                if e > 1073 {
                    lemma_pow2_strictly_increases(1073, e as nat);
                }
                assert(bound < 0x800_0000_0000_0000 * unit) by (nonlinear_arith)
                    requires
                        bound == k * unit,
                        k <= 4 * STEP,
                        unit > 0,
                ;
            }
            Side::Above
        }
    } else if ep < 1014 {
        proof {
            if ep < 1013 {
                lemma_pow2_strictly_increases(ep as nat, 1013);
            }
            lemma_pow2_unfold(1014);
            assert(ap < bound) by (nonlinear_arith)
                requires
                    ap == mp * pow2(ep as nat),
                    pow2(ep as nat) <= pow2(1013),
                    mp < 2 * STEP,
                    unit == 2 * pow2(1013),
                    bound == k * unit,
                    k >= 2 * STEP,
                    unit > 0,
            ;
        }
        Side::Below
    } else {
        let fp: u128 = two_to(ep - 1014);
        proof {
            if ep - 1014 < 60 {
                lemma_pow2_strictly_increases((ep - 1014) as nat, 60);
            }
            lemma_pow2_adds((ep - 1014) as nat, 1014);
            assert(mp * fp <= 2 * STEP * 0x1000_0000_0000_0000) by (nonlinear_arith)
                requires
                    0 <= mp < 2 * STEP,
                    0 <= fp <= 0x1000_0000_0000_0000,
            ;
        }
        let whole: u128 = mp as u128 * fp;
        proof {
            assert(ap == whole * unit) by (nonlinear_arith)
                requires
                    ap == mp * pow2(ep as nat),
                    pow2(ep as nat) == fp * unit,
                    whole == mp * fp,
            ;
        }
        if whole < k as u128 {
            proof {
                assert(ap < bound) by (nonlinear_arith)
                    requires
                        ap == whole * unit,
                        bound == k * unit,
                        whole < k,
                        unit > 0,
                ;
            }
            return Side::Below;
        }
        let rest: u128 = whole - k as u128;
        proof {
            assert(ap - bound == rest * unit) by (nonlinear_arith)
                requires
                    ap == whole * unit,
                    bound == k * unit,
                    rest == whole - k,
            ;
        }
        if eq >= 1014 {
            proof {
                assert(eq <= ep) by {
                    if eq > ep {
                        assert(eq * STEP >= ep * STEP + STEP) by (nonlinear_arith)
                            requires
                                eq >= ep + 1,
                        ;
                    }
                }
            }
            let fq: u128 = two_to(eq - 1014);
            proof {
                if eq - 1014 < 60 {
                    lemma_pow2_strictly_increases((eq - 1014) as nat, 60);
                }
                lemma_pow2_adds((eq - 1014) as nat, 1014);
                assert(mq * fq <= 2 * STEP * 0x1000_0000_0000_0000) by (nonlinear_arith)
                    requires
                        0 <= mq < 2 * STEP,
                        0 <= fq <= 0x1000_0000_0000_0000,
                ;
            }
            let other: u128 = mq as u128 * fq;
            proof {
                assert(aq == other * unit) by (nonlinear_arith)
                    requires
                        aq == mq * pow2(eq as nat),
                        pow2(eq as nat) == fq * unit,
                        other == mq * fq,
                ;
                lemma_scaled_order(rest as int, other as int, unit);
            }
            if rest < other {
                Side::Below
            } else if rest == other {
                Side::At
            } else {
                Side::Above
            }
        } else {
            let shift: u32 = 1014 - eq;
            let ghost low = pow2(eq as nat) as int;
            proof {
                lemma_pow2_adds(shift as nat, eq as nat);
                lemma_pow2_pos(eq as nat);
                assert(rest * unit == (rest * pow2(shift as nat)) * low) by (nonlinear_arith)
                    requires
                        unit == pow2(shift as nat) * low,
                ;
                lemma_scaled_order(rest * pow2(shift as nat), mq as int, low);
            }
            if shift >= 64 {
                proof {
                    if shift > 64 {
                        lemma_pow2_strictly_increases(64, shift as nat);
                    }
                    assert(rest > 0 ==> rest * pow2(shift as nat) > mq) by (nonlinear_arith)
                        requires
                            pow2(shift as nat) >= 0x1_0000_0000_0000_0000,
                            mq < 0x1_0000_0000_0000_0000,
                            rest >= 0,
                    ;
                    assert(rest == 0 ==> rest * pow2(shift as nat) == 0) by (nonlinear_arith);
                }
                if rest > 0 {
                    Side::Above
                } else if mq == 0 {
                    Side::At
                } else {
                    Side::Below
                }
            } else {
                let f: u128 = two_to(shift);
                proof {
                    lemma_pow2_pos(shift as nat);
                }
                let floor: u128 = mq as u128 / f;
                let part: u128 = mq as u128 % f;
                proof {
                    vstd::arithmetic::div_mod::lemma_fundamental_div_mod(mq as int, f as int);
                    assert(rest > floor ==> rest * f > mq) by (nonlinear_arith)
                        requires
                            mq == f * floor + part,
                            part < f,
                            f > 0,
                    ;
                    assert(rest < floor ==> rest * f < mq) by (nonlinear_arith)
                        requires
                            mq == f * floor + part,
                            part >= 0,
                            f > 0,
                    ;
                    assert(rest == floor ==> rest * f + part == mq) by (nonlinear_arith)
                        requires
                            mq == f * floor + part,
                    ;
                }
                if rest > floor {
                    Side::Above
                } else if rest < floor || part > 0 {
                    Side::Below
                } else {
                    Side::At
                }
            }
        }
    }
}

proof fn lemma_scaled_order(a: int, b: int, unit: int)
    requires
        unit > 0,
    ensures
        a * unit < b * unit <==> a < b,
        a * unit == b * unit <==> a == b,
{
    assert(a < b ==> a * unit < b * unit) by (nonlinear_arith)
        requires
            unit > 0,
    ;
    assert(b < a ==> b * unit < a * unit) by (nonlinear_arith)
        requires
            unit > 0,
    ;
}

/// The half-way points on either side of the double `0.01`.
proof fn lemma_cent_bounds(gap: int)
    requires
        gap >= 0,
    ensures
        nearest(gap, 1) > CENT_BITS <==> gap >= 11529215046068471 * pow2(1014),
        nearest(gap, 1) < CENT_BITS <==> gap <= 11529215046068469 * pow2(1014),
{
    let c = CENT_BITS as int;
    let b = nearest(gap, 1);
    lemma_nearest_exists(gap, 1);
    lemma_pow2_pos(1014);
    lemma_pow2_unfold(1015);
    assert(c == 1015 * STEP + 5764607523034235) by (nonlinear_arith)
        requires
            c == CENT_BITS as int,
    ;
    lemma_atoms(1015, 5764607523034234);
    lemma_atoms(1015, 5764607523034235);
    lemma_atoms(1015, 5764607523034236);
    if b > c {
        lemma_atoms_increases(c, b - 1);
        lemma_atoms_increases(c + 1, b);
    } else {
        lemma_atoms_increases(b, c);
        lemma_atoms_increases(b + 1, c + 1);
    }
    if b < c {
        lemma_atoms_increases(b, c - 1);
        lemma_atoms_increases(b + 1, c);
    } else {
        lemma_atoms_increases(c - 1, b - 1);
        lemma_atoms_increases(c, b);
    }
}

/// Whether two amounts, taken without sign, differ by more than one cent.
pub fn over_a_cent_apart(x: Double, y: Double) -> (r: bool)
    ensures
        r == (magnitude_gap(x, y) matches Some(gap) && gap > CENT_BITS),
{
    let a: u64 = x.bits % SIGN_BIT;
    let b: u64 = y.bits % SIGN_BIT;
    if a > INFINITY_BITS || b > INFINITY_BITS || (a == INFINITY_BITS && b == INFINITY_BITS) {
        return false;
    }
    if a == INFINITY_BITS || b == INFINITY_BITS {
        return true;
    }
    let (p, q): (u64, u64) = if a >= b {
        (a, b)
    } else {
        (b, a)
    };
    proof {
        lemma_atoms_increases(q as int, p as int);
        lemma_cent_bounds(atoms(p as int) - atoms(q as int));
    }
    match gap_side(p, q, 11529215046068471) {
        Side::Below => false,
        _ => true,
    }
}

/// Whether two amounts, taken without sign, differ by less than one cent.
pub fn within_a_cent(x: Double, y: Double) -> (r: bool)
    ensures
        r == (magnitude_gap(x, y) matches Some(gap) && gap < CENT_BITS),
{
    let a: u64 = x.bits % SIGN_BIT;
    let b: u64 = y.bits % SIGN_BIT;
    if a >= INFINITY_BITS || b >= INFINITY_BITS {
        return false;
    }
    let (p, q): (u64, u64) = if a >= b {
        (a, b)
    } else {
        (b, a)
    };
    proof {
        lemma_atoms_increases(q as int, p as int);
        lemma_cent_bounds(atoms(p as int) - atoms(q as int));
    }
    match gap_side(p, q, 11529215046068469) {
        Side::Above => false,
        _ => true,
    }
}

/// One step of the exponent field at least doubles a value.
proof fn lemma_next_exponent(b: int)
    requires
        b >= 0,
    ensures
        2 * atoms(b) <= atoms(b + STEP),
{
    let e = b / STEP as int;
    let m = STEP + b % STEP as int;
    assert((b + STEP) / STEP as int == e + 1 && (b + STEP) % STEP as int == b % STEP as int);
    if e > 0 {
        lemma_pow2_unfold(e as nat);
        let p = pow2((e - 1) as nat) as int;
        assert(m * (2 * p) == 2 * (m * p)) by (nonlinear_arith);
        assert(pow2(e as nat) == 2 * p);
        assert(atoms(b) == m * p);
        assert(atoms(b + STEP) == m * pow2(e as nat));
    } else {
        lemma2_to64();
        assert(pow2(0) == 1);
        assert(atoms(b + STEP) == m * pow2(0));
        assert(m * 1 == m);
    }
}

fn sum_ordered(x: Double, y: Double) -> (r: Double)
    requires
        y.bits <= x.bits < INFINITY_BITS - STEP,
    ensures
        r == rounded_sum(x, y),
        r == rounded_sum(y, x),
        r.bits <= x.bits + STEP,
{
    let (ex, mx) = split_bits(x.bits);
    let (ey, my) = split_bits(y.bits);
    let ghost ax = atoms(x.bits as int);
    let ghost ay = atoms(y.bits as int);
    let ghost num = ax + ay;
    proof {
        lemma_atoms_increases(y.bits as int, x.bits as int);
        lemma_pow2_pos(ex as nat);
        lemma_pow2_pos(ey as nat);
        assert(ey <= ex) by {
            if ey > ex {
                assert(ey * STEP >= ex * STEP + STEP) by (nonlinear_arith)
                    requires
                        ey >= ex + 1,
                ;
            }
        }
        // The sum is at most twice the greater operand.
        lemma_next_exponent(x.bits as int);
        assert(num <= atoms(x.bits + STEP));
    }
    let d: u32 = ex - ey;
    if d >= 55 {
        proof {
            let p = pow2(ex as nat) as int;
            lemma_split(x.bits as int);
            lemma_atoms(ex as int, mx + 1);
            lemma2_to64_rest();
            lemma_pow2_adds(55, ey as nat);
            if d > 55 {
                lemma_pow2_strictly_increases((55 + ey) as nat, ex as nat);
            }
            assert(2 * ay < p) by (nonlinear_arith)
                requires
                    ay == my * pow2(ey as nat),
                    my < 2 * STEP,
                    pow2(ey as nat) > 0,
                    0x80_0000_0000_0000 * pow2(ey as nat) <= p,
            ;
            assert((mx + 1) * p == mx * p + p) by (nonlinear_arith);
            if x.bits > 0 {
                lemma_atoms_increases(x.bits - 1, x.bits as int);
            }
            assert(rounds_to(num, 1, x.bits as int));
            lemma_nearest_unique(num, 1, x.bits as int);
        }
        x
    } else {
        let f: u128 = two_to(d);
        proof {
            lemma2_to64();
            lemma2_to64_rest();
            if d < 54 {
                lemma_pow2_strictly_increases(d as nat, 54);
            }
            lemma_pow2_adds(53, 54);
            lemma_pow2_unfold(108);
            lemma_pow2_strictly_increases(53, 107);
            assert(mx * f <= pow2(107)) by (nonlinear_arith)
                requires
                    mx < pow2(53),
                    f <= pow2(54),
                    pow2(107) == pow2(53) * pow2(54),
                    0 <= mx,
                    0 <= f,
            ;
            lemma_pow2_bound(108);
        }
        let n: u128 = mx as u128 * f + my as u128;
        let r: u64 = round_scaled(n, ey + 1074);
        proof {
            lemma_pow2_pos(1074);
            lemma_pow2_adds(ey as nat, 1074);
            lemma_pow2_adds(ey as nat, d as nat);
            assert(n * pow2(ey as nat) == num) by (nonlinear_arith)
                requires
                    n == mx * f + my,
                    ax == mx * pow2(ex as nat),
                    ay == my * pow2(ey as nat),
                    pow2(ex as nat) == pow2(ey as nat) * f,
                    num == ax + ay,
            ;
            assert(n * pow2((ey + 1074) as nat) == num * pow2(1074)) by (nonlinear_arith)
                requires
                    pow2((ey + 1074) as nat) == pow2(ey as nat) * pow2(1074),
                    n * pow2(ey as nat) == num,
            ;
            lemma_rounds_scaled(num, 1, pow2(1074) as int, r as int);
            lemma_nearest_unique(num, 1, r as int);
            lemma_rounds_below(num, 1, r as int, x.bits + STEP);
        }
        Double { bits: r }
    }
}


/// The product of two doubles between zero and one is at most either.
pub proof fn lemma_product_bounds(x: Double, y: Double)
    requires
        x.bits <= ONE_BITS,
        y.bits <= ONE_BITS,
    ensures
        rounded_product(x, y).bits <= x.bits,
        rounded_product(x, y).bits <= y.bits,
{
    let ax = atoms(x.bits as int);
    let ay = atoms(y.bits as int);
    let one = pow2(1074) as int;
    let b = nearest(ax * ay, one);
    lemma_pow2_pos(1074);
    lemma_atoms_one();
    lemma_atoms_increases(x.bits as int, ONE_BITS as int);
    lemma_atoms_increases(y.bits as int, ONE_BITS as int);
    assert(0 <= ax * ay <= ax * one && ax * ay <= ay * one) by (nonlinear_arith)
        requires
            0 <= ax <= one,
            0 <= ay <= one,
    ;
    lemma_nearest_exists(ax * ay, one);
    lemma_rounds_below(ax * ay, one, b, x.bits as int);
    lemma_rounds_below(ax * ay, one, b, y.bits as int);
}

/// A value that is a double rounds to itself.
pub proof fn lemma_exact(b: int, den: int)
    requires
        b >= 0,
        den > 0,
    ensures
        nearest(atoms(b) * den, den) == b,
{
    let a = atoms(b);
    lemma_atoms_step(b);
    let hi = a + atoms(b + 1);
    assert(2 * (a * den) < hi * den) by (nonlinear_arith)
        requires
            den > 0,
            2 * a < hi,
    ;
    if b > 0 {
        lemma_atoms_step(b - 1);
        let lo = atoms(b - 1) + a;
        assert(lo * den < 2 * (a * den)) by (nonlinear_arith)
            requires
                den > 0,
                lo < 2 * a,
        ;
    }
    assert(rounds_to(a * den, den, b));
    assert(0 <= a * den) by (nonlinear_arith)
        requires
            0 <= a,
            den > 0,
    ;
    lemma_nearest_unique(a * den, den, b);
}

/// Adding zero changes nothing.
pub proof fn lemma_sum_zero(x: Double)
    ensures
        rounded_sum(Double { bits: 0 }, x) == x,
{
    lemma_atoms(0, 0);
    lemma_exact(x.bits as int, 1);
}

/// The value of a double from 1/32 up to 2 in units of two to the power -57.
pub open spec fn fine_units(b: int) -> int {
    let exponent = b / STEP as int;
    let significand = STEP + b % STEP as int;
    if exponent == 1018 {
        significand
    } else if exponent == 1019 {
        2 * significand
    } else if exponent == 1020 {
        4 * significand
    } else if exponent == 1021 {
        8 * significand
    } else if exponent == 1022 {
        16 * significand
    } else {
        32 * significand
    }
}

proof fn lemma_fine_units(b: int)
    requires
        1018 <= b / STEP as int <= 1023,
    ensures
        atoms(b) == fine_units(b) * pow2(1017),
{
    let e = b / STEP as int;
    let m = STEP + b % STEP as int;
    lemma2_to64();
    lemma_pow2_adds((e - 1018) as nat, 1017);
    let k = pow2((e - 1018) as nat) as int;
    assert(m * (k * pow2(1017)) == (k * m) * pow2(1017)) by (nonlinear_arith);
}

/// A sum of doubles from 1/32 up to 2, checked on small integers.
pub proof fn lemma_fine_sum(x: u64, y: u64, r: u64)
    requires
        1018 <= x / STEP <= 1023,
        1018 <= y / STEP <= 1023,
        1018 <= (r - 1) / STEP as int,
        (r + 1) / STEP as int <= 1023,
        ({
            let twice = 2 * (fine_units(x as int) + fine_units(y as int));
            let low = fine_units(r - 1) + fine_units(r as int);
            let high = fine_units(r as int) + fine_units(r + 1);
            low <= twice <= high && (r % 2 != 0 ==> low < twice < high)
        }),
    ensures
        rounded_sum(Double { bits: x }, Double { bits: y }) == (Double { bits: r }),
{
    lemma_fine_units(x as int);
    lemma_fine_units(y as int);
    lemma_fine_units(r - 1);
    lemma_fine_units(r as int);
    lemma_fine_units(r + 1);
    let p = pow2(1017) as int;
    lemma_pow2_pos(1017);
    let num = atoms(x as int) + atoms(y as int);
    let twice = 2 * (fine_units(x as int) + fine_units(y as int));
    let low = fine_units(r - 1) + fine_units(r as int);
    let high = fine_units(r as int) + fine_units(r + 1);
    assert(2 * num == twice * p) by (nonlinear_arith)
        requires
            num == fine_units(x as int) * p + fine_units(y as int) * p,
            twice == 2 * (fine_units(x as int) + fine_units(y as int)),
    ;
    assert(atoms(r - 1) + atoms(r as int) == low * p) by (nonlinear_arith)
        requires
            atoms(r - 1) == fine_units(r - 1) * p,
            atoms(r as int) == fine_units(r as int) * p,
            low == fine_units(r - 1) + fine_units(r as int),
    ;
    assert(atoms(r as int) + atoms(r + 1) == high * p) by (nonlinear_arith)
        requires
            atoms(r as int) == fine_units(r as int) * p,
            atoms(r + 1) == fine_units(r + 1) * p,
            high == fine_units(r as int) + fine_units(r + 1),
    ;
    lemma_scaled_order(low, twice, p);
    lemma_scaled_order(twice, high, p);
    assert(rounds_to(num, 1, r as int));
    lemma_nearest_unique(num, 1, r as int);
}

/// A whole, as a fraction, is one.
pub proof fn lemma_ratio_whole(n: int)
    requires
        n > 0,
    ensures
        rounded_ratio(n, n) == (Double { bits: ONE_BITS }),
{
    lemma_atoms_one();
    assert(n * pow2(1074) == pow2(1074) * n) by (nonlinear_arith);
    lemma_exact(ONE_BITS as int, n);
}

/// An amount does not differ from itself.
pub proof fn lemma_gap_to_self(x: Double)
    requires
        magnitude(x) < INFINITY_BITS,
    ensures
        magnitude_gap(x, x) == Some(0int),
{
    lemma_atoms(0, 0);
    lemma_exact(0, 1);
}

/// Rounded counts are in order, and a count of one or more is no less than one.
proof fn lemma_rounded_counts(m: int, n: int)
    requires
        0 <= m <= n,
        0 < n,
    ensures
        ({
            let part = nearest(m * pow2(1074), 1);
            let whole = nearest(n * pow2(1074), 1);
            &&& 0 <= part <= whole
            &&& ONE_BITS <= whole
            &&& 0 < m ==> ONE_BITS <= part
            &&& 0 <= atoms(part) <= atoms(whole)
            &&& pow2(1074) <= atoms(whole)
            &&& 0 < m ==> pow2(1074) <= atoms(part)
            &&& 0 < pow2(1074)
        }),
{
    let one = pow2(1074) as int;
    let part = nearest(m * one, 1);
    let whole = nearest(n * one, 1);
    lemma_pow2_pos(1074);
    lemma_atoms_one();
    assert(0 <= m * one <= n * one && one <= n * one && (0 < m ==> one <= m * one))
        by (nonlinear_arith)
        requires
            0 <= m <= n,
            0 < n,
            0 < one,
    ;
    lemma_nearest_exists(m * one, 1);
    lemma_nearest_exists(n * one, 1);
    lemma_rounds_monotone(m * one, n * one, 1, part, whole);
    lemma_rounds_above(n * one, 1, whole, ONE_BITS as int);
    lemma_atoms_increases(ONE_BITS as int, whole);
    lemma_atoms_increases(part, whole);
    lemma_atoms(0, 0);
    lemma_atoms_increases(0, part);
    if 0 < m {
        lemma_rounds_above(m * one, 1, part, ONE_BITS as int);
        lemma_atoms_increases(ONE_BITS as int, part);
    }
}

/// The rest of a whole lies between zero and one. It is one where nothing is taken,
/// zero where all is, and below one where anything is taken of a whole that is not
/// so large that rounding hides it.
pub proof fn lemma_rest_bounds(m: int, n: int)
    requires
        0 <= m <= n,
        0 < n,
    ensures
        rounded_rest(m, n).bits <= ONE_BITS,
        m == 0 ==> rounded_rest(m, n).bits == ONE_BITS,
        m == n ==> rounded_rest(m, n).bits == 0,
        0 < m && n <= 2 * STEP ==> rounded_rest(m, n).bits < ONE_BITS,
{
    let one = pow2(1074) as int;
    let part = nearest(m * one, 1);
    let whole = nearest(n * one, 1);
    let x = atoms(part);
    let y = atoms(whole);
    let share = nearest(x * one, y);
    lemma_rounded_counts(m, n);
    lemma_atoms_one();
    lemma_atoms(0, 0);
    assert(0 <= x * one <= one * y) by (nonlinear_arith)
        requires
            0 <= x <= y,
            0 < one,
    ;
    lemma_nearest_exists(x * one, y);
    lemma_rounds_below(x * one, y, share, ONE_BITS as int);
    lemma_atoms_increases(share, ONE_BITS as int);
    lemma_atoms_increases(0, share);
    let rest = nearest(one - atoms(share), 1);
    lemma_nearest_exists(one - atoms(share), 1);
    lemma_rounds_below(one - atoms(share), 1, rest, ONE_BITS as int);
    if m == 0 {
        lemma_exact(0, 1);
        assert(part == 0);
        lemma_exact(0, y);
        assert(share == 0);
        lemma_exact(ONE_BITS as int, 1);
    }
    if m == n {
        assert(x * one == one * y) by (nonlinear_arith)
            requires
                x == y,
        ;
        lemma_exact(ONE_BITS as int, y);
        assert(share == ONE_BITS);
        lemma_exact(0, 1);
    }
    if 0 < m && n <= 2 * STEP {
        lemma_least_share(n, x, y);
        let least = 970 * STEP as int;
        lemma_rounds_above(x * one, y, share, least);
        lemma_atoms_increases(least, share);
        lemma_below_one();
        lemma_rounds_below(one - atoms(share), 1, rest, ONE_BITS - 1);
    }
}

/// One of at most two to the power 53 is no less than two to the power -53.
proof fn lemma_least_share(n: int, x: int, y: int)
    requires
        0 < n <= 2 * STEP,
        y == atoms(nearest(n * pow2(1074), 1)),
        pow2(1074) <= x,
    ensures
        atoms(970 * STEP as int) * y <= x * pow2(1074),
{
    let one = pow2(1074) as int;
    let top = 1076 * STEP as int;
    let whole = nearest(n * one, 1);
    lemma_pow2_pos(1074);
    lemma2_to64_rest();
    lemma_atoms(969, STEP as int);
    lemma_atoms(1075, STEP as int);
    lemma_pow2_unfold(1075);
    lemma_pow2_adds(52, 969);
    lemma_pow2_adds(53, 1021);
    lemma_pow2_pos(1021);
    assert(atoms(top) == 2 * STEP * one) by (nonlinear_arith)
        requires
            atoms(top) == STEP * pow2(1075),
            pow2(1075) == 2 * one,
    ;
    assert(0 <= n * one <= 2 * STEP * one) by (nonlinear_arith)
        requires
            0 < n <= 2 * STEP,
            0 < one,
    ;
    lemma_nearest_exists(n * one, 1);
    lemma_rounds_below(n * one, 1, whole, top);
    lemma_atoms_increases(whole, top);
    let least = atoms(970 * STEP as int);
    assert(least * (2 * STEP) == one);
    assert(least * y <= x * one) by (nonlinear_arith)
        requires
            y <= 2 * STEP * one,
            least * (2 * STEP) == one,
            0 <= least,
            one <= x,
            0 < one,
    ;
}

/// The double before one is less than it by two to the power -53.
proof fn lemma_below_one()
    ensures
        atoms(ONE_BITS - 1) == pow2(1074) - atoms(970 * STEP as int),
{
    lemma2_to64_rest();
    lemma_atoms(1021, 2 * STEP - 1);
    lemma_atoms(969, STEP as int);
    lemma_pow2_adds(52, 969);
    lemma_pow2_adds(53, 1021);
    let least = pow2(1021) as int;
    assert((2 * STEP - 1) * least == (2 * STEP) * least - least) by (nonlinear_arith);
}

/// A count up to two to the power 53 is a double.
proof fn lemma_count_exact(n: int)
    requires
        0 <= n <= 2 * STEP,
    ensures
        atoms(nearest(n * pow2(1074), 1)) == n * pow2(1074),
{
    let one = pow2(1074) as int;
    let num = n * one;
    lemma_pow2_pos(1074);
    assert(0 <= num <= 2 * STEP * one) by (nonlinear_arith)
        requires
            num == n * one,
            0 <= n <= 2 * STEP,
            0 < one,
    ;
    let e = lemma_unit_exists(num, 1, 0);
    let u = pow2(e as nat) as int;
    lemma_pow2_pos(e as nat);
    let q = num / u;
    vstd::arithmetic::div_mod::lemma_fundamental_div_mod(num, u);
    if e <= 1074 {
        lemma_pow2_adds(e as nat, (1074 - e) as nat);
        let k = n * pow2((1074 - e) as nat);
        assert(num == k * u) by (nonlinear_arith)
            requires
                num == n * one,
                one == u * pow2((1074 - e) as nat),
                k == n * pow2((1074 - e) as nat),
        ;
        vstd::arithmetic::div_mod::lemma_fundamental_div_mod_converse(num, u, k, 0);
    } else {
        lemma_pow2_unfold(1075);
        if e > 1075 {
            lemma_pow2_strictly_increases(1075, e as nat);
        }
        assert(STEP * (2 * one) <= q * u && num == q * u) by (nonlinear_arith)
            requires
                num == u * q + num % u,
                0 <= num % u,
                STEP <= q,
                2 * one <= u,
                num <= 2 * STEP * one,
                0 < one,
        ;
    }
    assert(num == q * u) by (nonlinear_arith)
        requires
            num == u * q + num % u,
            num % u == 0 || num == q * u,
    ;
    lemma_atoms(e, q);
    lemma_exact(e * STEP + q, 1);
}

/// On counts up to two to the power 53 only the quotient and the difference are
/// rounded.
pub proof fn lemma_rest_of_ratio(m: int, n: int)
    requires
        0 <= m <= n,
        0 < n <= 2 * STEP,
    ensures
        rounded_rest(m, n).bits == nearest(
            pow2(1074) - atoms(rounded_ratio(m, n).bits as int),
            1,
        ),
{
    let one = pow2(1074) as int;
    lemma_pow2_pos(1074);
    lemma_atoms_one();
    lemma_count_exact(m);
    lemma_count_exact(n);
    lemma_rest_bounds(m, n);
    let x = m * one;
    let y = n * one;
    assert(0 <= x <= one * n && 0 < y && x * one == (m * one) * one && y == n * one)
        by (nonlinear_arith)
        requires
            x == m * one,
            y == n * one,
            0 <= m <= n,
            0 < n,
            0 < one,
    ;
    let share = nearest(x * one, y);
    assert(0 <= x * one) by (nonlinear_arith)
        requires
            0 <= x,
            0 < one,
    ;
    lemma_nearest_exists(x * one, y);
    lemma_rounds_scaled(x, n, one, share);
    lemma_nearest_unique(x, n, share);
    lemma_rounds_below(x, n, share, ONE_BITS as int);
    lemma_atoms_increases(share, ONE_BITS as int);
    let rest = nearest(one - atoms(share), 1);
    lemma_nearest_exists(one - atoms(share), 1);
    lemma_atoms(0, 0);
    lemma_atoms_increases(0, share);
    lemma_rounds_below(one - atoms(share), 1, rest, ONE_BITS as int);
}

} // verus!
