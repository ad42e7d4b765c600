use vstd::prelude::*;
use vstd::arithmetic::power2::{pow2, lemma_pow2_adds, lemma_pow2_pos, lemma2_to64, lemma2_to64_rest};
use crate::text::{all_digits, digits_val, index_of, is_digit, lemma_index_of_range};

verus! {

/// `10^k`.
pub open spec fn pow10(k: nat) -> nat
    decreases k,
{
    if k == 0 {
        1
    } else {
        10 * pow10((k - 1) as nat)
    }
}

/// Concrete values of small powers of ten.
pub proof fn lemma_pow10_values()
    ensures
        pow10(0) == 1,
        pow10(1) == 10,
        pow10(2) == 100,
        pow10(3) == 1000,
        pow10(4) == 10000,
        pow10(5) == 100000,
        pow10(10) == 0x2540be400,
        pow10(20) == 0x56bc75e2d63100000,
        pow10(25) == 0x84595161401484a000000,
{
    assert(pow10(0) == 1);
    assert(pow10(1) == 10);
    assert(pow10(2) == 100);
    assert(pow10(3) == 1000);
    assert(pow10(4) == 10000);
    assert(pow10(5) == 100000);
    assert(pow10(6) == 1000000);
    assert(pow10(7) == 10000000);
    assert(pow10(8) == 100000000);
    assert(pow10(9) == 1000000000);
    assert(pow10(10) == 10000000000);
    assert(pow10(11) == 100000000000);
    assert(pow10(12) == 1000000000000);
    assert(pow10(13) == 10000000000000);
    assert(pow10(14) == 100000000000000);
    assert(pow10(15) == 1000000000000000);
    assert(pow10(16) == 10000000000000000);
    assert(pow10(17) == 100000000000000000);
    assert(pow10(18) == 1000000000000000000);
    assert(pow10(19) == 10000000000000000000);
    assert(pow10(20) == 100000000000000000000);
    assert(pow10(21) == 1000000000000000000000);
    assert(pow10(22) == 10000000000000000000000);
    assert(pow10(23) == 100000000000000000000000);
    assert(pow10(24) == 1000000000000000000000000);
    assert(pow10(25) == 10000000000000000000000000);
}

/// A digit string's value is below `10^len`.
pub proof fn lemma_digits_val_bound(s: Seq<char>)
    requires
        all_digits(s),
    ensures
        digits_val(s) < pow10(s.len()),
    decreases s.len(),
{
    if s.len() > 0 {
        assert(all_digits(s.drop_last())) by {
            assert(forall|i: int|
                0 <= i < s.len() - 1 ==> #[trigger] s.drop_last()[i] == s[i]);
        }
        lemma_digits_val_bound(s.drop_last());
        assert(is_digit(s.last()));
    }
}

/// The sign bit of an IEEE-754 64-bit float.
pub open spec fn f64_sign(bits: u64) -> bool {
    bits / 0x8000000000000000 == 1
}

/// The biased exponent field.
pub open spec fn f64_expf(bits: u64) -> nat {
    ((bits / 0x10000000000000) % 0x800) as nat
}

/// The fraction field.
pub open spec fn f64_frac(bits: u64) -> nat {
    (bits % 0x10000000000000) as nat
}

/// Whether the bits hold an infinity or a not-a-number.
pub open spec fn f64_special(bits: u64) -> bool {
    f64_expf(bits) == 0x7ff
}

/// The integral significand: the fraction with its implicit leading bit
/// when the exponent field is non-zero.
pub open spec fn f64_mant(bits: u64) -> nat {
    if f64_expf(bits) == 0 {
        f64_frac(bits)
    } else {
        f64_frac(bits) + 0x10000000000000
    }
}

/// The binary exponent that scales the integral significand: the value of
/// the float is `(-1)^sign * mant * 2^exp`.
pub open spec fn f64_exp(bits: u64) -> int {
    if f64_expf(bits) == 0 {
        -1074
    } else {
        f64_expf(bits) - 1075
    }
}

/// The magnitude `m * 2^e * 10^k`, scaled by `2^1074` so that it is an
/// integer for every representable exponent.
pub open spec fn mag_scaled(m: nat, e: int, k: nat) -> int {
    m as int * pow2((e + 1074) as nat) as int * pow10(k) as int
}

/// The magnitude `a`, scaled by `2^1074`.
pub open spec fn lit_scaled(a: nat) -> int {
    a as int * pow2(1074) as int
}

/// The decimal literal `s` as an exact rational `(-1)^neg * a / 10^k`:
/// an optional sign, digits, an optional point, more digits.  Literals
/// with more than 25 digits or more than 20 fraction digits are out of
/// the range this library decides, as are forms with an exponent part.
pub open spec fn parse_dec_spec(s: Seq<char>) -> Option<(bool, nat, nat)> {
    let neg = s.len() > 0 && s[0] == '-';
    let t = if s.len() > 0 && (s[0] == '-' || s[0] == '+') {
        s.drop_first()
    } else {
        s
    };
    let i = index_of(t, '.');
    let d1 = t.take(i);
    let d2 = if i < t.len() {
        t.skip(i + 1)
    } else {
        Seq::empty()
    };
    if d1.len() + d2.len() == 0 || !all_digits(d1) || !all_digits(d2) {
        None
    } else if d1.len() + d2.len() > 25 || d2.len() > 20 {
        None
    } else {
        Some((neg, digits_val(d1 + d2), d2.len()))
    }
}

/// The upper midpoint of the rounding interval of a normal double with
/// significand `m` and exponent `e` — the value `(m + 1/2) * 2^e` —
/// scaled by `2^1076 * 10^k` so that it is an integer for every
/// representable exponent.
pub open spec fn rnd_hi(m: nat, e: int, k: nat) -> int {
    (2 * m + 1) as int * pow2((e + 1075) as nat) as int * pow10(k) as int
}

/// The lower midpoint of the rounding interval, scaled as `rnd_hi`: the
/// value `(m - 1/2) * 2^e`, except at the bottom of a binade, where the
/// doubles below lie twice as close and the midpoint is `(m - 1/4) * 2^e`.
pub open spec fn rnd_lo(m: nat, e: int, k: nat) -> int {
    if m == 0x10000000000000 {
        (4 * m - 1) as int * pow2((e + 1074) as nat) as int * pow10(k) as int
    } else {
        (2 * m - 1) as int * pow2((e + 1075) as nat) as int * pow10(k) as int
    }
}

/// The magnitude `a / 10^k`, scaled by `2^1076 * 10^k`.
pub open spec fn lit_big(a: nat) -> int {
    a as int * pow2(1076) as int
}

/// Whether the finite float `bits` is the nearest IEEE-754 double of the
/// rational `(-1)^neg * a / 10^k`, rounding ties to an even significand —
/// the value `str::parse::<f64>` gives such a literal.  The magnitudes the
/// decimal parser admits (between `10^-20` and `10^25` when non-zero)
/// always round to a normal double, so the zero and subnormal cases are
/// immediate and the binade-bottom midpoint above is exact wherever it is
/// reachable.
pub open spec fn float_is_rounded(bits: u64, neg: bool, a: nat, k: nat) -> bool {
    if a == 0 {
        f64_mant(bits) == 0
    } else if f64_mant(bits) < 0x10000000000000 {
        false
    } else if f64_sign(bits) != neg {
        false
    } else {
        let m = f64_mant(bits);
        let e = f64_exp(bits);
        ||| (rnd_lo(m, e, k) < lit_big(a) && lit_big(a) < rnd_hi(m, e, k))
        ||| (lit_big(a) == rnd_hi(m, e, k) && m % 2 == 0)
        ||| (lit_big(a) == rnd_lo(m, e, k) && m % 2 == 0)
    }
}

/// Whether the finite float `bits` exceeds the rational
/// `(-1)^neg * a / 10^k` exactly.
pub open spec fn float_gt_rat(bits: u64, neg: bool, a: nat, k: nat) -> bool {
    if f64_mant(bits) == 0 {
        neg && a != 0
    } else if a == 0 {
        !f64_sign(bits)
    } else if f64_sign(bits) != neg {
        !f64_sign(bits)
    } else if !f64_sign(bits) {
        mag_scaled(f64_mant(bits), f64_exp(bits), k) > lit_scaled(a)
    } else {
        mag_scaled(f64_mant(bits), f64_exp(bits), k) < lit_scaled(a)
    }
}

/// Whether the float `bits` equals the rational `(-1)^neg * a / 10^k`
/// read to the nearest double, as parsing the literal to a float does.
pub open spec fn float_eq_rat(bits: u64, neg: bool, a: nat, k: nat) -> bool {
    if f64_special(bits) {
        false
    } else {
        float_is_rounded(bits, neg, a, k)
    }
}

/// Whether the float `bits` is at least the rational `(-1)^neg * a / 10^k`
/// read to the nearest double.  A not-a-number is at least nothing; a
/// positive infinity is at least everything.  For a finite float that is
/// not the rounded double, no double lies strictly between the rational
/// and its rounding, so comparing against the exact rational decides the
/// order.
pub open spec fn float_ge_rat(bits: u64, neg: bool, a: nat, k: nat) -> bool {
    if f64_special(bits) {
        f64_frac(bits) == 0 && !f64_sign(bits)
    } else if float_is_rounded(bits, neg, a, k) {
        true
    } else {
        float_gt_rat(bits, neg, a, k)
    }
}

/// Whether the float equals the decimal literal, where the literal is one
/// this library decides.
pub open spec fn float_eq_lit(bits: u64, lit: Seq<char>) -> Option<bool> {
    match parse_dec_spec(lit) {
        None => None,
        Some((neg, a, k)) => Some(float_eq_rat(bits, neg, a, k)),
    }
}

/// Whether the float is at least the decimal literal, where the literal
/// is one this library decides.
pub open spec fn float_ge_lit(bits: u64, lit: Seq<char>) -> Option<bool> {
    match parse_dec_spec(lit) {
        None => None,
        Some((neg, a, k)) => Some(float_ge_rat(bits, neg, a, k)),
    }
}

/// A three-way comparison result.
#[derive(Clone, Copy, Debug, PartialEq, Eq, Structural)]
pub enum MagCmp {
    Below,
    Same,
    Above,
}

/// `x * 2^n`, or `None` when the product does not fit the machine word.
fn mul_pow2_u128(x: u128, n: u32) -> (r: Option<u128>)
    ensures
        match r {
            Some(y) => y == x * pow2(n as nat),
            None => x * pow2(n as nat) > u128::MAX,
        },
{
    let mut cur = x;
    let mut i: u32 = 0;
    proof {
        assert(pow2(0) == 1) by {
            lemma2_to64();
        }
    }
    while i < n
        invariant
            i <= n,
            cur * pow2((n - i) as nat) == x * pow2(n as nat),
        decreases n - i,
    {
        proof {
            lemma_pow2_adds(1, (n - i - 1) as nat);
            lemma2_to64();
            lemma_pow2_pos((n - i - 1) as nat);
        }
        let next = match cur.checked_mul(2) {
            Some(v) => v,
            None => {
                proof {
                    let rest = pow2((n - i - 1) as nat);
                    assert(cur * (2 * rest) == (cur * 2) * rest) by (nonlinear_arith);
                    assert((cur * 2) * rest >= cur * 2) by (nonlinear_arith)
                        requires
                            rest >= 1,
                            cur * 2 >= 0,
                    ;
                }
                return None;
            },
        };
        proof {
            let rest = pow2((n - i - 1) as nat);
            assert(cur * (2 * rest) == (cur * 2) * rest) by (nonlinear_arith);
        }
        cur = next;
        i = i + 1;
    }
    proof {
        assert(i == n);
        assert(pow2((n - i) as nat) == 1) by {
            lemma2_to64();
        }
        assert(cur * pow2((n - i) as nat) == cur * 1);
        assert(cur * 1 == cur) by (nonlinear_arith);
    }
    Some(cur)
}

/// `x * 10^k`, or `None` when the product does not fit the machine word.
fn mul_pow10_u128(x: u128, k: u32) -> (r: Option<u128>)
    ensures
        match r {
            Some(y) => y == x * pow10(k as nat),
            None => x * pow10(k as nat) > u128::MAX,
        },
{
    let mut cur = x;
    let mut i: u32 = 0;
    while i < k
        invariant
            i <= k,
            cur * pow10((k - i) as nat) == x * pow10(k as nat),
        decreases k - i,
    {
        proof {
            assert(pow10((k - i) as nat) == 10 * pow10((k - i - 1) as nat));
        }
        let next = match cur.checked_mul(10) {
            Some(v) => v,
            None => {
                proof {
                    let rest = pow10((k - i - 1) as nat);
                    assert(rest >= 1) by {
                        lemma_pow10_pos((k - i - 1) as nat);
                    }
                    assert(cur * (10 * rest) == (cur * 10) * rest) by (nonlinear_arith);
                    assert((cur * 10) * rest >= cur * 10) by (nonlinear_arith)
                        requires
                            rest >= 1,
                            cur * 10 >= 0,
                    ;
                }
                return None;
            },
        };
        proof {
            let rest = pow10((k - i - 1) as nat);
            assert(cur * (10 * rest) == (cur * 10) * rest) by (nonlinear_arith);
        }
        cur = next;
        i = i + 1;
    }
    proof {
        assert(i == k);
        assert(pow10((k - i) as nat) == 1);
        assert(cur * pow10((k - i) as nat) == cur * 1);
        assert(cur * 1 == cur) by (nonlinear_arith);
    }
    Some(cur)
}

/// `10^k` is positive.
pub proof fn lemma_pow10_pos(k: nat)
    ensures
        pow10(k) >= 1,
    decreases k,
{
    if k > 0 {
        lemma_pow10_pos((k - 1) as nat);
    }
}

/// Comparing two quantities is unchanged by scaling both with a positive
/// factor.
proof fn lemma_cmp_scale(x: int, y: int, c: int)
    requires
        c >= 1,
    ensures
        (x == y) <==> (x * c == y * c),
        (x > y) <==> (x * c > y * c),
        (x < y) <==> (x * c < y * c),
{
    assert((x == y) <==> (x * c == y * c)) by (nonlinear_arith)
        requires
            c >= 1,
    ;
    assert((x > y) <==> (x * c > y * c)) by (nonlinear_arith)
        requires
            c >= 1,
    ;
    assert((x < y) <==> (x * c < y * c)) by (nonlinear_arith)
        requires
            c >= 1,
    ;
}

/// Compare `m * 2^e * 10^k` against `a`, where `e` is `-e_abs` when
/// `e_neg` holds and `e_abs` otherwise, all quantities scaled by `2^1074`
/// as in `mag_scaled` and `lit_scaled`.
fn mag_cmp(m: u64, e_neg: bool, e_abs: u32, k: u32, a: u128) -> (r: MagCmp)
    requires
        e_neg ==> e_abs <= 1074,
        !e_neg ==> e_abs + 1074 <= u32::MAX,
        k <= 20,
        m as int * pow10(k as nat) <= u128::MAX,
    ensures
        ({
            let e: int = if e_neg {
                -(e_abs as int)
            } else {
                e_abs as int
            };
            let lhs = mag_scaled(m as nat, e, k as nat);
            let rhs = lit_scaled(a as nat);
            match r {
                MagCmp::Below => lhs < rhs,
                MagCmp::Same => lhs == rhs,
                MagCmp::Above => lhs > rhs,
            }
        }),
{
    let ghost e: int = if e_neg {
        -(e_abs as int)
    } else {
        e_abs as int
    };
    let ghost lhs_g = mag_scaled(m as nat, e, k as nat);
    let ghost rhs_g = lit_scaled(a as nat);
    if !e_neg {
        // both sides share the factor 2^1074
        proof {
            lemma_pow2_adds(e_abs as nat, 1074);
            lemma_pow2_pos(1074);
            let p = pow2(e_abs as nat);
            let q = pow2(1074);
            assert(m as int * (p * q) * pow10(k as nat) == (m as int * p * pow10(k as nat)) * q)
                by (nonlinear_arith);
        }
        let lhs_small = match mul_pow2_u128(m as u128, e_abs) {
            Some(v) => match mul_pow10_u128(v, k) {
                Some(w) => w,
                None => {
                    proof {
                        let p = pow2(e_abs as nat);
                        let q = pow2(1074);
                        assert((m as int * p) * pow10(k as nat) > u128::MAX ==> (m as int * p
                            * pow10(k as nat)) * q > (a as int) * q) by (nonlinear_arith)
                            requires
                                q >= 1,
                                a as int <= u128::MAX,
                        ;
                        assert(m as int * p * pow10(k as nat) == (m as int * p) * pow10(
                            k as nat,
                        )) by (nonlinear_arith);
                    }
                    return MagCmp::Above;
                },
            },
            None => {
                proof {
                    let p = pow2(e_abs as nat);
                    let q = pow2(1074);
                    lemma_pow10_pos(k as nat);
                    assert(m as int * p > u128::MAX ==> m as int * p * pow10(k as nat) * q > (
                    a as int) * q) by (nonlinear_arith)
                        requires
                            q >= 1,
                            pow10(k as nat) >= 1,
                            a as int <= u128::MAX,
                    ;
                }
                return MagCmp::Above;
            },
        };
        proof {
            lemma_cmp_scale(lhs_small as int, a as int, pow2(1074) as int);
            let p = pow2(e_abs as nat);
            let q = pow2(1074);
            assert((m as u128 * p) * pow10(k as nat) == m as int * p * pow10(k as nat))
                by (nonlinear_arith);
        }
        if lhs_small < a {
            MagCmp::Below
        } else if lhs_small == a {
            MagCmp::Same
        } else {
            MagCmp::Above
        }
    } else {
        // factor out 2^(1074 - e_abs): compare m * 10^k against a * 2^e_abs
        proof {
            lemma_pow2_adds(e_abs as nat, (1074 - e_abs) as nat);
            lemma_pow2_pos((1074 - e_abs) as nat);
            lemma_pow2_pos(e_abs as nat);
            let q = pow2((1074 - e_abs) as nat);
            let pe = pow2(e_abs as nat);
            assert(m as int * q * pow10(k as nat) == (m as int * pow10(k as nat)) * q)
                by (nonlinear_arith);
            assert(a as int * (pe * q) == (a as int * pe) * q) by (nonlinear_arith);
        }
        let lhs_small = match mul_pow10_u128(m as u128, k) {
            Some(w) => w,
            None => {
                proof {
                    assert(false);
                }
                0
            },
        };
        let rhs_big = match mul_pow2_u128(a, e_abs) {
            Some(v) => v,
            None => {
                proof {
                    let q = pow2((1074 - e_abs) as nat);
                    assert(a as int * pow2(e_abs as nat) > u128::MAX ==> (a as int * pow2(
                        e_abs as nat,
                    )) * q > (lhs_small as int) * q) by (nonlinear_arith)
                        requires
                            q >= 1,
                            lhs_small as int <= u128::MAX,
                    ;
                }
                return MagCmp::Below;
            },
        };
        proof {
            lemma_cmp_scale(lhs_small as int, rhs_big as int, pow2((1074 - e_abs) as nat) as int);
        }
        if lhs_small < rhs_big {
            MagCmp::Below
        } else if lhs_small == rhs_big {
            MagCmp::Same
        } else {
            MagCmp::Above
        }
    }
}

/// Compare `x * 2^p` against `y * 2^q` exactly, factoring out the shared
/// power of two.
fn pow2_cmp(x: u128, p: u32, y: u128, q: u32) -> (r: MagCmp)
    requires
        x >= 1,
        y >= 1,
    ensures
        ({
            let lhs = x as int * pow2(p as nat) as int;
            let rhs = y as int * pow2(q as nat) as int;
            match r {
                MagCmp::Below => lhs < rhs,
                MagCmp::Same => lhs == rhs,
                MagCmp::Above => lhs > rhs,
            }
        }),
{
    if p >= q {
        proof {
            lemma_pow2_adds((p - q) as nat, q as nat);
            lemma_pow2_pos(q as nat);
            assert(x as int * (pow2((p - q) as nat) * pow2(q as nat)) == (x as int * pow2(
                (p - q) as nat,
            )) * pow2(q as nat)) by (nonlinear_arith);
        }
        match mul_pow2_u128(x, p - q) {
            Some(xs) => {
                proof {
                    lemma_cmp_scale(xs as int, y as int, pow2(q as nat) as int);
                }
                if xs < y {
                    MagCmp::Below
                } else if xs == y {
                    MagCmp::Same
                } else {
                    MagCmp::Above
                }
            },
            None => {
                proof {
                    assert(x as int * pow2((p - q) as nat) > u128::MAX ==> (x as int * pow2(
                        (p - q) as nat,
                    )) * pow2(q as nat) > (y as int) * pow2(q as nat)) by (nonlinear_arith)
                        requires
                            pow2(q as nat) >= 1,
                            y as int <= u128::MAX,
                    ;
                }
                MagCmp::Above
            },
        }
    } else {
        proof {
            lemma_pow2_adds((q - p) as nat, p as nat);
            lemma_pow2_pos(p as nat);
            assert(y as int * (pow2((q - p) as nat) * pow2(p as nat)) == (y as int * pow2(
                (q - p) as nat,
            )) * pow2(p as nat)) by (nonlinear_arith);
        }
        match mul_pow2_u128(y, q - p) {
            Some(ys) => {
                proof {
                    lemma_cmp_scale(x as int, ys as int, pow2(p as nat) as int);
                }
                if x < ys {
                    MagCmp::Below
                } else if x == ys {
                    MagCmp::Same
                } else {
                    MagCmp::Above
                }
            },
            None => {
                proof {
                    assert(y as int * pow2((q - p) as nat) > u128::MAX ==> (y as int * pow2(
                        (q - p) as nat,
                    )) * pow2(p as nat) > (x as int) * pow2(p as nat)) by (nonlinear_arith)
                        requires
                            pow2(p as nat) >= 1,
                            x as int <= u128::MAX,
                    ;
                }
                MagCmp::Below
            },
        }
    }
}

/// Decide whether the normal double with significand `mant` and exponent
/// field `expf` is the nearest double of `a / 10^k`, ties to even: the
/// rational is compared against the two midpoints of the double's
/// rounding interval.
fn is_rounded_exec(mant: u64, expf: u32, k: u32, a: u128) -> (r: bool)
    requires
        0x10000000000000 <= mant < 0x20000000000000,
        1 <= expf <= 2046,
        k <= 20,
        a >= 1,
    ensures
        ({
            let e: int = expf - 1075;
            let m = mant as nat;
            r == ({
                ||| (rnd_lo(m, e, k as nat) < lit_big(a as nat) && lit_big(a as nat) < rnd_hi(
                    m,
                    e,
                    k as nat,
                ))
                ||| (lit_big(a as nat) == rnd_hi(m, e, k as nat) && m % 2 == 0)
                ||| (lit_big(a as nat) == rnd_lo(m, e, k as nat) && m % 2 == 0)
            })
        }),
{
    let ghost e: int = expf - 1075;
    proof {
        lemma_pow10_values();
        lemma2_to64();
        lemma2_to64_rest();
        lemma_pow10_mono(k as nat, 20);
        lemma_pow10_pos(k as nat);
    }
    // the upper midpoint, scaled: (2 mant + 1) * 10^k * 2^(e + 1075)
    let y_hi = match mul_pow10_u128((2 * mant + 1) as u128, k) {
        Some(v) => v,
        None => {
            proof {
                assert((2 * mant + 1) as int * pow10(k as nat) <= u128::MAX) by (nonlinear_arith)
                    requires
                        (2 * mant + 1) as int <= 0x40000000000001,
                        pow10(k as nat) <= pow10(20),
                        pow10(20) == 0x56bc75e2d63100000,
                        pow10(k as nat) >= 1,
                ;
                assert(false);
            }
            0
        },
    };
    proof {
        assert(y_hi >= 1) by (nonlinear_arith)
            requires
                y_hi as int == (2 * mant + 1) as int * pow10(k as nat),
                (2 * mant + 1) as int >= 1,
                pow10(k as nat) >= 1,
        ;
    }
    // e + 1075 equals the exponent field itself
    let hi_c = pow2_cmp(a, 1076, y_hi, expf);
    proof {
        assert(y_hi as int * pow2(expf as nat) as int == rnd_hi(mant as nat, e, k as nat))
            by (nonlinear_arith)
            requires
                y_hi as int == (2 * mant + 1) as int * pow10(k as nat),
                (e + 1075) as nat == expf as nat,
                pow2(expf as nat) >= 0,
        ;
        assert(a as int * pow2(1076) as int == lit_big(a as nat));
    }
    // the lower midpoint, scaled likewise
    let (y_lo_base, q_lo): (u64, u32) = if mant == 0x10000000000000 {
        (4 * mant - 1, expf - 1)
    } else {
        (2 * mant - 1, expf)
    };
    let y_lo = match mul_pow10_u128(y_lo_base as u128, k) {
        Some(v) => v,
        None => {
            proof {
                assert(y_lo_base as int * pow10(k as nat) <= u128::MAX) by (nonlinear_arith)
                    requires
                        y_lo_base as int <= 0x80000000000000,
                        pow10(k as nat) <= pow10(20),
                        pow10(20) == 0x56bc75e2d63100000,
                        pow10(k as nat) >= 1,
                ;
                assert(false);
            }
            0
        },
    };
    proof {
        assert(y_lo >= 1) by (nonlinear_arith)
            requires
                y_lo as int == y_lo_base as int * pow10(k as nat),
                y_lo_base as int >= 1,
                pow10(k as nat) >= 1,
        ;
    }
    let lo_c = pow2_cmp(a, 1076, y_lo, q_lo);
    proof {
        if mant == 0x10000000000000 {
            assert(y_lo as int * pow2(q_lo as nat) as int == rnd_lo(mant as nat, e, k as nat))
                by (nonlinear_arith)
                requires
                    y_lo as int == (4 * mant - 1) as int * pow10(k as nat),
                    (e + 1074) as nat == q_lo as nat,
                    mant == 0x10000000000000,
                    pow2(q_lo as nat) >= 0,
            ;
        } else {
            assert(y_lo as int * pow2(q_lo as nat) as int == rnd_lo(mant as nat, e, k as nat))
                by (nonlinear_arith)
                requires
                    y_lo as int == (2 * mant - 1) as int * pow10(k as nat),
                    (e + 1075) as nat == q_lo as nat,
                    mant != 0x10000000000000,
                    pow2(q_lo as nat) >= 0,
            ;
        }
    }
    let even = mant % 2 == 0;
    (matches!(lo_c, MagCmp::Above) && matches!(hi_c, MagCmp::Below)) || (matches!(
        hi_c,
        MagCmp::Same,
    ) && even) || (matches!(lo_c, MagCmp::Same) && even)
}

/// The decimal parser only admits bounded literals: at most 20 fraction
/// digits and a value below `10^25`.
proof fn lemma_parse_dec_bounds(s: Seq<char>)
    ensures
        parse_dec_spec(s) matches Some((neg, a, k)) ==> k <= 20 && a < pow10(25),
{
    if parse_dec_spec(s) is Some {
        let t = if s.len() > 0 && (s[0] == '-' || s[0] == '+') {
            s.drop_first()
        } else {
            s
        };
        let i = index_of(t, '.');
        let d1 = t.take(i);
        let d2 = if i < t.len() {
            t.skip(i + 1)
        } else {
            Seq::empty()
        };
        lemma_digits_val_bound(d1 + d2);
        lemma_pow10_mono((d1 + d2).len(), 25);
    }
}

/// Parse `v` as an exact decimal rational `(neg, a, k)` standing for
/// `(-1)^neg * a / 10^k`.
fn parse_dec(v: &Vec<char>) -> (r: Option<(bool, u128, u32)>)
    ensures
        match r {
            Some((neg, a, k)) => parse_dec_spec(v@) == Some((neg, a as nat, k as nat)),
            None => parse_dec_spec(v@) is None,
        },
{
    let n = v.len();
    let mut start: usize = 0;
    let mut neg = false;
    if n > 0 && (v[0] == '-' || v[0] == '+') {
        neg = v[0] == '-';
        start = 1;
    }
    let ghost t = if start == 1 {
        v@.drop_first()
    } else {
        v@
    };
    proof {
        assert(t =~= v@.subrange(start as int, n as int));
    }
    // find the decimal point and check every other character is a digit
    let mut dot: usize = n;
    let mut digit_count: usize = 0;
    let mut i: usize = start;
    while i < n
        invariant
            start <= i <= n,
            start == 0 || start == 1,
            n == v@.len(),
            start == 1 <==> (n > 0 && (v@[0] == '-' || v@[0] == '+')),
            neg <==> (n > 0 && v@[0] == '-'),
            t == v@.subrange(start as int, n as int),
            dot == n || (start <= dot < i && v@[dot as int] == '.'),
            dot == n ==> forall|j: int| start <= j < i ==> v@[j] != '.',
            forall|j: int|
                start <= j < i && j != dot ==> is_digit(#[trigger] v@[j]),
            digit_count == if dot == n {
                i - start
            } else {
                i - start - 1
            },
        decreases n - i,
    {
        let c = v[i];
        if c == '.' {
            if dot != n {
                // a second point: not a plain decimal
                proof {
                    lemma_parse_dec_bad_digit(v@, t, start as int, i as int, dot as int);
                }
                return None;
            }
            dot = i;
        } else if c < '0' || c > '9' {
            proof {
                lemma_parse_dec_bad_char(v@, t, start as int, i as int);
            }
            return None;
        } else {
            digit_count = digit_count + 1;
        }
        i = i + 1;
    }
    if digit_count == 0 {
        proof {
            lemma_parse_dec_empty(v@, t, start as int, dot as int);
        }
        return None;
    }
    let frac_len: usize = if dot == n {
        0
    } else {
        n - dot - 1
    };
    if digit_count > 25 || frac_len > 20 {
        proof {
            lemma_parse_dec_shape(v@, t, start as int, dot as int);
        }
        return None;
    }
    // accumulate the digits
    let mut acc: u128 = 0;
    let mut j: usize = start;
    let ghost d1 = t.take(index_of(t, '.'));
    let ghost d2 = if index_of(t, '.') < t.len() {
        t.skip(index_of(t, '.') + 1)
    } else {
        Seq::empty()
    };
    proof {
        lemma_parse_dec_shape(v@, t, start as int, dot as int);
        lemma_pow10_values();
        lemma_digits_val_bound(d1 + d2);
    }
    while j < n
        invariant
            start <= j <= n,
            n == v@.len(),
            start == 0 || start == 1,
            t == v@.subrange(start as int, n as int),
            dot == n || (start <= dot < n && v@[dot as int] == '.'),
            dot == n ==> forall|m: int| start <= m < n ==> v@[m] != '.',
            forall|m: int|
                start <= m < n && m != dot ==> is_digit(#[trigger] v@[m]),
            d1 == t.take(index_of(t, '.')),
            d2 == (if index_of(t, '.') < t.len() {
                t.skip(index_of(t, '.') + 1)
            } else {
                Seq::empty()
            }),
            index_of(t, '.') == if dot == n {
                t.len() as int
            } else {
                dot - start
            },
            all_digits(d1 + d2),
            (d1 + d2).len() <= 25,
            acc == digits_val(digits_before(d1 + d2, j as int, start as int, dot as int)),
            acc < pow10(25),
        decreases n - j,
    {
        if j == dot {
            j = j + 1;
            continue;
        }
        let c = v[j];
        let d = ((c as u32) - 48) as u128;
        proof {
            lemma_pow10_values();
            lemma_digit_step(v@, t, start as int, dot as int, j as int);
            let before = digits_before(d1 + d2, j as int, start as int, dot as int);
            let after = digits_before(d1 + d2, j + 1, start as int, dot as int);
            assert(all_digits(after)) by {
                assert(forall|m: int|
                    0 <= m < after.len() ==> #[trigger] after[m] == (d1 + d2)[m]);
            }
            lemma_digits_val_bound(after);
            lemma_digits_before_len(d1 + d2, j + 1, start as int, dot as int);
            lemma_pow10_mono(after.len(), 25);
        }
        acc = acc * 10 + d;
        j = j + 1;
    }
    proof {
        assert(digits_before(d1 + d2, n as int, start as int, dot as int) =~= d1 + d2);
    }
    Some((neg, acc, frac_len as u32))
}

/// The digits of the literal read before position `j` of the original
/// vector: all of `ds` up to the digit position corresponding to `j`.
pub open spec fn digits_before(ds: Seq<char>, j: int, start: int, dot: int) -> Seq<char> {
    let c = if j <= dot {
        j - start
    } else {
        j - start - 1
    };
    let cc = if c < 0 {
        0
    } else if c > ds.len() {
        ds.len() as int
    } else {
        c
    };
    ds.take(cc)
}

/// Stepping over the digit at `j` extends the accumulated digit string by
/// exactly that digit.
proof fn lemma_digit_step(v: Seq<char>, t: Seq<char>, start: int, dot: int, j: int)
    requires
        0 <= start <= j < v.len(),
        t == v.subrange(start, v.len() as int),
        j != dot,
        start <= dot <= v.len(),
        dot < v.len() ==> v[dot] == '.',
        dot == v.len() ==> forall|m: int| start <= m < v.len() ==> v[m] != '.',
        forall|m: int| start <= m < v.len() && m != dot ==> is_digit(#[trigger] v[m]),
        index_of(t, '.') == (if dot == v.len() {
            t.len() as int
        } else {
            dot - start
        }),
    ensures
        ({
            let ds = t.take(index_of(t, '.')) + (if index_of(t, '.') < t.len() {
                t.skip(index_of(t, '.') + 1)
            } else {
                Seq::empty()
            });
            let before = digits_before(ds, j, start, dot);
            let after = digits_before(ds, j + 1, start, dot);
            &&& after == before.push(v[j])
            &&& after.drop_last() == before
            &&& after.last() == v[j]
        }),
{
    let i = index_of(t, '.');
    let d1 = t.take(i);
    let d2 = if i < t.len() {
        t.skip(i + 1)
    } else {
        Seq::empty()
    };
    let ds = d1 + d2;
    if j < dot {
        assert(digits_before(ds, j + 1, start, dot) =~= digits_before(ds, j, start, dot).push(
            v[j],
        ));
    } else {
        assert(digits_before(ds, j + 1, start, dot) =~= digits_before(ds, j, start, dot).push(
            v[j],
        ));
    }
    assert(digits_before(ds, j + 1, start, dot).drop_last() =~= digits_before(
        ds,
        j,
        start,
        dot,
    ));
}

/// The length of the accumulated digit string is bounded by the length of
/// the whole digit string.
proof fn lemma_digits_before_len(ds: Seq<char>, j: int, start: int, dot: int)
    ensures
        digits_before(ds, j, start, dot).len() <= ds.len(),
{
}

/// The suffix past the sign equals the form the specification computes.
proof fn proof_t_forms(v: Seq<char>, t: Seq<char>, start: int)
    requires
        0 <= start <= v.len(),
        t == v.subrange(start, v.len() as int),
        start == 0 || start == 1,
        start == 1 <==> (v.len() > 0 && (v[0] == '-' || v[0] == '+')),
    ensures
        t == (if v.len() > 0 && (v[0] == '-' || v[0] == '+') {
            v.drop_first()
        } else {
            v
        }),
{
    if start == 1 {
        assert(t =~= v.drop_first());
    } else {
        assert(t =~= v);
    }
}

/// When a non-digit, non-point character occurs, the literal is not a
/// plain decimal.
proof fn lemma_parse_dec_bad_char(v: Seq<char>, t: Seq<char>, start: int, i: int)
    requires
        0 <= start <= i < v.len(),
        t == v.subrange(start, v.len() as int),
        !is_digit(v[i]),
        v[i] != '.',
        start == 0 || start == 1,
        start == 1 <==> (v.len() > 0 && (v[0] == '-' || v[0] == '+')),
    ensures
        parse_dec_spec(v) is None,
{
    proof_t_forms(v, t, start);
    let i2 = index_of(t, '.');
    lemma_index_of_range(t, '.');
    let d1 = t.take(i2);
    let d2 = if i2 < t.len() {
        t.skip(i2 + 1)
    } else {
        Seq::empty()
    };
    let p = i - start;
    assert(t[p] == v[i]);
    if p < i2 {
        assert(d1[p] == t[p]);
        assert(!all_digits(d1));
    } else if p == i2 {
        assert(t[i2] == '.');
        assert(false);
    } else {
        assert(d2[p - i2 - 1] == t[p]);
        assert(!all_digits(d2));
    }
}

/// When two points occur, the literal is not a plain decimal.
proof fn lemma_parse_dec_bad_digit(v: Seq<char>, t: Seq<char>, start: int, i: int, dot: int)
    requires
        0 <= start <= dot < i < v.len(),
        t == v.subrange(start, v.len() as int),
        v[i] == '.',
        v[dot] == '.',
        forall|j: int| start <= j < i && j != dot ==> is_digit(#[trigger] v[j]),
        start == 0 || start == 1,
        start == 1 <==> (v.len() > 0 && (v[0] == '-' || v[0] == '+')),
    ensures
        parse_dec_spec(v) is None,
{
    proof_t_forms(v, t, start);
    let i2 = index_of(t, '.');
    lemma_index_of_range(t, '.');
    assert(t[dot - start] == '.');
    assert(i2 <= dot - start);
    let d2 = if i2 < t.len() {
        t.skip(i2 + 1)
    } else {
        Seq::empty()
    };
    assert(i2 < t.len());
    // the second point lies inside the fraction digits
    assert(d2[i - start - i2 - 1] == t[i - start]);
    assert(t[i - start] == v[i]);
    assert(!all_digits(d2));
}

/// When no digit occurs, the literal is not a plain decimal.
proof fn lemma_parse_dec_empty(v: Seq<char>, t: Seq<char>, start: int, dot: int)
    requires
        0 <= start <= v.len(),
        t == v.subrange(start, v.len() as int),
        start <= dot <= v.len(),
        dot < v.len() ==> v[dot] == '.',
        dot == v.len() ==> forall|m: int| start <= m < v.len() ==> v[m] != '.',
        forall|m: int| start <= m < v.len() && m != dot ==> is_digit(#[trigger] v[m]),
        // no digits at all
        (if dot == v.len() {
            v.len() - start
        } else {
            v.len() - start - 1
        }) == 0,
        start == 0 || start == 1,
        start == 1 <==> (v.len() > 0 && (v[0] == '-' || v[0] == '+')),
    ensures
        parse_dec_spec(v) is None,
{
    proof_t_forms(v, t, start);
    lemma_parse_dec_shape(v, t, start, dot);
}

/// Relates the exec scan of the literal to the specification's split at
/// the first point: the digit strings have the expected lengths.
proof fn lemma_parse_dec_shape(v: Seq<char>, t: Seq<char>, start: int, dot: int)
    requires
        0 <= start <= v.len(),
        t == v.subrange(start, v.len() as int),
        start <= dot <= v.len(),
        dot < v.len() ==> v[dot] == '.',
        dot == v.len() ==> forall|m: int| start <= m < v.len() ==> v[m] != '.',
        forall|m: int| start <= m < v.len() && m != dot ==> is_digit(#[trigger] v[m]),
    ensures
        index_of(t, '.') == (if dot == v.len() {
            t.len() as int
        } else {
            dot - start
        }),
        ({
            let i2 = index_of(t, '.');
            let d1 = t.take(i2);
            let d2 = if i2 < t.len() {
                t.skip(i2 + 1)
            } else {
                Seq::empty()
            };
            &&& all_digits(d1)
            &&& all_digits(d2)
            &&& d1.len() + d2.len() == (if dot == v.len() {
                v.len() - start
            } else {
                v.len() - start - 1
            })
        }),
{
    if dot == v.len() {
        assert forall|j: int| 0 <= j < t.len() implies t[j] != '.' by {
            assert(t[j] == v[start + j]);
        }
        crate::text::lemma_index_of_is(t, '.', t.len() as int);
    } else {
        assert forall|j: int| 0 <= j < dot - start implies t[j] != '.' by {
            assert(t[j] == v[start + j]);
            assert(is_digit(v[start + j]));
        }
        assert(t[dot - start] == v[dot]);
        crate::text::lemma_index_of_is(t, '.', dot - start);
    }
    let i2 = index_of(t, '.');
    let d1 = t.take(i2);
    let d2 = if i2 < t.len() {
        t.skip(i2 + 1)
    } else {
        Seq::empty()
    };
    assert forall|j: int| 0 <= j < d1.len() implies is_digit(#[trigger] d1[j]) by {
        assert(d1[j] == v[start + j]);
    }
    assert forall|j: int| 0 <= j < d2.len() implies is_digit(#[trigger] d2[j]) by {
        assert(d2[j] == t[i2 + 1 + j]);
        assert(t[i2 + 1 + j] == v[start + i2 + 1 + j]);
    }
}

/// Whether the float `bits` equals the decimal literal `lit`.  `None`
/// when the literal is not a plain decimal this library decides.
pub fn float_eq(bits: u64, lit: &Vec<char>) -> (r: Option<bool>)
    ensures
        r == float_eq_lit(bits, lit@),
{
    let (neg, a, k) = match parse_dec(lit) {
        Some(v) => v,
        None => {
            return None;
        },
    };
    proof {
        lemma_parse_dec_bounds(lit@);
    }
    let sign = bits / 0x8000000000000000 == 1;
    let expf = (bits / 0x10000000000000) % 0x800;
    let frac = bits % 0x10000000000000;
    if expf == 0x7ff {
        return Some(false);
    }
    let mant: u64 = if expf == 0 {
        frac
    } else {
        frac + 0x10000000000000
    };
    if a == 0 {
        return Some(mant == 0);
    }
    if mant < 0x10000000000000 {
        return Some(false);
    }
    if sign != neg {
        return Some(false);
    }
    let r = is_rounded_exec(mant, expf as u32, k, a);
    Some(r)
}

/// Whether the float `bits` is at least the decimal literal `lit`.
/// `None` when the literal is not a plain decimal this library decides.
pub fn float_ge(bits: u64, lit: &Vec<char>) -> (r: Option<bool>)
    ensures
        r == float_ge_lit(bits, lit@),
{
    let (neg, a, k) = match parse_dec(lit) {
        Some(v) => v,
        None => {
            return None;
        },
    };
    proof {
        lemma_parse_dec_bounds(lit@);
    }
    let sign = bits / 0x8000000000000000 == 1;
    let expf = (bits / 0x10000000000000) % 0x800;
    let frac = bits % 0x10000000000000;
    if expf == 0x7ff {
        return Some(frac == 0 && !sign);
    }
    let mant: u64 = if expf == 0 {
        frac
    } else {
        frac + 0x10000000000000
    };
    // is the stored value the literal's rounded double?
    let rounded: bool = if a == 0 {
        mant == 0
    } else if mant < 0x10000000000000 {
        false
    } else if sign != neg {
        false
    } else {
        is_rounded_exec(mant, expf as u32, k, a)
    };
    if rounded {
        return Some(true);
    }
    // otherwise the exact rational comparison decides the order
    if mant == 0 {
        return Some(neg && a != 0);
    }
    if a == 0 {
        return Some(!sign);
    }
    if sign != neg {
        return Some(!sign);
    }
    let (e_neg, e_abs): (bool, u32) = if expf == 0 {
        (true, 1074)
    } else if expf >= 1075 {
        (false, (expf - 1075) as u32)
    } else {
        (true, (1075 - expf) as u32)
    };
    proof {
        lemma_pow10_values();
        lemma2_to64();
        lemma2_to64_rest();
        lemma_pow10_mono(k as nat, 20);
        lemma_pow10_pos(k as nat);
        assert(mant as int * pow10(k as nat) <= u128::MAX) by (nonlinear_arith)
            requires
                mant as int <= 0x20000000000000,
                pow10(k as nat) <= pow10(20),
                pow10(20) == 0x56bc75e2d63100000,
                pow10(k as nat) >= 1,
        ;
    }
    let c = mag_cmp(mant, e_neg, e_abs, k, a);
    if !sign {
        Some(matches!(c, MagCmp::Above))
    } else {
        Some(matches!(c, MagCmp::Below))
    }
}

/// `10^j <= 10^k` when `j <= k`.
pub proof fn lemma_pow10_mono(j: nat, k: nat)
    requires
        j <= k,
    ensures
        pow10(j) <= pow10(k),
    decreases k,
{
    if j < k {
        lemma_pow10_mono(j, (k - 1) as nat);
        lemma_pow10_pos((k - 1) as nat);
    }
}

} // verus!
