//! Exact conversions between machine integers and the bit pattern of a
//! 64-bit binary floating-point value, in integer arithmetic alone.  The
//! conversion engine uses these to coerce between the host's float values
//! (carried as raw bit patterns) and the wire's numeric types without ever
//! losing precision: a conversion either is exact or is refused.

use vstd::prelude::*;
use vstd::arithmetic::power2::pow2;
use vstd::arithmetic::power2::lemma_pow2_adds;
use vstd::arithmetic::power2::lemma_pow2_strictly_increases;
use vstd::arithmetic::power2::lemma2_to64;

verus! {

/// The number of binary digits of `m`.
pub open spec fn bit_len(m: nat) -> nat
    decreases m,
{
    if m == 0 {
        0
    } else {
        (1 + bit_len(m / 2)) as nat
    }
}

/// The bit pattern of the floating-point value that holds `v` exactly:
/// sign bit, eleven biased exponent bits, fifty-two mantissa bits.  `None`
/// where no such value exists, and also where the magnitude needs more
/// than 64 binary digits (no machine integer handed in here does).
pub open spec fn int_to_double_bits(v: int) -> Option<u64> {
    if v == 0 {
        Some(0u64)
    } else {
        let m = (if v < 0 { -v } else { v }) as nat;
        let sign: int = if v < 0 { pow2(63) as int } else { 0 };
        let k = (bit_len(m) - 1) as nat;
        if k <= 52 {
            Some((sign + (1023 + k) * pow2(52) + (m * pow2((52 - k) as nat)
                - pow2(52))) as u64)
        } else if k <= 63 && m % pow2((k - 52) as nat) == 0 {
            Some((sign + (1023 + k) * pow2(52) + (m / pow2((k - 52) as nat)
                - pow2(52))) as u64)
        } else {
            None
        }
    }
}

/// The sign and integer magnitude of a floating-point bit pattern whose
/// value is an integer of at most 64 binary digits; `None` for every
/// other pattern (not finite, not integral, or too wide).
pub open spec fn double_bits_magnitude(bits: u64) -> Option<(bool, u64)> {
    let sign = bits / (pow2(63) as u64) == 1;
    let expf = (bits / (pow2(52) as u64)) % (pow2(11) as u64);
    let m = bits % (pow2(52) as u64);
    if expf == 2047 {
        None
    } else if expf == 0 {
        if m == 0 {
            Some((sign, 0u64))
        } else {
            None
        }
    } else if expf < 1023 {
        None
    } else if expf > 1023 + 63 {
        None
    } else {
        let e = expf - 1023;
        if e <= 52 {
            if m % (pow2((52 - e) as nat) as u64) == 0 {
                Some((sign, ((pow2(52) + m) as int / pow2((52 - e) as nat) as int) as u64))
            } else {
                None
            }
        } else {
            Some((sign, ((pow2(52) + m) * pow2((e - 52) as nat)) as u64))
        }
    }
}

/// The integer a floating-point bit pattern denotes, where it denotes one
/// of at most 64 binary digits.
pub open spec fn double_bits_int(bits: u64) -> Option<int> {
    match double_bits_magnitude(bits) {
        None => None,
        Some((sign, mag)) => Some(if sign { -(mag as int) } else { mag as int }),
    }
}

/// `m` lies between its bounding powers of two.
proof fn lemma_bit_len_range(m: nat)
    requires
        m >= 1,
    ensures
        pow2((bit_len(m) - 1) as nat) <= m < pow2(bit_len(m)),
    decreases m,
{
    vstd::arithmetic::power2::lemma_pow2_unfold(bit_len(m));
    if m == 1 {
        assert(bit_len(0nat) == 0);
        assert(bit_len(1nat) == 1);
        lemma2_to64();
    } else {
        lemma_bit_len_range(m / 2);
        let blh = bit_len(m / 2);
        assert(bit_len(m) == 1 + blh);
        assert(pow2(bit_len(m)) == 2 * pow2(blh)) by {
            lemma_pow2_adds(1, blh);
            lemma2_to64();
        }
        assert(pow2((bit_len(m) - 1) as nat) == pow2(blh));
        if blh >= 1 {
            assert(pow2(blh) == 2 * pow2((blh - 1) as nat)) by {
                lemma_pow2_adds(1, (blh - 1) as nat);
                lemma2_to64();
            }
        }
        assert(m < 2 * pow2(blh));
        assert(pow2(blh) <= m);
    }
}

/// A value below a power of two has no more digits than its exponent.
proof fn lemma_bit_len_le(m: nat, n: nat)
    requires
        m < pow2(n),
    ensures
        bit_len(m) <= n,
    decreases m,
{
    if m >= 1 {
        vstd::arithmetic::power2::lemma_pow2_pos(n);
        assert(n >= 1) by {
            if n == 0 {
                lemma2_to64();
            }
        }
        assert(pow2(n) == 2 * pow2((n - 1) as nat)) by {
            lemma_pow2_adds(1, (n - 1) as nat);
            lemma2_to64();
        }
        lemma_bit_len_le(m / 2, (n - 1) as nat);
    }
}

/// Two raised to `k`, as a machine word.
#[verifier::loop_isolation(false)]
pub fn pow2_u64(k: u64) -> (r: u64)
    requires
        k <= 63,
    ensures
        r as nat == pow2(k as nat),
        r >= 1,
{
    proof {
        lemma2_to64();
    }
    let mut p: u64 = 1;
    let mut j: u64 = 0;
    while j < k
        invariant
            j <= k <= 63,
            p as nat == pow2(j as nat),
        decreases k - j,
    {
        proof {
            lemma_pow2_adds(j as nat, 1);
            lemma2_to64();
            vstd::arithmetic::power2::lemma2_to64_rest();
            if j + 1 < 63 {
                lemma_pow2_strictly_increases((j + 1) as nat, 63);
            }
            assert(pow2((j + 1) as nat) == pow2(j as nat) * 2);
            assert(pow2((j + 1) as nat) <= pow2(63));
        }
        p = p * 2;
        j = j + 1;
    }
    proof {
        vstd::arithmetic::power2::lemma_pow2_pos(k as nat);
    }
    p
}

/// The number of binary digits, as a machine word.
#[verifier::loop_isolation(false)]
fn bit_len_u64(m: u64) -> (r: u64)
    ensures
        r as nat == bit_len(m as nat),
        r <= 64,
{
    proof {
        lemma2_to64();
        vstd::arithmetic::power2::lemma2_to64_rest();
        lemma_bit_len_le(m as nat, 64);
    }
    let mut x: u64 = m;
    let mut c: u64 = 0;
    while x > 0
        invariant
            bit_len(m as nat) == bit_len(x as nat) + c,
            c <= 64,
        decreases x,
    {
        proof {
            assert(bit_len(x as nat) == 1 + bit_len((x / 2) as nat));
            assert(bit_len(x as nat) >= 1);
        }
        x = x / 2;
        c = c + 1;
    }
    c
}

/// The exact bit pattern for a signed machine integer, `None` where the
/// value has too many significant digits to be held exactly.
pub fn i64_to_double_bits(v: i64) -> (r: Option<u64>)
    ensures
        r == int_to_double_bits(v as int),
{
    if v == 0 {
        return Some(0);
    }
    let neg = v < 0;
    let mag: u64 = if neg {
        (-(v as i128)) as u64
    } else {
        v as u64
    };
    proof {
        assert(mag as int == if v < 0 { -(v as int) } else { v as int });
    }
    mag_to_double_bits(neg, mag)
}

/// A value of more than 64 binary digits has no bit pattern here.
pub proof fn lemma_int_to_double_bits_huge(v: int)
    requires
        v > u64::MAX || v < -(u64::MAX as int),
    ensures
        int_to_double_bits(v) is None,
{
    let m = (if v < 0 { -v } else { v }) as nat;
    lemma_bit_len_range(m);
    lemma2_to64();
    vstd::arithmetic::power2::lemma2_to64_rest();
    let k = (bit_len(m) - 1) as nat;
    if k <= 63 {
        if k + 1 < 64 {
            lemma_pow2_strictly_increases((k + 1) as nat, 64);
        }
        assert(pow2((k + 1) as nat) <= pow2(64));
        assert(m < pow2(64));
        assert(false);
    }
}

/// The three fields of a composed bit pattern.
proof fn lemma_bits_fields(s: int, e: int, t: int)
    requires
        s == 0 || s == 1,
        0 <= e < 2048,
        0 <= t < pow2(52),
    ensures
        (s * pow2(63) + e * pow2(52) + t) / (pow2(63) as int) == s,
        ((s * pow2(63) + e * pow2(52) + t) / (pow2(52) as int)) % (pow2(11) as int) == e,
        (s * pow2(63) + e * pow2(52) + t) % (pow2(52) as int) == t,
        s * pow2(63) + e * pow2(52) + t < pow2(64),
{
    lemma2_to64();
    vstd::arithmetic::power2::lemma2_to64_rest();
    let b = s * pow2(63) + e * pow2(52) + t;
    assert(e * pow2(52) + t < pow2(63));
    assert(s * pow2(63) == pow2(63) * s) by (nonlinear_arith);
    vstd::arithmetic::div_mod::lemma_div_multiples_vanish_fancy(s,
        e * pow2(52) + t, pow2(63) as int);
    assert(b / (pow2(63) as int) == s);
    let se = s * pow2(11) + e;
    assert(b == se * pow2(52) + t) by (nonlinear_arith)
        requires
            b == s * pow2(63) + e * pow2(52) + t,
            se == s * pow2(11) + e,
            pow2(63) == pow2(11) * pow2(52),
    ;
    assert(pow2(63) == pow2(11) * pow2(52)) by {
        lemma_pow2_adds(11, 52);
    }
    assert(se * pow2(52) == pow2(52) * se) by (nonlinear_arith);
    vstd::arithmetic::div_mod::lemma_div_multiples_vanish_fancy(se, t,
        pow2(52) as int);
    assert(b / (pow2(52) as int) == se);
    assert(se % (pow2(11) as int) == e) by {
        assert(se == (pow2(11) as int) * s + e) by (nonlinear_arith)
            requires
                se == s * pow2(11) + e,
        ;
        vstd::arithmetic::div_mod::lemma_mod_multiples_vanish(s, e, pow2(11) as int);
        vstd::arithmetic::div_mod::lemma_small_mod(e as nat, pow2(11));
    }
    assert(b % (pow2(52) as int) == t) by {
        assert(b == (pow2(52) as int) * se + t) by (nonlinear_arith)
            requires
                b == se * pow2(52) + t,
        ;
        vstd::arithmetic::div_mod::lemma_mod_multiples_vanish(se, t, pow2(52) as int);
        vstd::arithmetic::div_mod::lemma_small_mod(t as nat, pow2(52));
    }
}

/// Reading back the fields of an exactly-converted integer gives the
/// integer: the two conversions invert each other.
pub proof fn lemma_double_bits_roundtrip(v: int)
    requires
        int_to_double_bits(v) is Some,
    ensures
        double_bits_int(int_to_double_bits(v)->Some_0) == Some(v),
{
    lemma2_to64();
    vstd::arithmetic::power2::lemma2_to64_rest();
    let bits = int_to_double_bits(v)->Some_0;
    if v == 0 {
        assert(bits == 0);
        assert(0u64 % (pow2(52) as u64) == 0) by {
            vstd::arithmetic::div_mod::lemma_small_mod(0, pow2(52));
        }
        assert(0u64 / (pow2(63) as u64) == 0) by {
            vstd::arithmetic::div_mod::lemma_div_of0(pow2(63) as int);
        }
        assert(0u64 / (pow2(52) as u64) == 0) by {
            vstd::arithmetic::div_mod::lemma_div_of0(pow2(52) as int);
        }
        assert(0u64 % (pow2(11) as u64) == 0) by {
            vstd::arithmetic::div_mod::lemma_small_mod(0, pow2(11));
        }
        assert(double_bits_magnitude(0) == Some((false, 0u64)));
    } else {
        let m = (if v < 0 { -v } else { v }) as nat;
        lemma_bit_len_range(m);
        let k = (bit_len(m) - 1) as nat;
        let s: int = if v < 0 { 1 } else { 0 };
        let e: int = 1023 + k as int;
        assert(pow2(k) <= m < pow2((k + 1) as nat));
        if k <= 52 {
            let scaled = m * pow2((52 - k) as nat);
            assert(pow2(k) * pow2((52 - k) as nat) == pow2(52)) by {
                lemma_pow2_adds(k, (52 - k) as nat);
            }
            assert(pow2((k + 1) as nat) * pow2((52 - k) as nat) == pow2(53)) by {
                lemma_pow2_adds((k + 1) as nat, (52 - k) as nat);
            }
            assert(pow2((52 - k) as nat) >= 1) by {
                vstd::arithmetic::power2::lemma_pow2_pos((52 - k) as nat);
            }
            assert(pow2(52) <= scaled) by (nonlinear_arith)
                requires
                    pow2(k) <= m,
                    scaled == m * pow2((52 - k) as nat),
                    pow2(k) * pow2((52 - k) as nat) == pow2(52),
                    pow2((52 - k) as nat) >= 1,
            ;
            assert(scaled < pow2(53)) by (nonlinear_arith)
                requires
                    m < pow2((k + 1) as nat),
                    scaled == m * pow2((52 - k) as nat),
                    pow2((k + 1) as nat) * pow2((52 - k) as nat) == pow2(53),
                    pow2((52 - k) as nat) >= 1,
            ;
            let t: int = scaled - pow2(52);
            lemma_bits_fields(s, e, t);
            assert(bits as int == s * pow2(63) + e * pow2(52) + t);
            let expf = (bits / (pow2(52) as u64)) % (pow2(11) as u64);
            assert(expf == e);
            let mf = bits % (pow2(52) as u64);
            assert(mf == t);
            let fb = (52 - k) as nat;
            assert((pow2(52) + t) % (pow2(fb) as int) == 0) by {
                assert(pow2(52) + t == scaled);
                assert(scaled == (m - pow2(k)) * pow2(fb) + pow2(52))
                    by (nonlinear_arith)
                    requires
                        scaled == m * pow2(fb),
                        pow2(k) * pow2(fb) == pow2(52),
                ;
                assert(t == (m - pow2(k)) * pow2(fb)) by (nonlinear_arith)
                    requires
                        t == scaled - pow2(52),
                        scaled == m * pow2(fb),
                        pow2(k) * pow2(fb) == pow2(52),
                ;
                assert(scaled == m * (pow2(fb) as int)) by (nonlinear_arith)
                    requires
                        scaled == m * pow2(fb),
                ;
                vstd::arithmetic::div_mod::lemma_mod_multiples_basic(m as int,
                    pow2(fb) as int);
            }
            assert((pow2(52) + t) / (pow2(fb) as int) == m) by {
                assert(pow2(52) + t == m * (pow2(fb) as int)) by (nonlinear_arith)
                    requires
                        t == scaled - pow2(52),
                        scaled == m * pow2(fb),
                ;
                vstd::arithmetic::div_mod::lemma_div_by_multiple(m as int,
                    pow2(fb) as int);
            }
            assert(t % (pow2(fb) as int) == 0) by {
                assert(t == (m - pow2(k)) * pow2(fb)) by (nonlinear_arith)
                    requires
                        t == scaled - pow2(52),
                        scaled == m * pow2(fb),
                        pow2(k) * pow2(fb) == pow2(52),
                ;
                assert(t == (pow2(fb) as int) * (m - pow2(k))) by (nonlinear_arith)
                    requires
                        t == (m - pow2(k)) * pow2(fb),
                ;
                vstd::arithmetic::div_mod::lemma_mod_multiples_basic(
                    m - pow2(k), pow2(fb) as int);
            }
            assert(expf - 1023 == k as int);
            assert((52 - (expf - 1023)) as nat == fb);
            assert(bits / (pow2(63) as u64) == (if v < 0 { 1u64 } else { 0u64 }));
            let sm = double_bits_magnitude(bits);
            assert(sm is Some);
            assert(sm->Some_0.0 == (v < 0));
            assert(sm->Some_0.1 == m as u64);
            assert(double_bits_int(bits) == Some(v));
        } else {
            let sh = (k - 52) as nat;
            let q = m / pow2(sh);
            let t: int = q - pow2(52);
            assert(m % pow2(sh) == 0);
            assert(m == pow2(sh) * q) by {
                vstd::arithmetic::div_mod::lemma_fundamental_div_mod(m as int,
                    pow2(sh) as int);
            }
            assert(pow2(sh) * pow2(52) == pow2(k)) by {
                lemma_pow2_adds(sh, 52);
            }
            assert(pow2(sh) * pow2(53) == pow2((k + 1) as nat)) by {
                lemma_pow2_adds(sh, 53);
            }
            assert(pow2(sh) >= 1) by {
                vstd::arithmetic::power2::lemma_pow2_pos(sh);
            }
            assert(pow2(52) <= q < pow2(53)) by (nonlinear_arith)
                requires
                    pow2(k) <= m < pow2((k + 1) as nat),
                    m == pow2(sh) * q,
                    pow2(sh) * pow2(52) == pow2(k),
                    pow2(sh) * pow2(53) == pow2((k + 1) as nat),
                    pow2(sh) >= 1,
            ;
            lemma_bits_fields(s, e, t);
            assert(bits as int == s * pow2(63) + e * pow2(52) + t);
            let expf = (bits / (pow2(52) as u64)) % (pow2(11) as u64);
            assert(expf == e);
            let mf = bits % (pow2(52) as u64);
            assert(mf == t);
            assert((pow2(52) + t) * pow2(sh) == m) by (nonlinear_arith)
                requires
                    t == q - pow2(52),
                    m == pow2(sh) * q,
            ;
            assert(m < pow2(64)) by {
                if k + 1 < 64 {
                    lemma_pow2_strictly_increases((k + 1) as nat, 64);
                }
            }
            assert(expf - 1023 == k as int);
            assert((expf - 1023 - 52) as nat == sh);
            assert(((pow2(52) + mf) * pow2(sh)) as u64 == m as u64);
            assert(bits / (pow2(63) as u64) == (if v < 0 { 1u64 } else { 0u64 }));
            let sm = double_bits_magnitude(bits);
            assert(sm is Some);
            assert(sm->Some_0.0 == (v < 0));
            assert(sm->Some_0.1 == m as u64);
            assert(double_bits_int(bits) == Some(v));
        }
    }
}

/// The exact bit pattern for a sign and magnitude; `None` where the
/// magnitude is not exactly representable.
pub fn mag_to_double_bits(neg: bool, mag: u64) -> (r: Option<u64>)
    requires
        mag >= 1,
    ensures
        ({
            let v: int = if neg { -(mag as int) } else { mag as int };
            r == int_to_double_bits(v)
        }),
{
    let ghost v: int = if neg { -(mag as int) } else { mag as int };
    proof {
        assert((if v < 0 { -v } else { v }) == mag as int);
        lemma2_to64();
        vstd::arithmetic::power2::lemma2_to64_rest();
        lemma_bit_len_range(mag as nat);
        lemma_bit_len_le(mag as nat, 64);
    }
    let bl = bit_len_u64(mag);
    let k: u64 = bl - 1;
    let p52 = pow2_u64(52);
    let sign: u64 = if neg { pow2_u64(63) } else { 0 };
    let ghost kn = k as nat;
    proof {
        assert(pow2(kn) <= mag as nat);
        assert((mag as nat) < pow2((kn + 1) as nat));
    }
    if k <= 52 {
        let shift = pow2_u64(52 - k);
        proof {
            lemma_pow2_adds((kn + 1) as nat, (52 - kn) as nat);
            lemma_pow2_adds(kn, (52 - kn) as nat);
            assert((mag as nat) * pow2((52 - kn) as nat)
                < pow2((kn + 1) as nat) * pow2((52 - kn) as nat))
                by (nonlinear_arith)
                requires
                    (mag as nat) < pow2((kn + 1) as nat),
                    pow2((52 - kn) as nat) >= 1,
            ;
            assert(pow2(kn) * pow2((52 - kn) as nat)
                <= (mag as nat) * pow2((52 - kn) as nat))
                by (nonlinear_arith)
                requires
                    pow2(kn) <= (mag as nat),
                    pow2((52 - kn) as nat) >= 1,
            ;
            assert(pow2((kn + 1) as nat) * pow2((52 - kn) as nat) == pow2(53));
            assert(pow2(kn) * pow2((52 - kn) as nat) == pow2(52));
        }
        let scaled = mag * shift;
        let mant = scaled - p52;
        let expf: u64 = 1023 + k;
        let bits = sign + expf * p52 + mant;
        proof {
            assert(expf * p52 <= 1075 * pow2(52)) by (nonlinear_arith)
                requires
                    expf <= 1075,
                    p52 as nat == pow2(52),
            ;
        }
        Some(bits)
    } else {
        let sh: u64 = k - 52;
        let shift = pow2_u64(sh);
        proof {
            lemma_pow2_adds(52, (kn - 52) as nat);
            lemma_pow2_adds((kn + 1) as nat, 0);
        }
        if mag % shift != 0 {
            return None;
        }
        proof {
            lemma_pow2_adds((kn - 52) as nat, 53);
            assert((mag as nat) < pow2((kn - 52) as nat) * pow2(53));
            assert((mag as nat) / pow2((kn - 52) as nat) < pow2(53))
                by (nonlinear_arith)
                requires
                    (mag as nat) < pow2((kn - 52) as nat) * pow2(53),
                    pow2((kn - 52) as nat) >= 1,
            ;
            assert(pow2(52) <= (mag as nat) / pow2((kn - 52) as nat))
                by (nonlinear_arith)
                requires
                    pow2(kn) <= (mag as nat),
                    pow2((kn - 52) as nat) >= 1,
                    pow2(kn) == pow2((kn - 52) as nat) * pow2(52),
            ;
        }
        let mant = mag / shift - p52;
        let expf: u64 = 1023 + k;
        let bits = sign + expf * p52 + mant;
        proof {
            assert(expf * p52 <= 1086 * pow2(52)) by (nonlinear_arith)
                requires
                    expf <= 1086,
                    p52 as nat == pow2(52),
            ;
        }
        Some(bits)
    }
}

/// The sign and integer magnitude a bit pattern denotes, where it denotes
/// an integer that a machine word can hold.
pub fn double_magnitude(bits: u64) -> (r: Option<(bool, u64)>)
    ensures
        r == double_bits_magnitude(bits),
{
    proof {
        lemma2_to64();
        vstd::arithmetic::power2::lemma2_to64_rest();
    }
    let p63 = pow2_u64(63);
    let p52 = pow2_u64(52);
    let p11 = pow2_u64(11);
    let sign = bits / p63 == 1;
    let expf = (bits / p52) % p11;
    let m = bits % p52;
    if expf == 2047 {
        None
    } else if expf == 0 {
        if m == 0 {
            Some((sign, 0))
        } else {
            None
        }
    } else if expf < 1023 {
        None
    } else if expf > 1023 + 63 {
        None
    } else {
        let e = expf - 1023;
        if e <= 52 {
            let shift = pow2_u64(52 - e);
            if m % shift != 0 {
                None
            } else {
                proof {
                    assert((pow2(52) + m as nat) / pow2((52 - e) as nat)
                        <= pow2(52) + m as nat) by (nonlinear_arith)
                        requires
                            pow2((52 - e) as nat) >= 1,
                            pow2(52) + m as nat >= 0,
                    ;
                }
                Some((sign, (p52 + m) / shift))
            }
        } else {
            let sh = e - 52;
            let shift = pow2_u64(sh);
            proof {
                assert((pow2(52) + m as nat) * pow2((e - 52) as nat)
                    <= (pow2(53) - 1) * pow2(11)) by (nonlinear_arith)
                    requires
                        pow2(52) + m as nat <= pow2(53) - 1,
                        1 <= pow2((e - 52) as nat) <= pow2(11),
                ;
                assert((pow2(53) - 1) * pow2(11) < pow2(64)) by {
                    lemma_pow2_adds(53, 11);
                    assert((pow2(53) - 1) * pow2(11) == pow2(53) * pow2(11)
                        - pow2(11)) by (nonlinear_arith);
                }
            }
            Some((sign, (p52 + m) * shift))
        }
    }
}

} // verus!
