//! Floating values as IEEE-754 bit patterns, built and rendered in exact
//! integer arithmetic.  The parsing direction turns the digits of a decimal
//! literal into the bits of the nearest binary double (ties to even); the
//! rendering direction expands a bit pattern into its exact decimal text at
//! a fixed number of fractional digits, rounded half to even, as the
//! standard fixed-precision formatter does.

use vstd::prelude::*;
use crate::digitvec::{all_digits, dv_digit_at, dv_from_u128, dv_increment, dv_low_nonzero, dv_mul_small, dv_shift10, dv_skip_low, dv_to_u128, dv_trim, dv_emit_msb, lemma_lval_bound, lemma_lval_lower, lemma_lval_nonneg, lemma_lval_take_skip, lemma_pow10_mono, lemma_pow10_pos, lval, pow10, wf_dv};
use crate::lexical::{dec_digits, digits_val, D0, DOT, MINUS};

verus! {

/// Two to the `n`.
pub open spec fn pow2(n: nat) -> int
    decreases n,
{
    if n == 0 {
        1
    } else {
        2 * pow2((n - 1) as nat)
    }
}

pub proof fn lemma_pow2_mono(a: nat, b: nat)
    requires
        a <= b,
    ensures
        pow2(a) <= pow2(b),
    decreases b,
{
    if a < b && b > 0 {
        lemma_pow2_mono(a, (b - 1) as nat);
        lemma_pow2_pos((b - 1) as nat);
    }
}

pub proof fn lemma_pow2_adds(a: nat, b: nat)
    ensures
        pow2(a + b) == pow2(a) * pow2(b),
    decreases a,
{
    if a == 0 {
    } else {
        lemma_pow2_adds((a - 1) as nat, b);
        assert((a + b - 1) as nat == (a - 1) as nat + b);
        assert(pow2(a + b) == 2 * pow2((a + b - 1) as nat));
        assert(2 * (pow2((a - 1) as nat) * pow2(b)) == (2 * pow2((a - 1) as nat)) * pow2(b))
            by (nonlinear_arith);
    }
}

pub proof fn lemma_pow2_128()
    ensures
        pow2(64) == 0x10000000000000000,
        pow2(128) == 0x100000000000000000000000000000000,
{
    reveal_with_fuel(pow2, 10);
    assert(pow2(8) == 0x100);
    lemma_pow2_adds(8, 8);
    assert(pow2(16) == 0x10000);
    lemma_pow2_adds(16, 16);
    assert(pow2(32) == 0x100000000);
    lemma_pow2_adds(32, 32);
    assert(pow2(64) == 0x10000000000000000);
    lemma_pow2_adds(64, 64);
}

pub proof fn lemma_pow2_54()
    ensures
        pow2(54) == 0x40000000000000,
{
    reveal_with_fuel(pow2, 10);
    assert(pow2(9) == 0x200);
    lemma_pow2_adds(9, 9);
    assert(pow2(18) == 0x40000);
    lemma_pow2_adds(18, 18);
    assert(pow2(36) == 0x1000000000);
    lemma_pow2_adds(36, 18);
}

pub proof fn lemma_pow2_pos(n: nat)
    ensures
        pow2(n) >= 1,
    decreases n,
{
    if n > 0 {
        lemma_pow2_pos((n - 1) as nat);
    }
}

/// The number of decimal digits of a positive value.
pub open spec fn dec_len(n: int) -> int
    decreases n,
{
    if n < 10 {
        1
    } else {
        1 + dec_len(n / 10)
    }
}

pub proof fn lemma_dec_len(n: int)
    requires
        n >= 0,
    ensures
        dec_len(n) >= 1,
        n < pow10(dec_len(n) as nat),
        n >= 10 ==> n >= pow10((dec_len(n) - 1) as nat),
    decreases n,
{
    if n < 10 {
        assert(pow10(0) == 1);
        assert(pow10(1) == 10);
    } else {
        lemma_dec_len(n / 10);
        let l = dec_len(n / 10);
        assert(n == (n / 10) * 10 + n % 10) by (nonlinear_arith)
            requires
                n >= 10,
        ;
        assert((n / 10) * 10 + 9 < pow10(l as nat) * 10) by (nonlinear_arith)
            requires
                n / 10 < pow10(l as nat),
        ;
        assert(pow10((l + 1) as nat) == 10 * pow10(l as nat));
        if n / 10 >= 10 {
            assert((n / 10) * 10 >= pow10((l - 1) as nat) * 10) by (nonlinear_arith)
                requires
                    n / 10 >= pow10((l - 1) as nat),
            ;
        } else {
            assert(n / 10 >= 1);
            assert((n / 10) * 10 >= 10) by (nonlinear_arith)
                requires
                    n / 10 >= 1,
            ;
            assert(pow10(0) == 1);
        assert(pow10(1) == 10);
        }
    }
}

/// A well-formed digit vector's length is determined by its value.
pub proof fn lemma_wf_len(v: Seq<u8>)
    requires
        wf_dv(v),
        lval(v) > 0,
    ensures
        v.len() == dec_len(lval(v)),
{
    lemma_lval_bound(v);
    lemma_lval_lower(v);
    lemma_dec_len_unique(lval(v), v.len() as int);
}

proof fn lemma_dec_len_unique(n: int, l: int)
    requires
        n >= 1,
        l >= 1,
        pow10((l - 1) as nat) <= n < pow10(l as nat),
    ensures
        dec_len(n) == l,
    decreases n,
{
    if n < 10 {
        if l >= 2 {
            lemma_pow10_mono(1, (l - 1) as nat);
        }
    } else {
        assert(pow10(l as nat) == 10 * pow10((l - 1) as nat));
        if l == 1 {
            assert(pow10(0) == 1);
        assert(pow10(1) == 10);
        } else {
            assert(pow10((l - 1) as nat) == 10 * pow10((l - 2) as nat));
            assert(n / 10 >= pow10((l - 2) as nat)) by (nonlinear_arith)
                requires
                    n >= 10 * pow10((l - 2) as nat),
                    pow10((l - 2) as nat) >= 0,
            ;
            assert(n / 10 < pow10((l - 1) as nat)) by (nonlinear_arith)
                requires
                    n < 10 * pow10((l - 1) as nat),
                    pow10((l - 1) as nat) >= 1,
            ;
            lemma_pow10_pos((l - 2) as nat);
            lemma_dec_len_unique(n / 10, l - 1);
        }
    }
}

/// Strips low zero digits while the fractional length allows: the value and
/// the denominator exponent shrink together.
pub open spec fn spec_strip(n: int, f: int) -> (int, int)
    decreases f,
{
    if f > 0 && n > 0 && n % 10 == 0 {
        spec_strip(n / 10, f - 1)
    } else {
        (n, f)
    }
}

/// One halving step of a scaled significand: the shifted-out bit joins the
/// sticky flag.
pub open spec fn spec_norm_down(q: int, e: int, st: bool) -> (int, int, bool)
    decreases q,
{
    if q < 0x40000000000000 {
        (q, e, st)
    } else {
        spec_norm_down(q / 2, e + 1, st || (q % 2 == 1))
    }
}

/// Doubling steps that bring a small exact significand up to 54 bits.
pub open spec fn spec_norm_up(q: int, e: int) -> (int, int)
    decreases 0x40000000000000 - q,
{
    if q >= 0x20000000000000 || q <= 0 {
        (q, e)
    } else {
        spec_norm_up(q * 2, e - 1)
    }
}

/// Extra halvings for values below the normal range.
pub open spec fn spec_subnorm(q: int, biased: int, st: bool) -> (int, int, bool)
    decreases 1 - biased,
{
    if biased >= 1 {
        (q, biased, st)
    } else {
        spec_subnorm(q / 2, biased + 1, st || (q % 2 == 1))
    }
}

/// Scaling by doublings until the value has `target` decimal digits, with a
/// step budget.
pub open spec fn spec_scale_up(m: int, target: int, fuel: nat) -> (int, int)
    decreases fuel,
{
    if fuel == 0 || m <= 0 || dec_len(m) >= target {
        (m, 0)
    } else {
        let (r, t) = spec_scale_up(m * 2, target, (fuel - 1) as nat);
        (r, t + 1)
    }
}

/// Scaling by fivefold steps until the quotient above `f + s` low digits is
/// short enough, with a step budget.
pub open spec fn spec_scale_down(m: int, f: int, fuel: nat) -> (int, int)
    decreases fuel,
{
    if fuel == 0 || m <= 0 || dec_len(m) - f <= 18 {
        (m, 0)
    } else {
        let (r, s) = spec_scale_down(m * 5, f + 1, (fuel - 1) as nat);
        (r, s + 1)
    }
}

/// Rounds a 54-bit significand-with-guard to 53 bits, assembles the bits.
pub open spec fn spec_assemble(neg: bool, q: int, biased: int, st: bool) -> u64 {
    let sign: int = if neg {
        0x8000000000000000
    } else {
        0
    };
    let keep = q / 2;
    let guard = q % 2;
    let up = guard == 1 && (st || keep % 2 == 1);
    let k2 = if up {
        keep + 1
    } else {
        keep
    };
    let (k3, b3) = if k2 == 0x20000000000000 {
        (0x10000000000000, biased + 1)
    } else {
        (k2, biased)
    };
    if b3 >= 2047 {
        (sign + 0x7ff0000000000000) as u64
    } else {
        (sign + (b3 - 1) * 0x10000000000000 + k3) as u64
    }
}

/// Normalizing, rounding and assembling a scaled significand.
pub open spec fn spec_finish(neg: bool, q: int, e: int, st: bool) -> u64 {
    let (q2, e2, st2) = spec_norm_down(q, e, st);
    let (q3, e3) = if st2 {
        (q2, e2)
    } else {
        spec_norm_up(q2, e2)
    };
    let (q4, b4, st4) = spec_subnorm(q3, e3 + 1076, st2);
    spec_assemble(neg, q4, b4, st4)
}

/// The IEEE-754 double bits of the decimal `±whole.frac`, nearest value,
/// ties to even.
pub open spec fn spec_real_bits(neg: bool, whole: Seq<u8>, frac: Seq<u8>) -> u64 {
    let sign: u64 = if neg {
        0x8000000000000000
    } else {
        0
    };
    let m0 = digits_val(whole + frac) as int;
    if m0 == 0 {
        sign
    } else {
        let (m1, f1) = spec_strip(m0, frac.len() as int);
        let ilen = dec_len(m1) - f1;
        if ilen > 310 {
            (sign + 0x7ff0000000000000) as u64
        } else if ilen <= -325 {
            sign
        } else if dec_len(m1) < f1 + 18 {
            let fuel = (4 * (f1 + 18) + 64) as nat;
            let (m2, t) = spec_scale_up(m1, f1 + 18, fuel);
            let q = m2 / pow10(f1 as nat);
            let st = m2 % pow10(f1 as nat) != 0;
            spec_finish(neg, q, -t, st)
        } else {
            let fuel = (4 * (dec_len(m1) - f1) + 64) as nat;
            let (m2, s) = spec_scale_down(m1, f1, fuel);
            if dec_len(m2) - (f1 + s) > 38 {
                (sign + 0x7ff0000000000000) as u64
            } else {
                let q = m2 / pow10((f1 + s) as nat);
                let st = m2 % pow10((f1 + s) as nat) != 0;
                spec_finish(neg, q, s, st)
            }
        }
    }
}

pub proof fn lemma_digits_val_first(s: Seq<u8>)
    requires
        s.len() > 0,
        all_digits(s),
    ensures
        digits_val(s) == (s[0] - D0) * pow10((s.len() - 1) as nat) + digits_val(s.drop_first()),
    decreases s.len(),
{
    if s.len() == 1 {
        assert(s.drop_first() =~= Seq::<u8>::empty());
        assert(digits_val(s.drop_last()) == digits_val(Seq::<u8>::empty()));
        assert(s.drop_last() =~= Seq::<u8>::empty());
        assert(digits_val(s) == (s.last() - D0));
        assert(s.last() == s[0]);
        assert(pow10(0) == 1);
    } else {
        assert(all_digits(s.drop_last()));
        lemma_digits_val_first(s.drop_last());
        assert(s.drop_last()[0] == s[0]);
        assert(s.drop_last().drop_first() =~= s.drop_first().drop_last());
        assert(s.drop_first().last() == s.last());
        let a = (s[0] - D0) as int;
        let p = pow10((s.len() - 2) as nat);
        let b = digits_val(s.drop_first().drop_last()) as int;
        let d = (s.last() - D0) as int;
        assert(digits_val(s) == digits_val(s.drop_last()) * 10 + d);
        assert(digits_val(s.drop_last()) == a * p + b);
        assert(digits_val(s.drop_first()) == b * 10 + d);
        assert((a * p + b) * 10 + d == a * (10 * p) + (b * 10 + d)) by (nonlinear_arith);
        assert(pow10((s.len() - 1) as nat) == 10 * p);
    }
}

/// Least-significant-first digits of the run `whole` then `frac`.
fn dv_of_text(whole: &[u8], frac: &[u8]) -> (r: Vec<u8>)
    requires
        all_digits(whole@),
        all_digits(frac@),
    ensures
        lval(r@) == digits_val(whole@ + frac@),
        wf_dv(r@),
{
    let ghost s = whole@ + frac@;
    proof {
        assert(all_digits(s));
    }
    let mut out: Vec<u8> = Vec::new();
    let mut j: usize = frac.len();
    proof {
        assert(s.skip(s.len() as int) =~= Seq::<u8>::empty());
        assert(lval(Seq::<u8>::empty()) == 0);
        assert(digits_val(Seq::<u8>::empty()) == 0);
    }
    while j > 0
        invariant
            all_digits(whole@),
            all_digits(frac@),
            s == whole@ + frac@,
            j <= frac@.len(),
            out@.len() == frac@.len() - j,
            all_digits(out@),
            lval(out@) == digits_val(s.skip(whole@.len() + j)),
        decreases j,
    {
        let d = frac[j - 1];
        proof {
            lemma_push_step(s, whole@.len() + j - 1, out@, d);
            assert(s[whole@.len() + j - 1] == frac@[j - 1]);
        }
        out.push(d);
        j -= 1;
    }
    let mut k: usize = whole.len();
    while k > 0
        invariant
            all_digits(whole@),
            all_digits(frac@),
            s == whole@ + frac@,
            k <= whole@.len(),
            out@.len() == s.len() - k,
            all_digits(out@),
            lval(out@) == digits_val(s.skip(k as int)),
        decreases k,
    {
        let d = whole[k - 1];
        proof {
            lemma_push_step(s, k - 1, out@, d);
            assert(s[k - 1] == whole@[k - 1]);
        }
        out.push(d);
        k -= 1;
    }
    proof {
        assert(s.skip(0) =~= s);
    }
    dv_trim(out)
}

proof fn lemma_push_step(s: Seq<u8>, at: int, cur: Seq<u8>, d: u8)
    requires
        all_digits(s),
        0 <= at < s.len(),
        cur.len() == s.len() - at - 1,
        lval(cur) == digits_val(s.skip(at + 1)),
        d == s[at],
    ensures
        lval(cur.push(d)) == digits_val(s.skip(at)),
{
    crate::digitvec::lemma_lval_push(cur, d);
    let tail = s.skip(at);
    assert(all_digits(tail));
    assert(tail.len() > 0);
    assert(tail[0] == s[at]);
    lemma_digits_val_first(tail);
    assert(tail.drop_first() =~= s.skip(at + 1));
}

/// Splitting a digit vector at `f` realizes division by ten to the `f`.
proof fn lemma_split_div(v: Seq<u8>, f: int)
    requires
        wf_dv(v),
        0 <= f <= v.len(),
    ensures
        lval(v.skip(f)) == lval(v) / pow10(f as nat),
        lval(v.take(f)) == lval(v) % pow10(f as nat),
{
    lemma_lval_take_skip(v, f);
    assert(all_digits(v.take(f)));
    assert(all_digits(v.skip(f)));
    lemma_lval_bound(v.take(f));
    lemma_lval_nonneg(v.skip(f));
    lemma_pow10_pos(f as nat);
    assert(lval(v) == lval(v.skip(f)) * pow10(f as nat) + lval(v.take(f))) by (nonlinear_arith)
        requires
            lval(v) == lval(v.take(f)) + pow10(f as nat) * lval(v.skip(f)),
    ;
    vstd::arithmetic::div_mod::lemma_fundamental_div_mod_converse_div(
        lval(v),
        pow10(f as nat),
        lval(v.skip(f)),
        lval(v.take(f)),
    );
    vstd::arithmetic::div_mod::lemma_fundamental_div_mod_converse_mod(
        lval(v),
        pow10(f as nat),
        lval(v.skip(f)),
        lval(v.take(f)),
    );
}

/// More value never means fewer digits.
proof fn lemma_dec_len_mono(a: int, b: int)
    requires
        0 <= a <= b,
    ensures
        dec_len(a) <= dec_len(b),
    decreases b,
{
    if b >= 10 && a >= 10 {
        assert(a / 10 <= b / 10) by (nonlinear_arith)
            requires
                a <= b,
                a >= 0,
        ;
        lemma_dec_len_mono(a / 10, b / 10);
    } else if b >= 10 && a < 10 {
        lemma_dec_len(b / 10);
    }
}

/// Any value below ten to the `l` has at most `l` digits.
proof fn lemma_dec_len_le(n: int, l: int)
    requires
        0 <= n,
        1 <= l,
        n < pow10(l as nat),
    ensures
        dec_len(n) <= l,
    decreases n,
{
    if n >= 10 {
        assert(pow10(l as nat) == 10 * pow10((l - 1) as nat));
        assert(n / 10 < pow10((l - 1) as nat)) by (nonlinear_arith)
            requires
                n < 10 * pow10((l - 1) as nat),
                pow10((l - 1) as nat) >= 1,
        ;
        if l == 1 {
            assert(pow10(0) == 1);
            assert(pow10(1) == 10);
            assert(false);
        } else {
            lemma_pow10_pos((l - 1) as nat);
            lemma_dec_len_le(n / 10, l - 1);
        }
    }
}

/// The IEEE-754 double bits of the decimal `±whole.frac`, nearest value,
/// ties to even; the specification `spec_real_bits` fixes every step.
#[verifier::rlimit(100)]
pub fn real_bits(neg: bool, whole: &[u8], frac: &[u8]) -> (r: u64)
    requires
        all_digits(whole@),
        all_digits(frac@),
    ensures
        r == spec_real_bits(neg, whole@, frac@),
{
    let sign: u64 = if neg {
        0x8000000000000000
    } else {
        0
    };
    let mut v = dv_of_text(whole, frac);
    let ghost m0 = digits_val(whole@ + frac@) as int;
    if v.len() == 0 {
        return sign;
    }
    proof {
        lemma_lval_lower(v@);
        crate::digitvec::lemma_pow10_pos((v@.len() - 1) as nat);
    }
    // Strip low zeros together with the fractional length.
    let mut f: usize = frac.len();
    while f > 0 && v[0] == 0x30
        invariant
            wf_dv(v@),
            lval(v@) > 0,
            spec_strip(lval(v@), f as int) == spec_strip(m0, frac@.len() as int),
        decreases f,
    {
        proof {
            let s = v@;
            assert(s.len() > 1) by {
                if s.len() == 1 {
                    assert(s.last() == s[0]);
                }
            }
            assert(s.skip(1) =~= s.drop_first());
            assert(lval(s) == (s[0] - D0) + 10 * lval(s.drop_first()));
            assert(all_digits(s.drop_first()));
            lemma_lval_nonneg(s.drop_first());
            assert(lval(s) == lval(s.drop_first()) * 10 + 0) by (nonlinear_arith)
                requires
                    lval(s) == (s[0] - D0) + 10 * lval(s.drop_first()),
                    s[0] == D0,
            ;
            vstd::arithmetic::div_mod::lemma_fundamental_div_mod_converse_div(
                lval(s),
                10,
                lval(s.drop_first()),
                0,
            );
            vstd::arithmetic::div_mod::lemma_fundamental_div_mod_converse_mod(
                lval(s),
                10,
                lval(s.drop_first()),
                0,
            );
            assert(lval(s) % 10 == 0);
            assert(lval(s) / 10 == lval(s.drop_first()));
            assert(s.drop_first().last() == s.last());
            assert(lval(s.drop_first()) > 0) by {
                assert(wf_dv(s.drop_first()));
                lemma_lval_lower(s.drop_first());
                crate::digitvec::lemma_pow10_pos((s.drop_first().len() - 1) as nat);
            }
        }
        v = dv_skip_low(&v, 1);
        f -= 1;
    }
    proof {
        if f > 0 {
            assert(v@[0] != D0);
            assert(lval(v@) == (v@[0] - D0) + 10 * lval(v@.drop_first()));
            assert(all_digits(v@.drop_first()));
            lemma_lval_nonneg(v@.drop_first());
            assert(lval(v@) == lval(v@.drop_first()) * 10 + (v@[0] - D0)) by (nonlinear_arith)
                requires
                    lval(v@) == (v@[0] - D0) + 10 * lval(v@.drop_first()),
            ;
            vstd::arithmetic::div_mod::lemma_fundamental_div_mod_converse_mod(
                lval(v@),
                10,
                lval(v@.drop_first()),
                (v@[0] - D0) as int,
            );
            assert(lval(v@) % 10 != 0);
        }
        assert(spec_strip(lval(v@), f as int) == (lval(v@), f as int));
        lemma_wf_len(v@);
    }
    let ghost m1 = lval(v@);
    let ghost f1 = f as int;
    let ilen: i128 = v.len() as i128 - f as i128;
    if ilen > 310 {
        return sign + 0x7ff0000000000000;
    }
    if ilen <= -325 {
        return sign;
    }
    let fuel0: u128 = 4 * (f as u128 + 18) + 64;
    let mut q: u128;
    let mut sticky: bool;
    let mut e: i128;
    if (v.len() as u128) < f as u128 + 18 {
        // Scale up by doublings until eighteen digits stand above the
        // fractional part.
        let mut fuel = fuel0;
        let mut t: u128 = 0;
        while (v.len() as u128) < f as u128 + 18 && fuel > 0
            invariant
                wf_dv(v@),
                lval(v@) > 0,
                f1 == f as int,
                v@.len() <= f + 18,
                t + fuel == fuel0,
                spec_scale_up(m1, f1 + 18, fuel0 as nat) == {
                    let (rm, rt) = spec_scale_up(lval(v@), f1 + 18, fuel as nat);
                    (rm, rt + t as int)
                },
            decreases fuel,
        {
            proof {
                lemma_wf_len(v@);
                lemma_lval_bound(v@);
                assert(2 * lval(v@) < 2 * pow10(v@.len())) by (nonlinear_arith)
                    requires
                        lval(v@) < pow10(v@.len()),
                ;
                assert(pow10((v@.len() + 1) as nat) == 10 * pow10(v@.len()));
                lemma_dec_len_le(2 * lval(v@), v@.len() as int + 1);
            }
            let ghost mold = lval(v@);
            let ghost fold = fuel;
            let nv = dv_mul_small(&v, 2);
            proof {
                assert(lval(nv@) == 2 * mold) by (nonlinear_arith)
                    requires
                        lval(nv@) == 2u8 * mold,
                ;
            }
            v = dv_trim(nv);
            proof {
                lemma_wf_len(v@);
                assert(lval(v@) == 2 * mold);
                assert(fold >= 1);
                assert(mold > 0);
                assert(v@.len() == dec_len(lval(v@)));
                assert(dec_len(mold) < f1 + 18);
                assert(spec_scale_up(mold, f1 + 18, fold as nat) == {
                    let (rm, rt) = spec_scale_up(mold * 2, f1 + 18, ((fold as nat) - 1) as nat);
                    (rm, rt + 1)
                });
                assert(mold * 2 == 2 * mold);
            }
            fuel -= 1;
            t += 1;
        }
        proof {
            lemma_wf_len(v@);
            assert(spec_scale_up(lval(v@), f1 + 18, fuel as nat) == (lval(v@), 0int));
        }
        let qv = dv_skip_low(&v, f);
        proof {
            if f1 <= v@.len() {
                lemma_split_div(v@, f1);
            } else {
                lemma_lval_bound(v@);
                lemma_pow10_mono(v@.len(), f1 as nat);
                lemma_pow10_pos(f1 as nat);
                assert(v@.skip(v@.len() as int) =~= Seq::<u8>::empty());
                assert(lval(Seq::<u8>::empty()) == 0);
                assert(v@.take(v@.len() as int) =~= v@);
                assert(lval(v@) / pow10(f1 as nat) == 0 && lval(v@) % pow10(f1 as nat) == lval(
                    v@,
                )) by (nonlinear_arith)
                    requires
                        0 <= lval(v@) < pow10(f1 as nat),
                ;
            }
            assert(t <= fuel0);
        }
        q = dv_to_u128(&qv);
        sticky = dv_low_nonzero(&v, f);
        e = -(t as i128);
    } else {
        // Scale down by fivefold steps, widening the split, until at most
        // eighteen digits stand above it.
        let fuel0d: u128 = 4 * (v.len() as u128 - f as u128) + 64;
        let mut fuel = fuel0d;
        let mut s: u128 = 0;
        let mut split: usize = f;
        while (v.len() as u128) > split as u128 + 18 && fuel > 0
            invariant
                wf_dv(v@),
                lval(v@) > 0,
                f1 == f as int,
                split as int == f1 + s,
                split <= v@.len(),
                s + fuel == fuel0d,
                split as u128 + 18 < u128::MAX,
                spec_scale_down(m1, f1, fuel0d as nat) == {
                    let (rm, rs) = spec_scale_down(lval(v@), f1 + s, fuel as nat);
                    (rm, rs + s as int)
                },
            decreases fuel,
        {
            proof {
                lemma_wf_len(v@);
                lemma_lval_bound(v@);
                assert(5 * lval(v@) < 5 * pow10(v@.len())) by (nonlinear_arith)
                    requires
                        lval(v@) < pow10(v@.len()),
                ;
                assert(pow10((v@.len() + 1) as nat) == 10 * pow10(v@.len()));
                lemma_dec_len_le(5 * lval(v@), v@.len() as int + 1);
                assert(5 * lval(v@) >= lval(v@)) by (nonlinear_arith)
                    requires
                        lval(v@) > 0,
                ;
            }
            let ghost mold = lval(v@);
            let ghost fold = fuel;
            proof {
                assert(split as u128 + 18 < v@.len() as u128);
                assert(split + 1 <= v@.len());
            }
            let nv = dv_mul_small(&v, 5);
            proof {
                assert(lval(nv@) == 5 * mold) by (nonlinear_arith)
                    requires
                        lval(nv@) == 5u8 * mold,
                ;
            }
            v = dv_trim(nv);
            proof {
                lemma_wf_len(v@);
                lemma_dec_len(lval(v@));
                assert(lval(v@) == 5 * mold);
                assert(mold <= 5 * mold) by (nonlinear_arith)
                    requires
                        mold > 0,
                ;
                lemma_dec_len_mono(mold, 5 * mold);
                assert(split + 1 <= v@.len());
                assert(fold >= 1);
                assert(mold > 0);
                assert(spec_scale_down(mold, f1 + s, fold as nat) == {
                    let (rm, rs) = spec_scale_down(mold * 5, f1 + s + 1, ((fold as nat) - 1) as nat);
                    (rm, rs + 1)
                });
                assert(mold * 5 == 5 * mold);
            }
            fuel -= 1;
            s += 1;
            split += 1;
        }
        proof {
            lemma_wf_len(v@);
            assert(spec_scale_down(lval(v@), f1 + s, fuel as nat) == (lval(v@), 0int));
        }
        if v.len() - split > 38 {
            return sign + 0x7ff0000000000000;
        }
        let qv = dv_skip_low(&v, split);
        proof {
            lemma_split_div(v@, split as int);
        }
        q = dv_to_u128(&qv);
        sticky = dv_low_nonzero(&v, split);
        e = s as i128;
    }
    norm_round(neg, sign, q, e, sticky)

}

/// Normalizes a scaled significand to 53 bits, rounds to nearest with ties
/// to even, and assembles sign, exponent and mantissa fields.
#[verifier::rlimit(60)]
fn norm_round(neg: bool, sign: u64, q0: u128, e0: i128, st0in: bool) -> (r: u64)
    requires
        sign == (if neg {
            0x8000000000000000u64
        } else {
            0u64
        }),
        -0x200000000000000000 <= e0 <= 0x200000000000000000,
    ensures
        r == spec_finish(neg, q0 as int, e0 as int, st0in),
{
    let mut q = q0;
    let mut e = e0;
    let mut sticky = st0in;
    let ghost qn0 = q as int;
    let ghost en0 = e as int;
    let ghost st0 = sticky;
    proof {
        lemma_pow2_128();
        assert(pow2(0) == 1);
        assert(1 * (q as int) == q as int) by (nonlinear_arith);
    }
    while q >= 0x40000000000000
        invariant
            en0 <= e,
            -0x200000000000000000 <= en0 <= 0x200000000000000000,
            pow2((e - en0) as nat) * (q as int) <= qn0,
            q >= 1 ==> pow2((e - en0) as nat) <= qn0,
            q == 0 ==> e == en0,
            qn0 == q0 as int,
            qn0 < pow2(128),
            spec_norm_down(qn0, en0, st0) == spec_norm_down(q as int, e as int, sticky),
        decreases q,
    {
        proof {
            lemma_pow2_128();
            if e - en0 >= 128 {
                lemma_pow2_mono(128, (e - en0) as nat);
                assert(false);
            }
            let k = pow2((e - en0) as nat);
            lemma_pow2_pos((e - en0) as nat);
            assert(pow2((e + 1 - en0) as nat) == 2 * k);
            assert((2 * k) * ((q as int) / 2) <= k * (q as int)) by (nonlinear_arith)
                requires
                    k >= 1,
                    q >= 0,
            ;
            assert((2 * k) * ((q as int) / 2) >= 2 * k) by (nonlinear_arith)
                requires
                    k >= 1,
                    q / 2 >= 1,
            ;
            assert(spec_norm_down(q as int, e as int, sticky) == spec_norm_down(
                q as int / 2,
                e as int + 1,
                sticky || (q as int % 2 == 1),
            ));
            assert(q as int % 2 == 1 <==> q % 2 == 1);
        }
        sticky = sticky || q % 2 == 1;
        q = q / 2;
        e = e + 1;
    }
    proof {
        lemma_pow2_128();
        if q >= 1 {
            if e - en0 >= 128 {
                lemma_pow2_mono(128, (e - en0) as nat);
                assert(false);
            }
        } else {
            assert(e == en0);
        }
        assert(e <= en0 + 128);
    }
    if !sticky {
        let ghost qn1 = q as int;
        let ghost en1 = e as int;
        proof {
            assert(pow2(0) == 1);
            assert(qn1 * 1 == qn1) by (nonlinear_arith);
        }
        while q < 0x20000000000000 && q > 0
            invariant
                e <= en1,
                en1 - e <= 54,
                -0x200000000000000100 <= en1 <= 0x200000000000000100,
                q as int == qn1 * pow2((en1 - e) as nat),
                q < 0x40000000000000,
                spec_norm_up(qn1, en1) == spec_norm_up(q as int, e as int),
            decreases 0x40000000000000 - q,
        {
            proof {
                let k = pow2((en1 - e) as nat);
                lemma_pow2_pos((en1 - e) as nat);
                assert(pow2((en1 - (e - 1)) as nat) == 2 * k);
                assert(qn1 * (2 * k) == 2 * (qn1 * k)) by (nonlinear_arith);
                if en1 - e >= 54 {
                    lemma_pow2_54();
                    lemma_pow2_mono(54, (en1 - e) as nat);
                    assert(qn1 * k >= k) by (nonlinear_arith)
                        requires
                            qn1 >= 1,
                            k >= 1,
                    ;
                    assert(false);
                }
                assert(spec_norm_up(q as int, e as int) == spec_norm_up(
                    q as int * 2,
                    e as int - 1,
                ));
            }
            q = q * 2;
            e = e - 1;
        }
    }
    // Values below the normal range lose further bits.
    proof {
        assert(-0x200000000000000200 <= e <= 0x200000000000000200);
    }
    let mut biased: i128 = e + 1076;
    let ghost qs0 = q as int;
    let ghost bs0 = biased as int;
    let ghost sts0 = sticky;
    while biased < 1
        invariant
            biased <= bs0 || biased <= 1,
            q < 0x40000000000000,
            spec_subnorm(qs0, bs0, sts0) == spec_subnorm(q as int, biased as int, sticky),
        decreases 1 - biased,
    {
        proof {
            assert(spec_subnorm(q as int, biased as int, sticky) == spec_subnorm(
                q as int / 2,
                biased as int + 1,
                sticky || (q as int % 2 == 1),
            ));
            assert(q as int % 2 == 1 <==> q % 2 == 1);
        }
        sticky = sticky || q % 2 == 1;
        q = q / 2;
        biased = biased + 1;
    }
    // Round to nearest, ties to even, and assemble the fields.
    let keep = q / 2;
    let guard = q % 2;
    let up = guard == 1 && (sticky || keep % 2 == 1);
    let mut k3: u128 = if up {
        keep + 1
    } else {
        keep
    };
    let mut b3: i128 = biased;
    if k3 == 0x20000000000000 {
        k3 = 0x10000000000000;
        b3 = b3 + 1;
    }
    if b3 >= 2047 {
        sign + 0x7ff0000000000000
    } else {
        proof {
            assert(1 <= b3 < 2047);
            assert(k3 < 0x20000000000000);
        }
        sign + ((b3 as u64 - 1) * 0x10000000000000) + (k3 as u64)
    }
}

/// Five to the `n`.
pub open spec fn pow5(n: nat) -> int
    decreases n,
{
    if n == 0 {
        1
    } else {
        5 * pow5((n - 1) as nat)
    }
}

pub proof fn lemma_pow5_pos(n: nat)
    ensures
        pow5(n) >= 1,
    decreases n,
{
    if n > 0 {
        lemma_pow5_pos((n - 1) as nat);
    }
}

/// The digit of `n` in place `k`.
proof fn lemma_lval_digit(v: Seq<u8>, k: int)
    requires
        wf_dv(v),
        0 <= k < v.len(),
    ensures
        (lval(v) / pow10(k as nat)) % 10 == v[k] - D0,
    decreases v.len(),
{
    lemma_split_div(v, k);
    let s = v.skip(k);
    assert(s.len() > 0);
    assert(s[0] == v[k]);
    assert(all_digits(s));
    assert(lval(s) == (s[0] - D0) + 10 * lval(s.drop_first()));
    lemma_lval_nonneg(s.drop_first());
    vstd::arithmetic::div_mod::lemma_fundamental_div_mod_converse_mod(
        lval(s),
        10,
        lval(s.drop_first()),
        (s[0] - D0) as int,
    );
}

/// The rounded scaled value whose digits the renderer prints: the exact
/// value `m·2^up/2^down`, scaled by `10^p` and rounded to the nearest
/// integer with ties to even.
pub open spec fn spec_scaled_round(m: int, up: nat, down: nat, p: nat) -> int {
    if down == 0 {
        m * pow2(up) * pow10(p)
    } else {
        let scaled = m * pow5(down) * pow10(p);
        let q = scaled / pow10(down);
        let rem = scaled % pow10(down);
        if 2 * rem > pow10(down) || (2 * rem == pow10(down) && q % 2 == 1) {
            q + 1
        } else {
            q
        }
    }
}

/// The unsigned fixed-precision decimal text of the rounded value `n`:
/// integer digits, and for a positive precision a point and exactly `p`
/// fractional digits.
pub open spec fn spec_fixed_text(n: int, p: nat) -> Seq<u8> {
    let ip = dec_digits((n / pow10(p)) as nat);
    if p == 0 {
        ip
    } else {
        ip + seq![DOT] + Seq::new(p, |j: int| (D0 + (n / pow10((p - 1 - j) as nat)) % 10) as u8)
    }
}

/// Digits of `m·2^up/2^down` at `p` fractional places, rounded half to
/// even, without a sign.
fn fixed_digits(m: u64, up: usize, down: usize, p: usize) -> (r: Vec<u8>)
    requires
        up == 0 || down == 0,
    ensures
        r@ == spec_fixed_text(spec_scaled_round(m as int, up as nat, down as nat, p as nat), p as nat),
{
    let mut v = dv_from_u128(m as u128);
    let nv: Vec<u8>;
    if down == 0 {
        let mut k: usize = 0;
        while k < up
            invariant
                k <= up,
                wf_dv(v@),
                lval(v@) == m * pow2(k as nat),
            decreases up - k,
        {
            let ghost mold = lval(v@);
            let w = dv_mul_small(&v, 2);
            proof {
                assert(lval(w@) == 2 * mold) by (nonlinear_arith)
                    requires
                        lval(w@) == 2u8 * mold,
                ;
                assert(pow2((k + 1) as nat) == 2 * pow2(k as nat));
                assert(m * pow2((k + 1) as nat) == 2 * (m * pow2(k as nat))) by (nonlinear_arith)
                    requires
                        pow2((k + 1) as nat) == 2 * pow2(k as nat),
                ;
            }
            v = dv_trim(w);
            k += 1;
        }
        let sv = dv_shift10(&v, p);
        proof {
            assert(lval(sv@) == (m * pow2(up as nat)) * pow10(p as nat));
        }
        nv = dv_trim(sv);
        proof {
            assert(lval(nv@) == spec_scaled_round(m as int, up as nat, 0, p as nat));
        }
    } else {
        let mut k: usize = 0;
        while k < down
            invariant
                k <= down,
                wf_dv(v@),
                lval(v@) == m * pow5(k as nat),
            decreases down - k,
        {
            let ghost mold = lval(v@);
            let w = dv_mul_small(&v, 5);
            proof {
                assert(lval(w@) == 5 * mold) by (nonlinear_arith)
                    requires
                        lval(w@) == 5u8 * mold,
                ;
                assert(pow5((k + 1) as nat) == 5 * pow5(k as nat));
                assert(m * pow5((k + 1) as nat) == 5 * (m * pow5(k as nat))) by (nonlinear_arith)
                    requires
                        pow5((k + 1) as nat) == 5 * pow5(k as nat),
                ;
            }
            v = dv_trim(w);
            k += 1;
        }
        let sv0 = dv_shift10(&v, p);
        proof {
            assert(lval(sv0@) == (m * pow5(down as nat)) * pow10(p as nat));
        }
        let sv = dv_trim(sv0);
        let ghost scaled = lval(sv@);
        // Split the scaled digits `down` places up: quotient, guard digit,
        // and whether anything lies below the guard.
        let qv = dv_skip_low(&sv, down);
        let guard = dv_digit_at(&sv, down - 1);
        let low = dv_low_nonzero(&sv, down - 1);
        let qpar = dv_digit_at(&qv, 0) % 2;
        proof {
            lemma_pow10_pos(down as nat);
            if down <= sv@.len() {
                lemma_split_div(sv@, down as int);
            } else {
                lemma_lval_bound(sv@);
                lemma_pow10_mono(sv@.len(), down as nat);
                assert(sv@.skip(sv@.len() as int) =~= Seq::<u8>::empty());
                assert(lval(Seq::<u8>::empty()) == 0);
                assert(sv@.take(sv@.len() as int) =~= sv@);
                assert(scaled / pow10(down as nat) == 0 && scaled % pow10(down as nat) == scaled)
                    by (nonlinear_arith)
                    requires
                        0 <= scaled < pow10(down as nat),
                ;
            }
            lemma_rounding_shape(sv@, down as int);
        }
        let up_round = guard > 5 || (guard == 5 && (low || qpar == 1));
        proof {
            let q = scaled / pow10(down as nat);
            let rem = scaled % pow10(down as nat);
            let glemma: int = if down - 1 < sv@.len() {
                (sv@[down - 1] - D0) as int
            } else {
                0
            };
            let lowlen: int = if down - 1 <= sv@.len() {
                down - 1
            } else {
                sv@.len() as int
            };
            assert(guard as int == glemma);
            assert(all_digits(sv@.take(lowlen)));
            lemma_lval_nonneg(sv@.take(lowlen));
            assert(low == (lval(sv@.take(lowlen)) > 0));
            if down < sv@.len() {
                assert(qv@ =~= sv@.skip(down as int));
                assert(qv@.len() > 0);
                assert(qv@[0] == sv@[down as int]);
                assert(qpar == 1 <==> ((sv@[down as int] - D0) as int) % 2 == 1);
            } else {
                assert(qv@.len() == 0);
                assert(qpar == 0);
            }
            assert(up_round == (2 * rem > pow10(down as nat) || (2 * rem == pow10(down as nat)
                && q % 2 == 1)));
        }
        if up_round {
            let iv = dv_increment(&qv);
            nv = dv_trim(iv);
        } else {
            nv = qv;
        }
    }
    // Emit integer digits, then exactly `p` fractional digits.
    let ghost n = lval(nv@);
    let iv = dv_skip_low(&nv, p);
    proof {
        lemma_pow10_pos(p as nat);
        if p <= nv@.len() {
            lemma_split_div(nv@, p as int);
        } else {
            lemma_lval_bound(nv@);
            lemma_pow10_mono(nv@.len(), p as nat);
            assert(nv@.skip(nv@.len() as int) =~= Seq::<u8>::empty());
            assert(lval(Seq::<u8>::empty()) == 0);
            assert(n / pow10(p as nat) == 0) by (nonlinear_arith)
                requires
                    0 <= n < pow10(p as nat),
            ;
        }
    }
    let mut out = dv_emit_msb(&iv);
    if p > 0 {
        out.push(0x2e);
        let mut j: usize = 0;
        while j < p
            invariant
                wf_dv(nv@),
                n == lval(nv@),
                j <= p,
                out@ == dec_digits((n / pow10(p as nat)) as nat) + seq![DOT] + Seq::new(
                    j as nat,
                    |q: int| (D0 + (n / pow10((p - 1 - q) as nat)) % 10) as u8,
                ),
            decreases p - j,
        {
            let d = dv_digit_at(&nv, p - 1 - j);
            proof {
                lemma_lval_nonneg(nv@);
                if p - 1 - j < nv@.len() {
                    lemma_lval_digit(nv@, p - 1 - j);
                } else {
                    lemma_lval_bound(nv@);
                    lemma_pow10_mono(nv@.len(), (p - 1 - j) as nat);
                    lemma_pow10_pos((p - 1 - j) as nat);
                    assert(n / pow10((p - 1 - j) as nat) == 0) by (nonlinear_arith)
                        requires
                            0 <= n < pow10((p - 1 - j) as nat),
                    ;
                }
            }
            out.push(0x30 + d);
            proof {
                assert(out@ =~= dec_digits((n / pow10(p as nat)) as nat) + seq![DOT] + Seq::new(
                    (j + 1) as nat,
                    |q: int| (D0 + (n / pow10((p - 1 - q) as nat)) % 10) as u8,
                ));
            }
            j += 1;
        }
    } else {
        proof {
            assert(out@ =~= spec_fixed_text(n, 0));
        }
    }
    proof {
        lemma_lval_nonneg(nv@);
    }
    out
}

/// The half comparison behind rounding: over the split of `v` at `down`,
/// twice the remainder against ten to the `down`, read off the guard digit
/// and the digits below it.
proof fn lemma_rounding_shape(v: Seq<u8>, down: int)
    requires
        wf_dv(v),
        down >= 1,
    ensures
        ({
            let rem = lval(v) % pow10(down as nat);
            let q = lval(v) / pow10(down as nat);
            let guard: int = if down - 1 < v.len() {
                (v[down - 1] - D0) as int
            } else {
                0
            };
            let lowlen: int = if down - 1 <= v.len() {
                down - 1
            } else {
                v.len() as int
            };
            let low = lval(v.take(lowlen));
            &&& (2 * rem > pow10(down as nat) <==> (guard > 5 || (guard == 5 && low > 0)))
            &&& (2 * rem == pow10(down as nat) <==> (guard == 5 && low == 0))
            &&& (q % 2 == 1 <==> (if down < v.len() {
                ((v[down as int] - D0) as int) % 2 == 1
            } else {
                false
            }))
        }),
{
    let nv = lval(v);
    let p1 = pow10((down - 1) as nat);
    lemma_pow10_pos((down - 1) as nat);
    assert(pow10(down as nat) == 10 * p1);
    lemma_lval_nonneg(v);
    if down - 1 < v.len() {
        lemma_split_div(v, down - 1);
        lemma_lval_digit(v, down - 1);
        let low = lval(v.take(down - 1));
        lemma_lval_bound(v.take(down - 1));
        assert(v.take(down - 1).len() == down - 1);
        let rest = nv / p1;
        let g = (v[down - 1] - D0) as int;
        assert(rest % 10 == g);
        vstd::arithmetic::div_mod::lemma_fundamental_div_mod(nv, p1);
        assert(nv == p1 * rest + low);
        vstd::arithmetic::div_mod::lemma_fundamental_div_mod(rest, 10);
        let qq = rest / 10;
        assert(rest == 10 * qq + g);
        assert(nv == qq * (10 * p1) + (g * p1 + low)) by (nonlinear_arith)
            requires
                nv == p1 * rest + low,
                rest == 10 * qq + g,
        ;
        assert(0 <= g * p1 + low < 10 * p1) by (nonlinear_arith)
            requires
                0 <= g <= 9,
                0 <= low < p1,
                p1 >= 1,
        ;
        assert(rest >= 0) by (nonlinear_arith)
            requires
                nv >= 0,
                p1 >= 1,
                rest == nv / p1,
        ;
        assert(qq >= 0) by (nonlinear_arith)
            requires
                rest >= 0,
                qq == rest / 10,
        ;
        vstd::arithmetic::div_mod::lemma_fundamental_div_mod_converse_div(
            nv,
            10 * p1,
            qq,
            g * p1 + low,
        );
        vstd::arithmetic::div_mod::lemma_fundamental_div_mod_converse_mod(
            nv,
            10 * p1,
            qq,
            g * p1 + low,
        );
        let rem = nv % (10 * p1);
        let q = nv / (10 * p1);
        assert(q == qq && rem == g * p1 + low);
        assert(2 * rem > 10 * p1 <==> (g > 5 || (g == 5 && low > 0))) by (nonlinear_arith)
            requires
                rem == g * p1 + low,
                0 <= low < p1,
                0 <= g <= 9,
                p1 >= 1,
        ;
        assert(2 * rem == 10 * p1 <==> (g == 5 && low == 0)) by (nonlinear_arith)
            requires
                rem == g * p1 + low,
                0 <= low < p1,
                0 <= g <= 9,
                p1 >= 1,
        ;
        if down < v.len() {
            lemma_lval_digit(v, down as int);
            let d2 = (v[down as int] - D0) as int;
            assert((nv / pow10(down as nat)) % 10 == d2);
            vstd::arithmetic::div_mod::lemma_fundamental_div_mod(q, 10);
            assert(q % 2 == 1 <==> d2 % 2 == 1) by (nonlinear_arith)
                requires
                    q == 10 * (q / 10) + d2,
                    0 <= d2 <= 9,
                    q % 10 == d2,
            ;
        } else {
            lemma_split_div(v, down);
            assert(v.skip(down as int).len() == 0);
            assert(lval(Seq::<u8>::empty()) == 0);
            assert(v.skip(down as int) =~= Seq::<u8>::empty());
            assert(q == 0);
        }
    } else {
        // Every digit lies below the guard place.
        lemma_lval_bound(v);
        lemma_pow10_mono(v.len(), (down - 1) as nat);
        let q = nv / pow10(down as nat);
        let rem = nv % pow10(down as nat);
        assert(q == 0 && rem == nv) by (nonlinear_arith)
            requires
                0 <= nv < pow10((down - 1) as nat),
                pow10((down - 1) as nat) <= 10 * p1,
                q == nv / (10 * p1),
                rem == nv % (10 * p1),
                p1 >= 1,
        ;
        assert(v.take(v.len() as int) =~= v);
        assert(2 * rem < 10 * p1) by (nonlinear_arith)
            requires
                0 <= rem < p1,
                p1 >= 1,
        ;
    }
}

/// Trailing zeros removed.
pub open spec fn trim_zeros(s: Seq<u8>) -> Seq<u8>
    decreases s.len(),
{
    if s.len() > 0 && s.last() == D0 {
        trim_zeros(s.drop_last())
    } else {
        s
    }
}

/// The rendered form of a floating value: every trailing zero removed, and
/// one zero restored if a bare point would remain at the end.
pub open spec fn spec_trim_real(s: Seq<u8>) -> Seq<u8> {
    let t = trim_zeros(s);
    if t.len() > 0 && t.last() == DOT {
        t.push(D0)
    } else {
        t
    }
}

/// Applies the rendering trim to a digit string.
pub fn trim_real(s: Vec<u8>) -> (r: Vec<u8>)
    ensures
        r@ == spec_trim_real(s@),
{
    let mut out = s;
    let ghost s0 = out@;
    while out.len() > 0 && out[out.len() - 1] == 0x30
        invariant
            trim_zeros(out@) == trim_zeros(s0),
        decreases out@.len(),
    {
        let ghost before = out@;
        out.pop();
        proof {
            assert(out@ =~= before.drop_last());
        }
    }
    if out.len() > 0 && out[out.len() - 1] == 0x2e {
        out.push(0x30);
    }
    out
}

/// The `NaN` text.
pub open spec fn nan_text() -> Seq<u8> {
    seq![0x4eu8, 0x61u8, 0x4eu8]
}

/// The `inf` text.
pub open spec fn inf_text() -> Seq<u8> {
    seq![0x69u8, 0x6eu8, 0x66u8]
}

/// The untrimmed fixed-precision text of the double whose bits are given:
/// `NaN`, signed `inf`, or sign and exact decimal digits at `p` places.
pub open spec fn spec_double_fixed(bits: u64, p: nat) -> Seq<u8> {
    let neg = bits >= 0x8000000000000000;
    let expf = (bits / 0x10000000000000) % 0x800;
    let mant = bits % 0x10000000000000;
    let sign: Seq<u8> = if neg {
        seq![MINUS]
    } else {
        seq![]
    };
    if expf == 0x7ff {
        if mant != 0 {
            nan_text()
        } else {
            sign + inf_text()
        }
    } else {
        let m: int = if expf == 0 {
            mant as int
        } else {
            mant + 0x10000000000000
        };
        let e2: int = if expf == 0 {
            -1074
        } else {
            expf - 1075
        };
        let up: nat = if e2 >= 0 {
            e2 as nat
        } else {
            0
        };
        let down: nat = if e2 >= 0 {
            0
        } else {
            (-e2) as nat
        };
        sign + spec_fixed_text(spec_scaled_round(m, up, down, p), p)
    }
}

/// The rendered text of a double at rendering precision `prec`: the
/// fixed-precision digits at no more than thirty places, trimmed.
pub open spec fn spec_double_text(bits: u64, prec: u8) -> Seq<u8> {
    let p: nat = if prec < 30 {
        prec as nat
    } else {
        30
    };
    spec_trim_real(spec_double_fixed(bits, p))
}

/// Renders the double with the given bit pattern at rendering precision
/// `prec`, exactly and in integer arithmetic alone.
pub fn double_text(bits: u64, prec: u8) -> (r: Vec<u8>)
    ensures
        r@ == spec_double_text(bits, prec),
{
    let p: usize = if prec < 30 {
        prec as usize
    } else {
        30
    };
    let neg = bits >= 0x8000000000000000;
    let expf = (bits / 0x10000000000000) % 0x800;
    let mant = bits % 0x10000000000000;
    let mut out: Vec<u8> = Vec::new();
    if expf == 0x7ff {
        if mant != 0 {
            out.push(0x4e);
            out.push(0x61);
            out.push(0x4e);
            proof {
                assert(out@ =~= nan_text());
            }
        } else {
            if neg {
                out.push(0x2d);
            }
            out.push(0x69);
            out.push(0x6e);
            out.push(0x66);
            proof {
                if neg {
                    assert(out@ =~= seq![MINUS] + inf_text());
                } else {
                    assert(out@ =~= Seq::<u8>::empty() + inf_text());
                }
            }
        }
        return trim_real(out);
    }
    let m: u64 = if expf == 0 {
        mant
    } else {
        mant + 0x10000000000000
    };
    let up: usize = if expf >= 1075 {
        (expf - 1075) as usize
    } else {
        0
    };
    let down: usize = if expf == 0 {
        1074
    } else if expf < 1075 {
        (1075 - expf) as usize
    } else {
        0
    };
    if neg {
        out.push(0x2d);
    }
    let digits = fixed_digits(m, up, down, p);
    let ghost head = out@;
    crate::lexical::push_bytes(&mut out, digits.as_slice());
    proof {
        if neg {
            assert(head =~= seq![MINUS]);
        } else {
            assert(head =~= Seq::<u8>::empty());
        }
    }
    trim_real(out)
}

/// The untrimmed fixed-precision text of the single-precision float whose
/// bits are given.
pub open spec fn spec_float_fixed(bits: u32, p: nat) -> Seq<u8> {
    let neg = bits >= 0x80000000;
    let expf = (bits / 0x800000) % 0x100;
    let mant = bits % 0x800000;
    let sign: Seq<u8> = if neg {
        seq![MINUS]
    } else {
        seq![]
    };
    if expf == 0xff {
        if mant != 0 {
            nan_text()
        } else {
            sign + inf_text()
        }
    } else {
        let m: int = if expf == 0 {
            mant as int
        } else {
            mant + 0x800000
        };
        let e2: int = if expf == 0 {
            -149
        } else {
            expf - 150
        };
        let up: nat = if e2 >= 0 {
            e2 as nat
        } else {
            0
        };
        let down: nat = if e2 >= 0 {
            0
        } else {
            (-e2) as nat
        };
        sign + spec_fixed_text(spec_scaled_round(m, up, down, p), p)
    }
}

/// The rendered text of a single-precision float at rendering precision
/// `prec`.
pub open spec fn spec_float_text(bits: u32, prec: u8) -> Seq<u8> {
    let p: nat = if prec < 30 {
        prec as nat
    } else {
        30
    };
    spec_trim_real(spec_float_fixed(bits, p))
}

/// Renders the single-precision float with the given bit pattern at
/// rendering precision `prec`.
pub fn float_text(bits: u32, prec: u8) -> (r: Vec<u8>)
    ensures
        r@ == spec_float_text(bits, prec),
{
    let p: usize = if prec < 30 {
        prec as usize
    } else {
        30
    };
    let neg = bits >= 0x80000000;
    let expf = (bits / 0x800000) % 0x100;
    let mant = bits % 0x800000;
    let mut out: Vec<u8> = Vec::new();
    if expf == 0xff {
        if mant != 0 {
            out.push(0x4e);
            out.push(0x61);
            out.push(0x4e);
            proof {
                assert(out@ =~= nan_text());
            }
        } else {
            if neg {
                out.push(0x2d);
            }
            out.push(0x69);
            out.push(0x6e);
            out.push(0x66);
            proof {
                if neg {
                    assert(out@ =~= seq![MINUS] + inf_text());
                } else {
                    assert(out@ =~= Seq::<u8>::empty() + inf_text());
                }
            }
        }
        return trim_real(out);
    }
    let m: u64 = if expf == 0 {
        mant as u64
    } else {
        (mant + 0x800000) as u64
    };
    let up: usize = if expf >= 150 {
        (expf - 150) as usize
    } else {
        0
    };
    let down: usize = if expf == 0 {
        149
    } else if expf < 150 {
        (150 - expf) as usize
    } else {
        0
    };
    if neg {
        out.push(0x2d);
    }
    let digits = fixed_digits(m, up, down, p);
    let ghost head = out@;
    crate::lexical::push_bytes(&mut out, digits.as_slice());
    proof {
        if neg {
            assert(head =~= seq![MINUS]);
        } else {
            assert(head =~= Seq::<u8>::empty());
        }
    }
    trim_real(out)
}

/// The fixed-precision decimal text of the integer `n` scaled down by ten
/// to the `p`: integer digits, point, and exactly `p` fractional digits.
pub fn fixed_text(n: u128, p: usize) -> (r: Vec<u8>)
    ensures
        r@ == spec_fixed_text(n as int, p as nat),
{
    let nv = dv_from_u128(n);
    let ghost nn = lval(nv@);
    let iv = dv_skip_low(&nv, p);
    proof {
        lemma_pow10_pos(p as nat);
        if p <= nv@.len() {
            lemma_split_div(nv@, p as int);
        } else {
            lemma_lval_bound(nv@);
            lemma_pow10_mono(nv@.len(), p as nat);
            assert(nv@.skip(nv@.len() as int) =~= Seq::<u8>::empty());
            assert(lval(Seq::<u8>::empty()) == 0);
            assert(nn / pow10(p as nat) == 0) by (nonlinear_arith)
                requires
                    0 <= nn < pow10(p as nat),
            ;
        }
    }
    let mut out = dv_emit_msb(&iv);
    if p > 0 {
        out.push(0x2e);
        let mut j: usize = 0;
        while j < p
            invariant
                wf_dv(nv@),
                nn == lval(nv@),
                nn == n,
                j <= p,
                out@ == dec_digits((nn / pow10(p as nat)) as nat) + seq![DOT] + Seq::new(
                    j as nat,
                    |q: int| (D0 + (nn / pow10((p - 1 - q) as nat)) % 10) as u8,
                ),
            decreases p - j,
        {
            let d = dv_digit_at(&nv, p - 1 - j);
            proof {
                lemma_lval_nonneg(nv@);
                if p - 1 - j < nv@.len() {
                    lemma_lval_digit(nv@, p - 1 - j);
                } else {
                    lemma_lval_bound(nv@);
                    lemma_pow10_mono(nv@.len(), (p - 1 - j) as nat);
                    lemma_pow10_pos((p - 1 - j) as nat);
                    assert(nn / pow10((p - 1 - j) as nat) == 0) by (nonlinear_arith)
                        requires
                            0 <= nn < pow10((p - 1 - j) as nat),
                    ;
                }
            }
            out.push(0x30 + d);
            proof {
                assert(out@ =~= dec_digits((nn / pow10(p as nat)) as nat) + seq![DOT] + Seq::new(
                    (j + 1) as nat,
                    |q: int| (D0 + (nn / pow10((p - 1 - q) as nat)) % 10) as u8,
                ));
            }
            j += 1;
        }
    } else {
        proof {
            assert(out@ =~= spec_fixed_text(nn, 0));
        }
    }
    proof {
        lemma_lval_nonneg(nv@);
    }
    out
}

} // verus!
