//! Unbounded decimal arithmetic on vectors of digit bytes, least
//! significant digit first.  The floating literal paths use it to move
//! between decimal text and binary significands exactly: multiplying by a
//! small constant, appending low zeros, and splitting off low digits give
//! multiplication by powers of ten and of two without any loss.

use vstd::prelude::*;
use crate::lexical::{dec_digits, is_digit, D0};

verus! {

/// Ten to the `n`.
pub open spec fn pow10(n: nat) -> int
    decreases n,
{
    if n == 0 {
        1
    } else {
        10 * pow10((n - 1) as nat)
    }
}

/// Value of a digit vector, least significant digit first.
pub open spec fn lval(s: Seq<u8>) -> int
    decreases s.len(),
{
    if s.len() == 0 {
        0
    } else {
        (s[0] - D0) + 10 * lval(s.drop_first())
    }
}

/// Digit bytes only.
pub open spec fn all_digits(s: Seq<u8>) -> bool {
    forall|j: int| 0 <= j < s.len() ==> is_digit(#[trigger] s[j])
}

/// Well-formed digit vector: digit bytes only, no zero in the highest place.
pub open spec fn wf_dv(s: Seq<u8>) -> bool {
    all_digits(s) && (s.len() > 0 ==> s.last() != D0)
}

pub proof fn lemma_pow10_adds(a: nat, b: nat)
    ensures
        pow10(a + b) == pow10(a) * pow10(b),
    decreases a,
{
    if a == 0 {
    } else {
        lemma_pow10_adds((a - 1) as nat, b);
        assert((a + b - 1) as nat == (a - 1) as nat + b);
        assert(pow10(a + b) == 10 * pow10((a + b - 1) as nat));
        assert(10 * (pow10((a - 1) as nat) * pow10(b)) == (10 * pow10((a - 1) as nat)) * pow10(b))
            by (nonlinear_arith);
    }
}

pub proof fn lemma_pow10_pos(a: nat)
    ensures
        pow10(a) >= 1,
    decreases a,
{
    if a > 0 {
        lemma_pow10_pos((a - 1) as nat);
    }
}

pub proof fn lemma_pow10_mono(a: nat, b: nat)
    requires
        a <= b,
    ensures
        pow10(a) <= pow10(b),
    decreases b,
{
    if a < b && b > 0 {
        lemma_pow10_mono(a, (b - 1) as nat);
        lemma_pow10_pos((b - 1) as nat);
    }
}

pub proof fn lemma_pow10_38()
    ensures
        pow10(38) == 0x4b3b4ca85a86c47a098a224000000000,
{
    reveal_with_fuel(pow10, 40);
}

pub proof fn lemma_lval_nonneg(s: Seq<u8>)
    requires
        all_digits(s),
    ensures
        lval(s) >= 0,
    decreases s.len(),
{
    if s.len() > 0 {
        assert(all_digits(s.drop_first()));
        lemma_lval_nonneg(s.drop_first());
    }
}

#[verifier::rlimit(50)]
pub proof fn lemma_lval_push(s: Seq<u8>, d: u8)
    ensures
        lval(s.push(d)) == lval(s) + (d - D0) * pow10(s.len()),
    decreases s.len(),
{
    let x = s.push(d);
    if s.len() == 0 {
        assert(x.drop_first() =~= Seq::<u8>::empty());
        assert(x[0] == d);
        assert(lval(Seq::<u8>::empty()) == 0);
        assert(lval(x) == (d - D0));
        assert(s =~= Seq::<u8>::empty());
        assert(lval(s) == 0);
        assert(pow10(0) == 1);
        assert((d - D0) * 1 == (d - D0)) by (nonlinear_arith);
        assert(lval(x) == lval(s) + (d - D0) * pow10(s.len()));
    } else {
        assert(x.drop_first() =~= s.drop_first().push(d));
        assert(x[0] == s[0]);
        lemma_lval_push(s.drop_first(), d);
        let a = lval(s.drop_first());
        let c = (d - D0) as int;
        let p = pow10(s.drop_first().len());
        assert(lval(x) == (s[0] - D0) + 10 * (a + c * p));
        assert(10 * (a + c * p) == 10 * a + c * (10 * p)) by (nonlinear_arith);
        assert(pow10(s.len()) == 10 * p);
        assert(lval(s) == (s[0] - D0) + 10 * a);
        assert(lval(x) == ((s[0] - D0) + 10 * a) + c * (10 * p));
        assert(lval(x) == lval(s) + c * pow10(s.len()));
    }
}

pub proof fn lemma_lval_take_skip(s: Seq<u8>, f: int)
    requires
        0 <= f <= s.len(),
    ensures
        lval(s) == lval(s.take(f)) + pow10(f as nat) * lval(s.skip(f)),
    decreases f,
{
    if f == 0 {
        assert(s.take(0) =~= Seq::<u8>::empty());
        assert(s.skip(0) =~= s);
        assert(lval(Seq::<u8>::empty()) == 0);
    } else {
        assert(s.len() > 0);
        lemma_lval_take_skip(s.drop_first(), f - 1);
        assert(s.take(f).drop_first() =~= s.drop_first().take(f - 1));
        assert(s.take(f).len() == f);
        assert(s.take(f)[0] == s[0]);
        assert(s.skip(f) =~= s.drop_first().skip(f - 1));
        let a = lval(s.drop_first().take(f - 1));
        let b = lval(s.drop_first().skip(f - 1));
        let p = pow10((f - 1) as nat);
        assert(lval(s.take(f)) == (s[0] - D0) + 10 * a);
        assert(lval(s) == (s[0] - D0) + 10 * (a + p * b));
        assert(10 * (a + p * b) == 10 * a + (10 * p) * b) by (nonlinear_arith);
        assert(pow10(f as nat) == 10 * p);
    }
}

pub proof fn lemma_lval_bound(s: Seq<u8>)
    requires
        all_digits(s),
    ensures
        0 <= lval(s) < pow10(s.len()),
    decreases s.len(),
{
    if s.len() > 0 {
        assert(all_digits(s.drop_first()));
        lemma_lval_bound(s.drop_first());
        assert(10 * lval(s.drop_first()) + 9 < 10 * pow10(s.drop_first().len()))
            by (nonlinear_arith)
            requires
                lval(s.drop_first()) < pow10(s.drop_first().len()),
        ;
    }
}

pub proof fn lemma_lval_lower(s: Seq<u8>)
    requires
        wf_dv(s),
        s.len() > 0,
    ensures
        lval(s) >= pow10((s.len() - 1) as nat),
    decreases s.len(),
{
    if s.len() == 1 {
        assert(s.last() == s[0]);
    } else {
        assert(s.drop_first().last() == s.last());
        assert(all_digits(s.drop_first()));
        lemma_lval_lower(s.drop_first());
        lemma_lval_nonneg(s.drop_first());
        assert(10 * lval(s.drop_first()) >= 10 * pow10((s.len() - 2) as nat)) by (nonlinear_arith)
            requires
                lval(s.drop_first()) >= pow10((s.len() - 2) as nat),
        ;
    }
}

pub proof fn lemma_lval_zero(s: Seq<u8>)
    requires
        all_digits(s),
    ensures
        (lval(s) == 0) <==> (forall|j: int| 0 <= j < s.len() ==> s[j] == D0),
    decreases s.len(),
{
    if s.len() > 0 {
        assert(all_digits(s.drop_first()));
        lemma_lval_zero(s.drop_first());
        lemma_lval_nonneg(s.drop_first());
        if lval(s) == 0 {
            assert(s[0] == D0);
            assert(forall|j: int| 1 <= j < s.len() ==> s[j] == s.drop_first()[j - 1]);
        } else if forall|j: int| 0 <= j < s.len() ==> s[j] == D0 {
            assert(forall|j: int|
                0 <= j < s.drop_first().len() ==> s.drop_first()[j] == s[j + 1]);
            assert(lval(s.drop_first()) == 0);
        }
    }
}

/// The digits of `n`, least significant first; `0` is the empty vector.
pub fn dv_from_u128(n: u128) -> (r: Vec<u8>)
    ensures
        lval(r@) == n,
        wf_dv(r@),
{
    let mut out: Vec<u8> = Vec::new();
    let mut cur = n;
    proof {
        assert(lval(out@) == 0);
        assert(pow10(0) == 1);
    }
    while cur > 0
        invariant
            lval(out@) + cur * pow10(out@.len()) == n,
            all_digits(out@),
            cur > 0 || out@.len() == 0 || out@.last() != D0,
        decreases cur,
    {
        let d = (cur % 10) as u8;
        proof {
            lemma_lval_push(out@, (D0 + d) as u8);
            lemma_pow10_pos(out@.len());
            let p = pow10(out@.len());
            assert(cur == (cur / 10) * 10 + cur % 10) by (nonlinear_arith);
            assert(((cur / 10) * 10 + cur % 10) * p == (cur / 10) * (10 * p) + (cur % 10) * p)
                by (nonlinear_arith);
            if cur / 10 == 0 {
                assert(cur % 10 == cur);
            }
        }
        out.push(0x30 + d);
        cur = cur / 10;
    }
    proof {
        lemma_pow10_pos(out@.len());
    }
    out
}

/// Removes zeros in the highest places.
pub fn dv_trim(v: Vec<u8>) -> (r: Vec<u8>)
    requires
        all_digits(v@),
    ensures
        lval(r@) == lval(v@),
        wf_dv(r@),
{
    let mut out = v;
    let ghost v0 = out@;
    while out.len() > 0 && out[out.len() - 1] == 0x30
        invariant
            all_digits(out@),
            lval(out@) == lval(v0),
        decreases out@.len(),
    {
        let ghost before = out@;
        proof {
            assert(before.drop_last().push(before.last()) =~= before);
            lemma_lval_push(before.drop_last(), before.last());
            assert(before.last() == D0);
            assert(all_digits(before.drop_last()));
        }
        out.pop();
        proof {
            assert(out@ =~= before.drop_last());
        }
    }
    out
}

/// Multiplies a digit vector by a constant between 1 and 9.
pub fn dv_mul_small(v: &Vec<u8>, m: u8) -> (r: Vec<u8>)
    requires
        1 <= m <= 9,
        all_digits(v@),
    ensures
        lval(r@) == m * lval(v@),
        all_digits(r@),
{
    let mut out: Vec<u8> = Vec::new();
    let mut carry: u8 = 0;
    let mut j: usize = 0;
    proof {
        assert(v@.take(0) =~= Seq::<u8>::empty());
        assert(lval(Seq::<u8>::empty()) == 0);
        assert(pow10(0) == 1);
        assert(m * lval(v@.take(0)) == 0) by (nonlinear_arith)
            requires
                lval(v@.take(0)) == 0,
        ;
    }
    while j < v.len()
        invariant
            1 <= m <= 9,
            all_digits(v@),
            j <= v@.len(),
            carry <= 8,
            all_digits(out@),
            out@.len() == j,
            lval(out@) + (carry as int) * pow10(j as nat) == m * lval(v@.take(j as int)),
        decreases v@.len() - j,
    {
        proof {
            assert(is_digit(v@[j as int]));
        }
        let d = v[j] - 0x30;
        proof {
            assert(m * d <= 81) by (nonlinear_arith)
                requires
                    m <= 9,
                    d <= 9,
            ;
        }
        let t = m * d + carry;
        let nd = t % 10;
        let nc = t / 10;
        proof {
            lemma_lval_push(out@, (D0 + nd) as u8);
            assert(v@.take(j + 1) =~= v@.take(j as int).push(v@[j as int]));
            lemma_lval_push(v@.take(j as int), v@[j as int]);
            let pj = pow10(j as nat);
            let a = lval(v@.take(j as int));
            assert(m * (a + (d as int) * pj) == m * a + ((m * d) as int) * pj)
                by (nonlinear_arith)
                requires
                    m * d <= 81,
                    d == (v@[j as int] - D0),
                    m >= 1,
            ;
            assert(t == nc * 10 + nd) by (nonlinear_arith)
                requires
                    nc == t / 10,
                    nd == t % 10,
            ;
            assert(((nc * 10 + nd) as int) * pj == (nc as int) * (10 * pj) + (nd as int) * pj)
                by (nonlinear_arith);
            assert((carry as int) * pj + ((m * d) as int) * pj == (t as int) * pj)
                by (nonlinear_arith)
                requires
                    t == m * d + carry,
            ;
            assert(pow10((j + 1) as nat) == 10 * pj);
        }
        out.push(0x30 + nd);
        carry = nc;
        j += 1;
    }
    proof {
        assert(v@.take(v@.len() as int) =~= v@);
    }
    if carry > 0 {
        proof {
            lemma_lval_push(out@, (D0 + carry) as u8);
        }
        out.push(0x30 + carry);
    }
    out
}

/// Multiplies by ten to the `p`: `p` zero digits below the given ones.
pub fn dv_shift10(v: &Vec<u8>, p: usize) -> (r: Vec<u8>)
    requires
        all_digits(v@),
    ensures
        lval(r@) == lval(v@) * pow10(p as nat),
        all_digits(r@),
{
    if v.len() == 0 {
        proof {
            lemma_pow10_pos(p as nat);
            assert(lval(v@) == 0);
            assert(0 * pow10(p as nat) == 0) by (nonlinear_arith);
            assert(lval(Seq::<u8>::empty()) == 0);
        }
        return Vec::new();
    }
    let mut out: Vec<u8> = Vec::new();
    let mut k: usize = 0;
    while k < p
        invariant
            k <= p,
            out@.len() == k,
            forall|q: int| 0 <= q < out@.len() ==> out@[q] == D0,
        decreases p - k,
    {
        out.push(0x30);
        k += 1;
    }
    let mut j: usize = 0;
    while j < v.len()
        invariant
            all_digits(v@),
            j <= v@.len(),
            out@.len() == p + j,
            forall|q: int| 0 <= q < p ==> out@[q] == D0,
            forall|q: int| p <= q < out@.len() ==> out@[q] == v@[q - p],
        decreases v@.len() - j,
    {
        out.push(v[j]);
        j += 1;
    }
    proof {
        assert(all_digits(out@));
        lemma_lval_take_skip(out@, p as int);
        assert(out@.skip(p as int) =~= v@);
        assert(forall|q: int| 0 <= q < p ==> out@.take(p as int)[q] == D0);
        assert(all_digits(out@.take(p as int)));
        lemma_lval_zero(out@.take(p as int));
        assert(lval(out@.take(p as int)) == 0);
        assert(pow10(p as nat) * lval(v@) == lval(v@) * pow10(p as nat)) by (nonlinear_arith);
    }
    out
}

/// The digits above the lowest `f`: the quotient by ten to the `f`.
pub fn dv_skip_low(v: &Vec<u8>, f: usize) -> (r: Vec<u8>)
    requires
        wf_dv(v@),
    ensures
        r@ == v@.skip(if f <= v@.len() {
            f as int
        } else {
            v@.len() as int
        }),
        wf_dv(r@),
{
    let mut out: Vec<u8> = Vec::new();
    if f >= v.len() {
        proof {
            assert(v@.skip(v@.len() as int) =~= Seq::<u8>::empty());
            assert(out@ =~= v@.skip(v@.len() as int));
        }
        return out;
    }
    let mut j: usize = f;
    while j < v.len()
        invariant
            wf_dv(v@),
            f <= j <= v@.len(),
            f < v@.len(),
            out@ == v@.subrange(f as int, j as int),
        decreases v@.len() - j,
    {
        out.push(v[j]);
        proof {
            assert(out@ =~= v@.subrange(f as int, j + 1));
        }
        j += 1;
    }
    proof {
        assert(out@ =~= v@.skip(f as int));
        assert(out@.len() > 0);
        assert(out@.last() == v@.last());
    }
    out
}

/// Whether any of the lowest `f` digits is nonzero.
pub fn dv_low_nonzero(v: &Vec<u8>, f: usize) -> (r: bool)
    requires
        all_digits(v@),
    ensures
        r == (lval(v@.take(if f <= v@.len() {
            f as int
        } else {
            v@.len() as int
        })) != 0),
{
    let end = if f <= v.len() {
        f
    } else {
        v.len()
    };
    let ghost lo = v@.take(end as int);
    proof {
        assert(forall|q: int| 0 <= q < lo.len() ==> lo[q] == v@[q]);
        assert(all_digits(lo));
        lemma_lval_zero(lo);
    }
    let mut j: usize = 0;
    while j < end
        invariant
            end <= v@.len(),
            end as int == (if f <= v@.len() {
                f as int
            } else {
                v@.len() as int
            }),
            j <= end,
            lo == v@.take(end as int),
            forall|q: int| 0 <= q < lo.len() ==> lo[q] == v@[q],
            all_digits(lo),
            (lval(lo) == 0) <==> (forall|q: int| 0 <= q < lo.len() ==> lo[q] == D0),
            forall|q: int| 0 <= q < j ==> v@[q] == D0,
        decreases end - j,
    {
        if v[j] != 0x30 {
            proof {
                assert(lo[j as int] != D0);
                assert(!(forall|q: int| 0 <= q < lo.len() ==> lo[q] == D0));
                assert(lval(lo) != 0);
            }
            return true;
        }
        j += 1;
    }
    proof {
        assert(forall|q: int| 0 <= q < lo.len() ==> lo[q] == D0);
    }
    false
}

/// The digit value in place `j`, zero above the top.
pub fn dv_digit_at(v: &Vec<u8>, j: usize) -> (r: u8)
    requires
        all_digits(v@),
    ensures
        r < 10,
        j < v@.len() ==> r == v@[j as int] - D0,
        j >= v@.len() ==> r == 0,
{
    if j < v.len() {
        proof {
            assert(is_digit(v@[j as int]));
        }
        v[j] - 0x30
    } else {
        0
    }
}

/// Adds one.
pub fn dv_increment(v: &Vec<u8>) -> (r: Vec<u8>)
    requires
        all_digits(v@),
    ensures
        lval(r@) == lval(v@) + 1,
        all_digits(r@),
{
    let mut out: Vec<u8> = Vec::new();
    let mut carry: u8 = 1;
    let mut j: usize = 0;
    proof {
        assert(v@.take(0) =~= Seq::<u8>::empty());
        assert(lval(Seq::<u8>::empty()) == 0);
        assert(pow10(0) == 1);
    }
    while j < v.len()
        invariant
            all_digits(v@),
            j <= v@.len(),
            carry <= 1,
            out@.len() == j,
            all_digits(out@),
            lval(out@) + (carry as int) * pow10(j as nat) == lval(v@.take(j as int)) + 1,
        decreases v@.len() - j,
    {
        proof {
            assert(is_digit(v@[j as int]));
        }
        let d = v[j] - 0x30;
        let t = d + carry;
        let nd = t % 10;
        let nc = t / 10;
        proof {
            lemma_lval_push(out@, (D0 + nd) as u8);
            assert(v@.take(j + 1) =~= v@.take(j as int).push(v@[j as int]));
            lemma_lval_push(v@.take(j as int), v@[j as int]);
            let pj = pow10(j as nat);
            assert(t == nc * 10 + nd) by (nonlinear_arith)
                requires
                    nc == t / 10,
                    nd == t % 10,
            ;
            assert(((nc * 10 + nd) as int) * pj == (nc as int) * (10 * pj) + (nd as int) * pj)
                by (nonlinear_arith);
            assert((carry as int) * pj + (d as int) * pj == (t as int) * pj) by (nonlinear_arith)
                requires
                    t == d + carry,
            ;
            assert(pow10((j + 1) as nat) == 10 * pj);
        }
        out.push(0x30 + nd);
        carry = nc;
        j += 1;
    }
    proof {
        assert(v@.take(v@.len() as int) =~= v@);
    }
    if carry > 0 {
        proof {
            lemma_lval_push(out@, (D0 + carry) as u8);
        }
        out.push(0x30 + carry);
    }
    out
}

/// The most-significant-first decimal text of the vector's value.
pub fn dv_emit_msb(v: &Vec<u8>) -> (r: Vec<u8>)
    requires
        wf_dv(v@),
    ensures
        r@ == dec_digits(lval(v@) as nat),
{
    let mut out: Vec<u8> = Vec::new();
    if v.len() == 0 {
        out.push(0x30);
        proof {
            assert(out@ =~= dec_digits(0));
        }
        return out;
    }
    emit_from(&mut out, v, 0);
    proof {
        assert(v@.skip(0) =~= v@);
        assert(out@ =~= Seq::<u8>::empty() + dec_digits(lval(v@) as nat));
    }
    out
}

fn emit_from(out: &mut Vec<u8>, v: &Vec<u8>, from: usize)
    requires
        wf_dv(v@),
        from < v@.len(),
    ensures
        final(out)@ == old(out)@ + dec_digits(lval(v@.skip(from as int)) as nat),
    decreases v@.len() - from,
{
    let n = v.len();
    proof {
        assert(v@.skip(from as int).last() == v@.last());
        assert(all_digits(v@.skip(from as int)));
    }
    if from < n - 1 {
        emit_from(out, v, from + 1);
        let d = v[from];
        proof {
            let s = v@.skip(from as int);
            let rest = v@.skip(from + 1);
            assert(s.drop_first() =~= rest);
            assert(s[0] == v@[from as int]);
            assert(rest.last() == v@.last());
            assert(all_digits(rest));
            lemma_lval_lower(rest);
            lemma_pow10_pos((rest.len() - 1) as nat);
            lemma_lval_nonneg(rest);
            assert(lval(rest) >= 1);
            let n = lval(s);
            assert(n == (s[0] - D0) + 10 * lval(rest));
            assert(n >= 10);
            assert(n / 10 == lval(rest) && n % 10 == (s[0] - D0)) by (nonlinear_arith)
                requires
                    n == (s[0] - D0) + 10 * lval(rest),
                    0 <= s[0] - D0 <= 9,
                    lval(rest) >= 0,
            ;
        }
        out.push(d);
        proof {
            let s = v@.skip(from as int);
            let n = lval(s) as nat;
            assert(dec_digits(n) == dec_digits(n / 10).push((D0 + n % 10) as u8));
            assert((D0 + n % 10) as u8 == v@[from as int]);
            assert(final(out)@ =~= old(out)@ + dec_digits(n));
        }
    } else {
        let d = v[from];
        out.push(d);
        proof {
            let s = v@.skip(from as int);
            assert(s.len() == 1);
            assert(s[0] == v@[from as int]);
            assert(s.drop_first() =~= Seq::<u8>::empty());
            assert(lval(Seq::<u8>::empty()) == 0);
            assert(lval(s) == (s[0] - D0));
            assert(lval(s) < 10);
            let n = lval(s) as nat;
            assert(dec_digits(n) =~= seq![(D0 + n) as u8]);
            assert(final(out)@ =~= old(out)@ + dec_digits(n));
        }
    }
}

/// Reads a vector of at most 38 digits back as an integer.
pub fn dv_to_u128(v: &Vec<u8>) -> (r: u128)
    requires
        all_digits(v@),
        v@.len() <= 38,
    ensures
        r == lval(v@),
{
    let mut acc: u128 = 0;
    let mut j: usize = v.len();
    proof {
        assert(v@.skip(v@.len() as int) =~= Seq::<u8>::empty());
        assert(lval(Seq::<u8>::empty()) == 0);
        assert(pow10(0) == 1);
    }
    while j > 0
        invariant
            all_digits(v@),
            v@.len() <= 38,
            j <= v@.len(),
            acc == lval(v@.skip(j as int)),
            acc < pow10((v@.len() - j) as nat),
        decreases j,
    {
        proof {
            assert(is_digit(v@[j - 1]));
        }
        let d = v[j - 1] - 0x30;
        proof {
            let s = v@.skip(j - 1);
            assert(s.drop_first() =~= v@.skip(j as int));
            assert(s[0] == v@[j - 1]);
            let w = (v@.len() - j) as nat;
            lemma_pow10_mono(w + 1, 38);
            lemma_pow10_38();
            assert(10 * acc + d < 10 * pow10(w)) by (nonlinear_arith)
                requires
                    acc < pow10(w),
                    d <= 9,
            ;
            assert(pow10(w + 1) == 10 * pow10(w));
        }
        acc = 10 * acc + (d as u128);
        j -= 1;
    }
    proof {
        assert(v@.skip(0) =~= v@);
    }
    acc
}

} // verus!
