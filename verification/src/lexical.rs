//! Lexical ground layer: byte classification, case-insensitive keywords,
//! whitespace and digit runs, bounded decimal conversion in both directions.
//!
//! Every parser in this crate works on a byte slice `i` and a cursor `pos`,
//! and returns `Some((new_pos, value))` on success with `pos <= new_pos`,
//! or `None` with no value consumed.  Each executable parser is specified
//! against a total specification function over `Seq<u8>`.

use vstd::prelude::*;

verus! {

/// `'` — quote that delimits string literals.
pub const QUOTE: u8 = 0x27;

/// `"` — the other quote MySQL accepts around strings.
pub const DQUOTE: u8 = 0x22;

/// `` ` `` — MySQL identifier quote.
pub const BACKTICK: u8 = 0x60;

/// `\` — escape lead-in inside quoted strings.
pub const BACKSLASH: u8 = 0x5c;

/// `-` — minus sign.
pub const MINUS: u8 = 0x2d;

/// `.` — decimal point and qualification dot.
pub const DOT: u8 = 0x2e;

/// `0` — the first decimal digit.
pub const D0: u8 = 0x30;

/// `9` — the last decimal digit.
pub const D9: u8 = 0x39;

pub open spec fn is_digit(b: u8) -> bool {
    D0 <= b && b <= D9
}

pub open spec fn is_ws(b: u8) -> bool {
    b == 0x20 || b == 0x09 || b == 0x0a || b == 0x0d
}

/// Bytes accepted in a bare (unquoted) identifier.
pub open spec fn is_ident_byte(b: u8) -> bool {
    (0x61 <= b && b <= 0x7a) || (0x41 <= b && b <= 0x5a) || is_digit(b) || b == 0x5f
}

/// Case-folds an ASCII byte: upper-case letters map to lower case.
pub open spec fn fold_byte(b: u8) -> u8 {
    if 0x41 <= b && b <= 0x5a {
        (b + 0x20) as u8
    } else {
        b
    }
}

/// Case-folds the code of an ASCII character.
pub open spec fn fold_char(c: char) -> u32 {
    if 'A' <= c && c <= 'Z' {
        (c as u32 + 0x20) as u32
    } else {
        c as u32
    }
}

/// Whether byte `b` matches character `c` up to ASCII case.
pub open spec fn byte_matches_char(b: u8, c: char) -> bool {
    fold_byte(b) as u32 == fold_char(c)
}

/// The keyword `kw` matches `s` at `pos` case-insensitively; on a match the
/// cursor stands after the keyword.
pub open spec fn spec_tag_nc(s: Seq<u8>, pos: int, kw: Seq<char>) -> Option<int> {
    if !vstd::utf8::is_ascii_chars(kw) {
        None
    } else if pos + kw.len() <= s.len() && (forall|j: int|
        0 <= j < kw.len() ==> byte_matches_char(s[pos + j], #[trigger] kw[j])) {
        Some(pos + kw.len())
    } else {
        None
    }
}

/// Matches a keyword, ignoring ASCII case.
pub fn tag_nc(i: &[u8], pos: usize, kw: &str) -> (r: Option<usize>)
    requires
        pos <= i@.len(),
    ensures
        match r {
            Some(p2) => Some(p2 as int) == spec_tag_nc(i@, pos as int, kw@) && pos <= p2
                <= i@.len(),
            None => spec_tag_nc(i@, pos as int, kw@) is None,
        },
{
    broadcast use vstd::string::is_ascii_spec_bytes;

    if !kw.is_ascii() {
        return None;
    }
    let kb = kw.as_bytes();
    let n = kb.len();
    if n > i.len() - pos {
        return None;
    }
    let mut j: usize = 0;
    while j < n
        invariant
            vstd::string::is_ascii(kw),
            kb@ == Seq::new(kw@.len(), |q: int| kw@[q] as u8),
            n == kb@.len(),
            pos + n <= i@.len(),
            i@.len() <= usize::MAX,
            j <= n,
            forall|q: int| 0 <= q < j ==> byte_matches_char(i@[pos + q], #[trigger] kw@[q]),
        decreases n - j,
    {
        let b = i[pos + j];
        let mut c = kb[j];
        if 0x41 <= c && c <= 0x5a {
            c = c + 0x20;
        }
        let mut bf = b;
        if 0x41 <= bf && bf <= 0x5a {
            bf = bf + 0x20;
        }
        if bf != c {
            proof {
                assert(!byte_matches_char(i@[pos + j], kw@[j as int]));
            }
            return None;
        }
        j += 1;
    }
    Some(pos + n)
}

/// A single exact byte.
pub open spec fn spec_byte(s: Seq<u8>, pos: int, b: u8) -> Option<int> {
    if pos < s.len() && s[pos] == b {
        Some(pos + 1)
    } else {
        None
    }
}

pub fn byte_tag(i: &[u8], pos: usize, b: u8) -> (r: Option<usize>)
    requires
        pos <= i@.len(),
    ensures
        match r {
            Some(p2) => Some(p2 as int) == spec_byte(i@, pos as int, b) && pos < p2 <= i@.len(),
            None => spec_byte(i@, pos as int, b) is None,
        },
{
    if pos < i.len() && i[pos] == b {
        Some(pos + 1)
    } else {
        None
    }
}

/// End of the run of bytes satisfying `is_ws` that starts at `pos`.
pub open spec fn ws_end(s: Seq<u8>, pos: int) -> int
    decreases s.len() - pos,
{
    if 0 <= pos < s.len() && is_ws(s[pos]) {
        ws_end(s, pos + 1)
    } else {
        pos
    }
}

pub proof fn lemma_ws_end(s: Seq<u8>, pos: int)
    requires
        0 <= pos <= s.len(),
    ensures
        pos <= ws_end(s, pos) <= s.len(),
        forall|q: int| pos <= q < ws_end(s, pos) ==> is_ws(s[q]),
        ws_end(s, pos) < s.len() ==> !is_ws(s[ws_end(s, pos)]),
    decreases s.len() - pos,
{
    if pos < s.len() && is_ws(s[pos]) {
        lemma_ws_end(s, pos + 1);
    }
}

/// Optional whitespace.
pub fn ws0(i: &[u8], pos: usize) -> (r: usize)
    requires
        pos <= i@.len(),
    ensures
        r as int == ws_end(i@, pos as int),
        pos <= r <= i@.len(),
{
    let mut p = pos;
    while p < i.len() && (i[p] == 0x20 || i[p] == 0x09 || i[p] == 0x0a || i[p] == 0x0d)
        invariant
            pos <= p <= i@.len(),
            ws_end(i@, pos as int) == ws_end(i@, p as int),
        decreases i@.len() - p,
    {
        p += 1;
    }
    p
}

/// Mandatory whitespace: at least one whitespace byte.
pub open spec fn spec_ws1(s: Seq<u8>, pos: int) -> Option<int> {
    if pos < s.len() && is_ws(s[pos]) {
        Some(ws_end(s, pos))
    } else {
        None
    }
}

pub fn ws1(i: &[u8], pos: usize) -> (r: Option<usize>)
    requires
        pos <= i@.len(),
    ensures
        match r {
            Some(p2) => Some(p2 as int) == spec_ws1(i@, pos as int) && pos < p2 <= i@.len(),
            None => spec_ws1(i@, pos as int) is None,
        },
{
    if pos < i.len() && (i[pos] == 0x20 || i[pos] == 0x09 || i[pos] == 0x0a || i[pos] == 0x0d) {
        proof {
            lemma_ws_end(i@, pos as int);
        }
        Some(ws0(i, pos))
    } else {
        None
    }
}

/// End of the run of decimal digits that starts at `pos`.
pub open spec fn digit_end(s: Seq<u8>, pos: int) -> int
    decreases s.len() - pos,
{
    if 0 <= pos < s.len() && is_digit(s[pos]) {
        digit_end(s, pos + 1)
    } else {
        pos
    }
}

pub proof fn lemma_digit_end(s: Seq<u8>, pos: int)
    requires
        0 <= pos <= s.len(),
    ensures
        pos <= digit_end(s, pos) <= s.len(),
        forall|q: int| pos <= q < digit_end(s, pos) ==> is_digit(s[q]),
        digit_end(s, pos) < s.len() ==> !is_digit(s[digit_end(s, pos)]),
    decreases s.len() - pos,
{
    if pos < s.len() && is_digit(s[pos]) {
        lemma_digit_end(s, pos + 1);
    }
}

/// Position after at least one digit, or `None`.
pub open spec fn spec_digit1(s: Seq<u8>, pos: int) -> Option<int> {
    if pos < s.len() && is_digit(s[pos]) {
        Some(digit_end(s, pos))
    } else {
        None
    }
}

pub fn digit1(i: &[u8], pos: usize) -> (r: Option<usize>)
    requires
        pos <= i@.len(),
    ensures
        match r {
            Some(p2) => Some(p2 as int) == spec_digit1(i@, pos as int) && pos < p2 <= i@.len(),
            None => spec_digit1(i@, pos as int) is None,
        },
{
    if pos < i.len() && 0x30 <= i[pos] && i[pos] <= 0x39 {
        let mut p = pos;
        while p < i.len() && 0x30 <= i[p] && i[p] <= 0x39
            invariant
                pos <= p <= i@.len(),
                digit_end(i@, pos as int) == digit_end(i@, p as int),
            decreases i@.len() - p,
        {
            p += 1;
        }
        proof {
            lemma_digit_end(i@, pos as int);
        }
        Some(p)
    } else {
        None
    }
}

/// Numeric value of a digit run, most significant digit first.
pub open spec fn digits_val(s: Seq<u8>) -> nat
    decreases s.len(),
{
    if s.len() == 0 {
        0
    } else {
        (digits_val(s.drop_last()) * 10 + (s.last() - D0)) as nat
    }
}

pub proof fn lemma_digits_val_push(s: Seq<u8>, d: u8)
    requires
        D0 <= d,
    ensures
        digits_val(s.push(d)) == digits_val(s) * 10 + (d - D0),
{
    assert(s.push(d).drop_last() =~= s);
    assert(s.push(d).last() == d);
}

pub proof fn lemma_digits_val_grows(s: Seq<u8>, t: Seq<u8>)
    requires
        s.len() <= t.len(),
        forall|j: int| 0 <= j < s.len() ==> s[j] == t[j],
        forall|j: int| 0 <= j < t.len() ==> is_digit(#[trigger] t[j]),
    ensures
        digits_val(s) <= digits_val(t),
    decreases t.len(),
{
    if t.len() > s.len() {
        lemma_digits_val_grows(s, t.drop_last());
        assert(t.last() >= D0);
        assert(digits_val(t) == digits_val(t.drop_last()) * 10 + (t.last() - D0));
    } else {
        assert(s =~= t);
    }
}

/// A digit run parsed into a bounded integer: the run is consumed whole and
/// the parse fails — consuming nothing — when its value exceeds `max`.
pub open spec fn spec_uint(s: Seq<u8>, pos: int, max: nat) -> Option<(int, nat)> {
    match spec_digit1(s, pos) {
        Some(e) => {
            let v = digits_val(s.subrange(pos, e));
            if v <= max {
                Some((e, v))
            } else {
                None
            }
        },
        None => None,
    }
}

/// Reads a run of decimal digits as an integer of at most `max`; a value
/// out of range is a parse failure, never a truncation.
pub fn parse_uint(i: &[u8], pos: usize, max: u64) -> (r: Option<(usize, u64)>)
    requires
        pos <= i@.len(),
    ensures
        match r {
            Some((p2, v)) => Some((p2 as int, v as nat)) == spec_uint(i@, pos as int, max as nat)
                && pos < p2 <= i@.len(),
            None => spec_uint(i@, pos as int, max as nat) is None,
        },
{
    if !(pos < i.len() && 0x30 <= i[pos] && i[pos] <= 0x39) {
        return None;
    }
    proof {
        lemma_digit_end(i@, pos as int);
    }
    let ghost e = digit_end(i@, pos as int);
    let mut p = pos;
    let mut acc: u64 = 0;
    let mut over = false;
    while p < i.len() && 0x30 <= i[p] && i[p] <= 0x39
        invariant
            pos <= p <= i@.len(),
            digit_end(i@, pos as int) == e,
            pos <= p <= e <= i@.len(),
            forall|q: int| pos <= q < e ==> is_digit(i@[q]),
            e < i@.len() ==> !is_digit(i@[e]),
            digit_end(i@, p as int) == e,
            !over ==> acc == digits_val(i@.subrange(pos as int, p as int)) && acc <= max,
            over ==> digits_val(i@.subrange(pos as int, p as int)) > max,
        decreases i@.len() - p,
    {
        let d = i[p];
        proof {
            assert(i@.subrange(pos as int, p + 1).drop_last() =~= i@.subrange(
                pos as int,
                p as int,
            ));
        }
        if !over {
            if acc > max / 10 || (acc == max / 10 && (d - 0x30) as u64 > max % 10) {
                proof {
                    let prefix = i@.subrange(pos as int, p as int);
                    assert(digits_val(i@.subrange(pos as int, p + 1)) == digits_val(prefix) * 10
                        + (d - D0));
                    assert(max == (max / 10) * 10 + max % 10) by (nonlinear_arith);
                    assert(acc * 10 + (d - D0) > max) by (nonlinear_arith)
                        requires
                            acc > max / 10 || (acc == max / 10 && (d - D0) > max % 10),
                            max == (max / 10) * 10 + max % 10,
                            0 <= d - D0 <= 9,
                            acc >= 0,
                    ;
                }
                over = true;
            } else {
                proof {
                    assert(acc * 10 + (d - D0) <= (max / 10) * 10 + max % 10) by (nonlinear_arith)
                        requires
                            acc <= max / 10,
                            acc < max / 10 || (d - D0) <= max % 10,
                            0 <= d - D0 <= 9,
                    ;
                    assert(max == (max / 10) * 10 + max % 10) by (nonlinear_arith);
                }
                acc = acc * 10 + (d - 0x30) as u64;
            }
        } else {
            proof {
                let prefix = i@.subrange(pos as int, p as int);
                assert(digits_val(i@.subrange(pos as int, p + 1)) == digits_val(prefix) * 10 + (d
                    - D0));
                assert(digits_val(prefix) * 10 + (d - D0) > max) by (nonlinear_arith)
                    requires
                        digits_val(prefix) > max,
                        0 <= d - D0,
                ;
            }
        }
        p += 1;
    }
    proof {
        assert(p as int == e);
    }
    if over {
        None
    } else {
        Some((p, acc))
    }
}

/// The decimal rendering of `n`, most significant digit first, no sign.
pub open spec fn dec_digits(n: nat) -> Seq<u8>
    decreases n,
{
    if n < 10 {
        seq![(D0 + n) as u8]
    } else {
        dec_digits(n / 10).push((D0 + n % 10) as u8)
    }
}

pub proof fn lemma_dec_digits_are_digits(n: nat)
    ensures
        dec_digits(n).len() >= 1,
        forall|j: int| 0 <= j < dec_digits(n).len() ==> is_digit(#[trigger] dec_digits(n)[j]),
    decreases n,
{
    if n >= 10 {
        lemma_dec_digits_are_digits(n / 10);
    }
}

/// Rendering and reading decimal digits are inverse.
pub proof fn lemma_dec_digits_val(n: nat)
    ensures
        digits_val(dec_digits(n)) == n,
    decreases n,
{
    if n < 10 {
        let s = dec_digits(n);
        assert(s.drop_last() =~= Seq::<u8>::empty());
        assert(digits_val(Seq::<u8>::empty()) == 0);
    } else {
        lemma_dec_digits_val(n / 10);
        lemma_digits_val_push(dec_digits(n / 10), (D0 + n % 10) as u8);
        assert((n / 10) * 10 + n % 10 == n) by (nonlinear_arith);
    }
}

/// Appends the decimal rendering of `n` to `out`.
pub fn push_dec_u64(out: &mut Vec<u8>, n: u64)
    ensures
        final(out)@ == old(out)@ + dec_digits(n as nat),
    decreases n,
{
    if n < 10 {
        out.push(0x30 + n as u8);
        proof {
            assert(final(out)@ =~= old(out)@ + dec_digits(n as nat));
        }
    } else {
        push_dec_u64(out, n / 10);
        out.push(0x30 + (n % 10) as u8);
        proof {
            assert(final(out)@ =~= old(out)@ + dec_digits(n as nat));
        }
    }
}

/// Appends the decimal rendering of `n` to `out`.
pub fn push_dec_u128(out: &mut Vec<u8>, n: u128)
    ensures
        final(out)@ == old(out)@ + dec_digits(n as nat),
    decreases n,
{
    if n < 10 {
        out.push(0x30 + n as u8);
        proof {
            assert(final(out)@ =~= old(out)@ + dec_digits(n as nat));
        }
    } else {
        push_dec_u128(out, n / 10);
        out.push(0x30 + (n % 10) as u8);
        proof {
            assert(final(out)@ =~= old(out)@ + dec_digits(n as nat));
        }
    }
}

/// Appends a copy of `src` to `out`.
pub fn push_bytes(out: &mut Vec<u8>, src: &[u8])
    ensures
        final(out)@ == old(out)@ + src@,
{
    let mut k: usize = 0;
    while k < src.len()
        invariant
            k <= src@.len(),
            out@ == old(out)@ + src@.subrange(0, k as int),
        decreases src@.len() - k,
    {
        out.push(src[k]);
        proof {
            assert(out@ =~= old(out)@ + src@.subrange(0, k + 1));
        }
        k += 1;
    }
    proof {
        assert(out@ =~= old(out)@ + src@);
    }
}

/// The bytes of an ASCII keyword.
pub open spec fn kw_bytes(kw: Seq<char>) -> Seq<u8> {
    Seq::new(kw.len(), |q: int| kw[q] as u8)
}

/// Appends the bytes of an ASCII keyword to `out`.
pub fn push_str_bytes(out: &mut Vec<u8>, kw: &str)
    requires
        vstd::string::is_ascii(kw),
    ensures
        final(out)@ == old(out)@ + kw_bytes(kw@),
{
    broadcast use vstd::string::is_ascii_spec_bytes;

    let kb = kw.as_bytes();
    push_bytes(out, kb);
}

/// A copy of `i[a..b]`.
pub fn copy_range(i: &[u8], a: usize, b: usize) -> (r: Vec<u8>)
    requires
        a <= b <= i@.len(),
    ensures
        r@ == i@.subrange(a as int, b as int),
{
    let mut out: Vec<u8> = Vec::new();
    let mut k = a;
    while k < b
        invariant
            a <= k <= b <= i@.len(),
            out@ == i@.subrange(a as int, k as int),
        decreases b - k,
    {
        out.push(i[k]);
        proof {
            assert(out@ =~= i@.subrange(a as int, k + 1));
        }
        k += 1;
    }
    out
}

} // verus!
